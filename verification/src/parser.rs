//! Options of a parse, and the sink that a parse starts with.
//!
//! The tokenizer and the tree builder are not part of this crate. Their
//! options pass through it unread, to whoever drives the sink.

use crate::sink::{start, Sink};
use std::borrow::Cow;
use vstd::prelude::*;

verus! {

/// The tokenizer's options, a type of `xml5ever`. This crate reads nothing in
/// a value of it.
#[verifier::external_type_specification]
#[verifier::external_body]
pub struct ExXmlTokenizerOpts(xml5ever::tokenizer::XmlTokenizerOpts);

/// The tree builder's options, a type of `xml5ever`. This crate reads nothing
/// in a value of it.
#[verifier::external_type_specification]
#[verifier::external_body]
pub struct ExXmlTreeBuilderOpts(xml5ever::tree_builder::XmlTreeBuilderOpts);

/// Calls `XmlTokenizerOpts::default` of `xml5ever`. Nothing is claimed of the
/// options that it returns.
#[verifier::external_body]
fn default_tokenizer_opts() -> xml5ever::tokenizer::XmlTokenizerOpts {
    xml5ever::tokenizer::XmlTokenizerOpts::default()
}

/// Calls `XmlTreeBuilderOpts::default` of `xml5ever`. Nothing is claimed of
/// the options that it returns.
#[verifier::external_body]
fn default_tree_builder_opts() -> xml5ever::tree_builder::XmlTreeBuilderOpts {
    xml5ever::tree_builder::XmlTreeBuilderOpts::default()
}

/// The options of a parse.
pub struct ParseOpts<H> {
    /// Options for the tokenizer.
    pub tokenizer: xml5ever::tokenizer::XmlTokenizerOpts,
    /// Options for the tree builder.
    pub tree_builder: xml5ever::tree_builder::XmlTreeBuilderOpts,
    /// Called with the message of each parse error. A parse error never ends
    /// the parse.
    pub on_parse_error: Option<H>,
}

impl<H> Default for ParseOpts<H> {
    /// The default options of the tokenizer and of the tree builder, and no
    /// callback.
    fn default() -> (opts: Self)
        ensures
            opts.on_parse_error is None,
    {
        ParseOpts {
            tokenizer: default_tokenizer_opts(),
            tree_builder: default_tree_builder_opts(),
            on_parse_error: None,
        }
    }
}

/// A parse that is ready to begin: the sink at its start, and the options for
/// the tokenizer and the tree builder that will drive it.
pub struct Parser<H> {
    pub sink: Sink<H>,
    pub tokenizer: xml5ever::tokenizer::XmlTokenizerOpts,
    pub tree_builder: xml5ever::tree_builder::XmlTreeBuilderOpts,
}

/// Prepares a parse with the default options and no callback.
pub fn parse_xml<H: FnMut(Cow<'static, str>)>() -> (parser: Parser<H>)
    ensures
        parser.sink.wf(),
        parser.sink@ == start(),
        parser.sink.handler() is None,
{
    parse_xml_with_options(ParseOpts::default())
}

/// Prepares a parse: the sink starts with one document node and holds the
/// callback of `opts`; the other options are handed on as they are.
pub fn parse_xml_with_options<H: FnMut(Cow<'static, str>)>(opts: ParseOpts<H>) -> (parser: Parser<
    H,
>)
    requires
        opts.on_parse_error matches Some(h) ==> forall|m: Cow<'static, str>|
            call_requires(h, (m,)),
    ensures
        parser.sink.wf(),
        parser.sink@ == start(),
        parser.sink.handler() == opts.on_parse_error,
        parser.tokenizer == opts.tokenizer,
        parser.tree_builder == opts.tree_builder,
{
    let ParseOpts { tokenizer, tree_builder, on_parse_error } = opts;
    Parser { sink: Sink::new(on_parse_error), tokenizer, tree_builder }
}

} // verus!
