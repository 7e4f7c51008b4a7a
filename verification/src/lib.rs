//! A DOM construction core for XML event streams.
//!
//! The crate receives the events of an XML tokenizer and tree builder
//! (element, text, comment, processing instruction, doctype) and builds
//! a namespace-aware tree of nodes from them. Every function carries a
//! contract over a mathematical model of its data, and Verus proves it.
//!
//! * [`name`]: the three-part names of the parser, the two-part names of the
//!   tree, and the mapping between them.
//! * [`attributes`]: the attribute list of an element, a mapping with unique names.
//! * [`tree`]: the node store, an arena of nodes addressed by stable indices.
//! * [`sink`]: the operations that the tree builder drives.
//! * [`parser`]: options, and the construction of a sink ready to be driven.

pub mod attributes;
pub mod name;
pub mod parser;
pub mod tree;
pub mod sink;

pub use attributes::{collect_attributes, Attr};
pub use name::{qname_to_qualname, qualname_to_qname, same_name, QName, QualName};
pub use parser::{parse_xml, parse_xml_with_options, ParseOpts, Parser};
pub use sink::{Attribute, NodeOrText, Sink};
pub use tree::{NodeData, NodeId, Tree, TreeError};
