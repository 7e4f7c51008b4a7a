//! The event sink: the operations through which a tree builder makes a tree.
//!
//! A [`Sink`] starts with one document node. The tree builder creates nodes,
//! appends nodes and text, and at the end takes the tree. Every event is
//! final; nothing is undone.

use crate::attributes::{
    attrs_view, collect_attrs, lemma_collect_distinct, lemma_collect_of_distinct, Attr, AttrView,
};
use crate::name::{
    decode, encode, qname_to_qualname, qualname_to_qname, QName, QualName, QualNameView,
};
use crate::tree::{NodeData, NodeDataView, NodeId, NodeView, Tree, TreeError, TreeView};
use std::borrow::Cow;
use vstd::prelude::*;
use vstd::string::*;

verus! {

/// An attribute as the parser reports it.
#[derive(Debug, PartialEq, Eq)]
pub struct Attribute {
    pub name: QName,
    pub value: String,
}

/// What can be appended to a node: a node created before, or text.
#[derive(Debug, PartialEq, Eq)]
pub enum NodeOrText {
    AppendNode(NodeId),
    AppendText(String),
}

/// The tree's attribute for a parser's attribute: the name is encoded, the
/// value kept.
pub open spec fn encode_attr(a: Attribute) -> AttrView {
    AttrView { name: encode(a.name@), value: a.value@ }
}

/// The tree's attributes for a parser's attributes, in the same order.
pub open spec fn encode_attrs(attrs: Seq<Attribute>) -> Seq<AttrView> {
    attrs.map_values(|a: Attribute| encode_attr(a))
}

/// The element that a parser's tag is stored as.
pub open spec fn element(name: QName, attrs: Seq<Attribute>) -> NodeDataView {
    NodeDataView::Element { name: encode(name@), attributes: collect_attrs(encode_attrs(attrs)) }
}

/// The name of the one attribute of the element that stands for a
/// processing instruction: `data`, in no namespace.
pub open spec fn pi_data_name() -> QualNameView {
    QualNameView { ns: Seq::empty(), local: seq!['d', 'a', 't', 'a'] }
}

/// The element that stands for a processing instruction: its local name is
/// the target, its namespace is empty, and its one attribute `data` holds the
/// instruction's data.
pub open spec fn pi_element(target: Seq<char>, data: Seq<char>) -> NodeDataView {
    NodeDataView::Element {
        name: QualNameView { ns: Seq::empty(), local: target },
        attributes: seq![AttrView { name: pi_data_name(), value: data }],
    }
}

/// Whether the last child of `parent` is a text node.
pub open spec fn ends_with_text(t: TreeView, parent: NodeId) -> bool {
    t.children_of(parent).len() > 0 && t.data_of(t.children_of(parent).last()) is Text
}

/// The tree after `text` was appended to `parent`: where the last child of
/// `parent` is a text node the text is added to it, otherwise a new text node
/// becomes the last child.
pub open spec fn append_text(t: TreeView, parent: NodeId, text: Seq<char>) -> TreeView {
    if ends_with_text(t, parent) {
        t.extend_text(t.children_of(parent).last(), text)
    } else {
        t.with_node(NodeDataView::Text { content: text }).append_child(parent, t.next_id())
    }
}

/// The pieces of text joined in their order.
pub open spec fn concat(texts: Seq<Seq<char>>) -> Seq<char>
    decreases texts.len(),
{
    if texts.len() == 0 {
        Seq::empty()
    } else {
        concat(texts.drop_last()) + texts.last()
    }
}

/// The tree after the pieces of text were appended to `parent` one after the
/// other.
pub open spec fn append_texts(t: TreeView, parent: NodeId, texts: Seq<Seq<char>>) -> TreeView
    decreases texts.len(),
{
    if texts.len() == 0 {
        t
    } else {
        append_text(append_texts(t, parent, texts.drop_last()), parent, texts.last())
    }
}

/// Whether the children of `id` at `k` and at `k + 1` are both text nodes.
pub open spec fn text_pair_at(t: TreeView, id: NodeId, k: int) -> bool {
    t.data_of(t.children_of(id)[k]) is Text && t.data_of(t.children_of(id)[k + 1]) is Text
}

/// No two text nodes are adjacent siblings.
pub open spec fn text_coalesced(t: TreeView) -> bool {
    forall|id: NodeId, k: int|
        t.contains(id) && 0 <= k && k + 1 < t.children_of(id).len() ==> !#[trigger] text_pair_at(
            t,
            id,
            k,
        )
}

/// The sink at the start of a parse: one document node, without children.
pub open spec fn start() -> SinkView {
    SinkView {
        tree: TreeView {
            nodes: seq![
                NodeView { parent: None, children: Seq::empty(), data: NodeDataView::Document },
            ],
        },
        document: NodeId { index: 0 },
    }
}

/// The mathematical value of a [`Sink`]: its tree and its document node.
pub struct SinkView {
    pub tree: TreeView,
    pub document: NodeId,
}

impl SinkView {
    /// The tree is a forest; the document node is a document and a root; and
    /// every doctype node is a child of the document node.
    pub open spec fn wf(self) -> bool {
        &&& self.tree.wf()
        &&& self.tree.contains(self.document)
        &&& self.tree.data_of(self.document) is Document
        &&& self.tree.parent_of(self.document) is None
        &&& forall|id: NodeId|
            self.tree.contains(id) && #[trigger] self.tree.data_of(id) is Doctype
                ==> self.tree.parent_of(id) == Some(self.document)
    }

    /// Whether `id` is a node that `create_element`, `create_comment` or
    /// `create_pi` has made.
    pub open spec fn is_created(self, id: NodeId) -> bool {
        self.tree.contains(id) && (self.tree.data_of(id) is Element || self.tree.data_of(
            id,
        ) is Comment)
    }

    /// Whether `later` can follow `self` in one parse: the document node is
    /// the same, and every node is still there with the data it had, but for
    /// a text node, whose text may have grown at its end.
    pub open spec fn grows_into(self, later: SinkView) -> bool {
        &&& later.document == self.document
        &&& forall|id: NodeId|
            #![trigger later.tree.data_of(id)]
            #![trigger later.tree.contains(id)]
            self.tree.contains(id) ==> later.tree.contains(id) && kept(
                self.tree.data_of(id),
                later.tree.data_of(id),
            )
    }
}

/// Whether a node with the data `before` may later have the data `after`:
/// text may have grown at its end, all else is as it was.
pub open spec fn kept(before: NodeDataView, after: NodeDataView) -> bool {
    match before {
        NodeDataView::Text { content } => after matches NodeDataView::Text { content: longer }
            && content.is_prefix_of(longer),
        _ => after == before,
    }
}

/// The sink of one parse.
pub struct Sink<H> {
    tree: Tree,
    document_node: NodeId,
    on_parse_error: Option<H>,
}

impl<H> View for Sink<H> {
    type V = SinkView;

    closed spec fn view(&self) -> SinkView {
        SinkView { tree: self.tree@, document: self.document_node }
    }
}

impl<H: FnMut(Cow<'static, str>)> Sink<H> {
    /// The callback that is told of parse errors, if there is one.
    pub closed spec fn handler(&self) -> Option<H> {
        self.on_parse_error
    }

    /// The sink's tree and document node are well formed, and its callback
    /// takes every message.
    pub open spec fn wf(&self) -> bool {
        &&& self@.wf()
        &&& self.handler() matches Some(h) ==> forall|m: Cow<'static, str>|
            call_requires(h, (m,))
    }

    /// A sink at the start of a parse: its tree holds one document node and
    /// nothing else.
    pub fn new(on_parse_error: Option<H>) -> (sink: Sink<H>)
        requires
            on_parse_error matches Some(h) ==> forall|m: Cow<'static, str>|
                call_requires(h, (m,)),
        ensures
            sink.wf(),
            sink.handler() == on_parse_error,
            sink@ == start(),
            text_coalesced(sink@.tree),
    {
        let mut tree = Tree::new();
        let document_node = tree.new_document();
        assert(tree@.nodes =~= start().tree.nodes);
        Sink { tree, document_node, on_parse_error }
    }

    /// Ends the parse: gives the tree and, in it, the document node.
    pub fn finish(self) -> (out: (Tree, NodeId))
        requires
            self.wf(),
        ensures
            out.0@ == self@.tree,
            out.1 == self@.document,
            out.0.wf(),
            out.0@.contains(out.1),
    {
        (self.tree, self.document_node)
    }

    /// Reports a parse error: the callback, if there is one, is called with
    /// the message. The tree is not touched, and the parse goes on.
    pub fn parse_error(&mut self, message: Cow<'static, str>)
        requires
            old(self).wf(),
        ensures
            final(self).wf(),
            final(self)@ == old(self)@,
            final(self).handler() == old(self).handler(),
            old(self).handler() matches Some(h) ==> call_ensures(h, (message,), ()),
    {
        match &mut self.on_parse_error {
            Some(handler) => {
                handler(message);
            },
            None => {},
        }
    }

    /// The document node.
    pub fn get_document(&mut self) -> (id: NodeId)
        ensures
            id == old(self)@.document,
            *final(self) == *old(self),
    {
        self.document_node
    }

    /// The tree as it is now.
    pub fn tree(&self) -> (t: &Tree)
        ensures
            t@ == self@.tree,
    {
        &self.tree
    }

    /// Whether `id` is a node of the sink's tree.
    pub fn contains(&self, id: &NodeId) -> (b: bool)
        ensures
            b == self@.tree.contains(*id),
    {
        self.tree.contains(*id)
    }

    /// Whether `id` is a node that `create_element`, `create_comment` or
    /// `create_pi` has made.
    pub fn is_created(&self, id: &NodeId) -> (b: bool)
        ensures
            b == self@.is_created(*id),
    {
        self.tree.contains(*id) && (self.tree.is_element(*id) || self.tree.is_comment(*id))
    }

    /// Whether `target` is an element of the sink's tree.
    pub fn is_element(&self, target: &NodeId) -> (b: bool)
        ensures
            b == (self@.tree.contains(*target) && self@.tree.data_of(*target) is Element),
    {
        self.tree.contains(*target) && self.tree.is_element(*target)
    }

    /// The name of the element `target`, as the parser writes it.
    pub fn elem_name(&self, target: &NodeId) -> (name: QName)
        requires
            self@.tree.contains(*target),
            self@.tree.data_of(*target) is Element,
        ensures
            name@ == decode(self@.tree.data_of(*target)->Element_name),
    {
        match self.tree.data(*target) {
            NodeData::Element { name, .. } => qualname_to_qname(name.clone()),
            _ => unreached(),
        }
    }

    /// Creates an element. It has no parent yet.
    pub fn create_element(&mut self, name: QName, attrs: Vec<Attribute>) -> (id: NodeId)
        requires
            old(self).wf(),
        ensures
            final(self).wf(),
            final(self).handler() == old(self).handler(),
            final(self)@.document == old(self)@.document,
            old(self)@.grows_into(final(self)@),
            id == old(self)@.tree.next_id(),
            final(self)@.tree == old(self)@.tree.with_node(element(name, attrs@)),
            final(self)@.is_created(id),
            text_coalesced(old(self)@.tree) ==> text_coalesced(final(self)@.tree),
    {
        let ghost before = self@.tree;
        let ghost all = encode_attrs(attrs@);
        let mut encoded: Vec<Attr> = Vec::new();
        for a in iter: attrs
            invariant
                all == encode_attrs(iter.seq()),
                encoded.len() == iter.index(),
                forall|j: int| 0 <= j < encoded.len() ==> (#[trigger] encoded[j])@ == all[j],
        {
            let Attribute { name, value } = a;
            encoded.push(Attr { name: qname_to_qualname(name), value });
        }
        assert(attrs_view(encoded@) =~= all);
        let id = self.tree.new_element(qname_to_qualname(name), encoded);
        proof {
            lemma_collect_distinct(all);
            old(self)@.lemma_create(element(name, attrs@));
            before.lemma_with_node(element(name, attrs@));
        }
        id
    }

    /// Creates a comment. It has no parent yet.
    pub fn create_comment(&mut self, text: String) -> (id: NodeId)
        requires
            old(self).wf(),
        ensures
            final(self).wf(),
            final(self).handler() == old(self).handler(),
            final(self)@.document == old(self)@.document,
            old(self)@.grows_into(final(self)@),
            id == old(self)@.tree.next_id(),
            final(self)@.tree == old(self)@.tree.with_node(
                NodeDataView::Comment { content: text@ },
            ),
            final(self)@.is_created(id),
            text_coalesced(old(self)@.tree) ==> text_coalesced(final(self)@.tree),
    {
        let ghost before = self@.tree;
        let id = self.tree.new_comment(text);
        proof {
            old(self)@.lemma_create(NodeDataView::Comment { content: text@ });
            before.lemma_with_node(NodeDataView::Comment { content: text@ });
        }
        id
    }

    /// Creates the element that stands for a processing instruction. It has
    /// no parent yet.
    pub fn create_pi(&mut self, target: String, data: String) -> (id: NodeId)
        requires
            old(self).wf(),
        ensures
            final(self).wf(),
            final(self).handler() == old(self).handler(),
            final(self)@.document == old(self)@.document,
            old(self)@.grows_into(final(self)@),
            id == old(self)@.tree.next_id(),
            final(self)@.tree == old(self)@.tree.with_node(pi_element(target@, data@)),
            final(self)@.is_created(id),
            text_coalesced(old(self)@.tree) ==> text_coalesced(final(self)@.tree),
    {
        let ghost before = self@.tree;
        let name = QualName { ns: String::new(), local: target };
        let data_name = QualName { ns: String::new(), local: String::from_str("data") };
        let mut attributes: Vec<Attr> = Vec::new();
        attributes.push(Attr { name: data_name, value: data });
        proof {
            reveal_strlit("data");
            assert("data"@ =~= seq!['d', 'a', 't', 'a']);
            let list = attrs_view(attributes@);
            assert(list =~= seq![AttrView { name: pi_data_name(), value: data@ }]);
            lemma_collect_of_distinct(list);
        }
        let id = self.tree.new_element(name, attributes);
        proof {
            old(self)@.lemma_create(pi_element(target@, data@));
            before.lemma_with_node(pi_element(target@, data@));
        }
        id
    }

    /// Appends a node or text to `parent`.
    ///
    /// A node becomes the last child of `parent`, and leaves the parent it
    /// had. That is refused, with nothing changed, where the node is `parent`
    /// or one of its ancestors. Text is added to the last child of `parent`
    /// where that is a text node; otherwise a new text node becomes the last
    /// child.
    pub fn append(&mut self, parent: NodeId, child: NodeOrText) -> (r: Result<(), TreeError>)
        requires
            old(self).wf(),
            old(self)@.tree.contains(parent),
            child matches NodeOrText::AppendNode(node) ==> old(self)@.is_created(node),
        ensures
            final(self).wf(),
            final(self).handler() == old(self).handler(),
            final(self)@.document == old(self)@.document,
            old(self)@.grows_into(final(self)@),
            match child {
                NodeOrText::AppendNode(node) => {
                    &&& r is Err <==> old(self)@.tree.is_ancestor_or_self(node, parent)
                    &&& r is Err ==> r == Err::<(), TreeError>(TreeError::Cycle) && final(self)@
                        == old(self)@
                    &&& r is Ok ==> final(self)@.tree == old(self)@.tree.append_child(
                        parent,
                        node,
                    )
                    &&& text_coalesced(old(self)@.tree) && old(self)@.tree.parent_of(node) is None
                        ==> text_coalesced(final(self)@.tree)
                },
                NodeOrText::AppendText(text) => {
                    &&& r is Ok
                    &&& final(self)@.tree == append_text(old(self)@.tree, parent, text@)
                    &&& text_coalesced(old(self)@.tree) ==> text_coalesced(final(self)@.tree)
                },
            },
    {
        let ghost before = self@.tree;
        match child {
            NodeOrText::AppendNode(node) => {
                proof {
                    if !before.is_ancestor_or_self(node, parent) {
                        old(self)@.lemma_append_node(parent, node);
                    }
                }
                self.tree.append_child(parent, node)
            },
            NodeOrText::AppendText(text) => {
                proof {
                    assert(before.links_ok(parent));
                }
                match self.tree.last_child(parent) {
                    Some(last) => {
                        if self.tree.is_text(last) {
                            proof {
                                old(self)@.lemma_append_text(parent, text@);
                            }
                            self.tree.extend_text(last, text.as_str());
                            return Ok(());
                        }
                    },
                    None => {},
                }
                let node = self.tree.new_text(text);
                proof {
                    old(self)@.lemma_append_text(parent, text@);
                    before.lemma_with_node(NodeDataView::Text { content: text@ });
                    self.tree@.lemma_childless_is_no_ancestor(node, parent);
                }
                self.tree.attach(parent, node);
                Ok(())
            },
        }
    }

    /// Appends a doctype node to the document node, whatever node the tree
    /// builder is working on.
    pub fn append_doctype_to_document(&mut self, name: String, public_id: String, system_id: String)
        requires
            old(self).wf(),
        ensures
            final(self).wf(),
            final(self).handler() == old(self).handler(),
            final(self)@.document == old(self)@.document,
            old(self)@.grows_into(final(self)@),
            final(self)@.tree == old(self)@.tree.with_node(
                NodeDataView::Doctype {
                    name: name@,
                    public_id: public_id@,
                    system_id: system_id@,
                },
            ).append_child(old(self)@.document, old(self)@.tree.next_id()),
            final(self)@.tree.parent_of(old(self)@.tree.next_id()) == Some(old(self)@.document),
            final(self)@.tree.children_of(old(self)@.document) == old(self)@.tree.children_of(
                old(self)@.document,
            ).push(old(self)@.tree.next_id()),
            text_coalesced(old(self)@.tree) ==> text_coalesced(final(self)@.tree),
    {
        let ghost data = NodeDataView::Doctype {
            name: name@,
            public_id: public_id@,
            system_id: system_id@,
        };
        let node = self.tree.new_doctype(name, public_id, system_id);
        proof {
            old(self)@.lemma_append_doctype(data);
        }
        self.tree.attach(self.document_node, node);
    }

    /// Does nothing: the tree knows no scripts.
    pub fn mark_script_already_started(&mut self, node: NodeId)
        ensures
            *final(self) == *old(self),
    {
    }
}

/// A new node keeps text coalesced.
pub proof fn lemma_with_node_keeps_coalesced(t: TreeView, data: NodeDataView)
    requires
        t.wf(),
        data.wf(),
        t.nodes.len() < usize::MAX,
        text_coalesced(t),
    ensures
        text_coalesced(t.with_node(data)),
{
    let g = t.with_node(data);
    t.lemma_with_node(data);
    assert forall|id: NodeId, k: int|
        g.contains(id) && 0 <= k && k + 1 < g.children_of(id).len() implies !#[trigger] text_pair_at(
        g,
        id,
        k,
    ) by {
        assert(t.contains(id));
        assert(g.node(id) == t.node(id));
        assert(t.links_ok(id));
        let a = t.children_of(id)[k];
        let b = t.children_of(id)[k + 1];
        assert(t.contains(a) && t.contains(b));
        assert(g.node(a) == t.node(a));
        assert(g.node(b) == t.node(b));
        assert(!text_pair_at(t, id, k));
    }
}

/// Longer text in a text node keeps text coalesced.
pub proof fn lemma_extend_text_keeps_coalesced(t: TreeView, id: NodeId, more: Seq<char>)
    requires
        t.wf(),
        t.contains(id),
        text_coalesced(t),
    ensures
        text_coalesced(t.extend_text(id, more)),
{
    let g = t.extend_text(id, more);
    t.lemma_extend_text(id, more);
    assert forall|x: NodeId, k: int|
        g.contains(x) && 0 <= k && k + 1 < g.children_of(x).len() implies !#[trigger] text_pair_at(
        g,
        x,
        k,
    ) by {
        assert(t.links_ok(x));
        assert(g.children_of(x) == t.children_of(x));
        let a = t.children_of(x)[k];
        let b = t.children_of(x)[k + 1];
        assert(t.contains(a) && t.contains(b));
        assert(g.data_of(a) is Text <==> t.data_of(a) is Text);
        assert(g.data_of(b) is Text <==> t.data_of(b) is Text);
        assert(!text_pair_at(t, x, k));
    }
}

/// Appending a parentless node keeps text coalesced, unless it puts a text
/// node behind a text node.
pub proof fn lemma_append_keeps_coalesced(t: TreeView, parent: NodeId, child: NodeId)
    requires
        t.wf(),
        t.contains(parent),
        t.contains(child),
        t.parent_of(child) is None,
        !t.is_ancestor_or_self(child, parent),
        text_coalesced(t),
        !(t.data_of(child) is Text) || !ends_with_text(t, parent),
    ensures
        text_coalesced(t.append_child(parent, child)),
{
    let g = t.append_child(parent, child);
    t.lemma_append_child(parent, child);
    t.lemma_detach(child);
    assert(t.detach(child) == t);
    assert forall|id: NodeId, k: int|
        g.contains(id) && 0 <= k && k + 1 < g.children_of(id).len() implies !#[trigger] text_pair_at(
        g,
        id,
        k,
    ) by {
        assert(t.links_ok(id));
        if id == parent {
            assert(g.children_of(id) == t.children_of(id).push(child));
            if k + 1 < t.children_of(id).len() {
                let a = t.children_of(id)[k];
                let b = t.children_of(id)[k + 1];
                assert(t.contains(a) && t.contains(b));
                assert(g.data_of(a) == t.data_of(a));
                assert(g.data_of(b) == t.data_of(b));
                assert(!text_pair_at(t, id, k));
            } else {
                let a = t.children_of(id)[k];
                assert(a == t.children_of(id).last());
                assert(t.contains(a));
                assert(g.children_of(id)[k + 1] == child);
                assert(g.data_of(a) == t.data_of(a));
                assert(g.data_of(child) == t.data_of(child));
            }
        } else {
            assert(g.children_of(id) == t.children_of(id));
            let a = t.children_of(id)[k];
            let b = t.children_of(id)[k + 1];
            assert(t.contains(a) && t.contains(b));
            assert(g.data_of(a) == t.data_of(a));
            assert(g.data_of(b) == t.data_of(b));
            assert(!text_pair_at(t, id, k));
        }
    }
}

/// What appending text does to the tree: behind a text node the text is
/// added to that node and no node is made; otherwise one text node is made,
/// with the text as its content, and becomes the last child.
pub proof fn lemma_append_text_shape(t: TreeView, parent: NodeId, text: Seq<char>)
    requires
        t.wf(),
        t.contains(parent),
        ends_with_text(t, parent) || t.nodes.len() < usize::MAX,
    ensures
        append_text(t, parent, text).wf(),
        append_text(t, parent, text).contains(parent),
        ends_with_text(append_text(t, parent, text), parent),
        ends_with_text(t, parent) ==> {
            let last = t.children_of(parent).last();
            &&& append_text(t, parent, text).nodes.len() == t.nodes.len()
            &&& append_text(t, parent, text).children_of(parent) == t.children_of(parent)
            &&& append_text(t, parent, text).data_of(last) == (NodeDataView::Text {
                content: t.data_of(last)->Text_content + text,
            })
        },
        !ends_with_text(t, parent) ==> {
            &&& append_text(t, parent, text).nodes.len() == t.nodes.len() + 1
            &&& append_text(t, parent, text).children_of(parent) == t.children_of(parent).push(
                t.next_id(),
            )
            &&& append_text(t, parent, text).data_of(t.next_id()) == (NodeDataView::Text {
                content: text,
            })
        },
{
    assert(t.links_ok(parent));
    if ends_with_text(t, parent) {
        let last = t.children_of(parent).last();
        t.lemma_extend_text(last, text);
    } else {
        let data = NodeDataView::Text { content: text };
        let grown = t.with_node(data);
        let node = t.next_id();
        t.lemma_with_node(data);
        grown.lemma_childless_is_no_ancestor(node, parent);
        grown.lemma_detach(node);
        grown.lemma_append_child(parent, node);
    }
}

/// A run of text appended piece by piece gives the tree that the joined text
/// appended at once gives: the run ends up in one text node.
pub proof fn lemma_text_run_coalesces(t: TreeView, parent: NodeId, texts: Seq<Seq<char>>)
    requires
        t.wf(),
        t.contains(parent),
        texts.len() > 0,
        ends_with_text(t, parent) || t.nodes.len() < usize::MAX,
    ensures
        append_texts(t, parent, texts) == append_text(t, parent, concat(texts)),
    decreases texts.len(),
{
    let front = texts.drop_last();
    let last_text = texts.last();
    if front.len() == 0 {
        assert(append_texts(t, parent, front) == t);
    } else {
        lemma_text_run_coalesces(t, parent, front);
        let joined = concat(front);
        let mid = append_text(t, parent, joined);
        lemma_append_text_shape(t, parent, joined);
        let tail = mid.children_of(parent).last();
        assert(mid.links_ok(parent));
        let whole = append_text(t, parent, joined + last_text);
        if ends_with_text(t, parent) {
            let content = t.data_of(tail)->Text_content;
            assert((content + joined) + last_text =~= content + (joined + last_text));
            assert(mid.extend_text(tail, last_text).nodes =~= whole.nodes);
        } else {
            let grown = t.with_node(NodeDataView::Text { content: joined });
            let grown2 = t.with_node(NodeDataView::Text { content: joined + last_text });
            t.lemma_with_node(NodeDataView::Text { content: joined });
            t.lemma_with_node(NodeDataView::Text { content: joined + last_text });
            assert(grown.node(parent) == t.node(parent));
            assert(grown2.node(parent) == t.node(parent));
            assert(mid.extend_text(tail, last_text).nodes =~= whole.nodes);
        }
    }
}

/// Where a run of text does not follow a text node, it makes exactly one
/// node: a text node that is the last child and holds the pieces joined in
/// their order. Where it follows a text node, it makes no node: the pieces
/// are added to that node in their order.
pub proof fn lemma_text_run_is_one_node(t: TreeView, parent: NodeId, texts: Seq<Seq<char>>)
    requires
        t.wf(),
        t.contains(parent),
        texts.len() > 0,
        ends_with_text(t, parent) || t.nodes.len() < usize::MAX,
    ensures
        !ends_with_text(t, parent) ==> {
            &&& append_texts(t, parent, texts).nodes.len() == t.nodes.len() + 1
            &&& append_texts(t, parent, texts).children_of(parent) == t.children_of(parent).push(
                t.next_id(),
            )
            &&& append_texts(t, parent, texts).data_of(t.next_id()) == (NodeDataView::Text {
                content: concat(texts),
            })
        },
        ends_with_text(t, parent) ==> {
            let last = t.children_of(parent).last();
            &&& append_texts(t, parent, texts).nodes.len() == t.nodes.len()
            &&& append_texts(t, parent, texts).children_of(parent) == t.children_of(parent)
            &&& append_texts(t, parent, texts).data_of(last) == (NodeDataView::Text {
                content: t.data_of(last)->Text_content + concat(texts),
            })
        },
{
    lemma_text_run_coalesces(t, parent, texts);
    lemma_append_text_shape(t, parent, concat(texts));
}

/// Data that has not changed is kept.
pub proof fn lemma_kept_same(data: NodeDataView)
    ensures
        kept(data, data),
{
    if let NodeDataView::Text { content } = data {
        assert(content.subrange(0, content.len() as int) =~= content);
    }
}

impl SinkView {
    /// What follows a later state of a parse follows the earlier state too.
    pub proof fn lemma_grows_into_transitive(self, mid: SinkView, later: SinkView)
        requires
            self.grows_into(mid),
            mid.grows_into(later),
        ensures
            self.grows_into(later),
    {
        assert forall|id: NodeId| self.tree.contains(id) implies later.tree.contains(id) && kept(
            self.tree.data_of(id),
            later.tree.data_of(id),
        ) by {
            if let NodeDataView::Text { content } = self.tree.data_of(id) {
                let middle = mid.tree.data_of(id)->Text_content;
                let longer = later.tree.data_of(id)->Text_content;
                assert(content =~= longer.subrange(0, content.len() as int)) by {
                    assert(middle =~= longer.subrange(0, middle.len() as int));
                }
            }
        }
    }

    /// The sink with another tree and the same document node.
    pub open spec fn with_tree(self, tree: TreeView) -> SinkView {
        SinkView { tree, document: self.document }
    }

    /// Creating a node that is no doctype keeps the sink well formed and its
    /// text coalesced.
    pub proof fn lemma_create(self, data: NodeDataView)
        requires
            self.wf(),
            data.wf(),
            !(data is Doctype),
            self.tree.nodes.len() < usize::MAX,
        ensures
            self.with_tree(self.tree.with_node(data)).wf(),
            self.grows_into(self.with_tree(self.tree.with_node(data))),
            text_coalesced(self.tree) ==> text_coalesced(self.tree.with_node(data)),
    {
        let g = self.tree.with_node(data);
        self.tree.lemma_with_node(data);
        assert forall|id: NodeId| self.tree.contains(id) implies g.contains(id) && kept(
            self.tree.data_of(id),
            g.data_of(id),
        ) by {
            lemma_kept_same(self.tree.data_of(id));
        }
        assert forall|id: NodeId| g.contains(id) && #[trigger] g.data_of(id) is Doctype implies g.parent_of(
            id,
        ) == Some(self.document) by {
            assert(self.tree.data_of(id) is Doctype);
        }
        if text_coalesced(self.tree) {
            lemma_with_node_keeps_coalesced(self.tree, data);
        }
    }

    /// Appending a created node keeps the sink well formed; it keeps text
    /// coalesced where the node had no parent.
    pub proof fn lemma_append_node(self, parent: NodeId, node: NodeId)
        requires
            self.wf(),
            self.tree.contains(parent),
            self.is_created(node),
            !self.tree.is_ancestor_or_self(node, parent),
        ensures
            self.with_tree(self.tree.append_child(parent, node)).wf(),
            self.grows_into(self.with_tree(self.tree.append_child(parent, node))),
            text_coalesced(self.tree) && self.tree.parent_of(node) is None ==> text_coalesced(
                self.tree.append_child(parent, node),
            ),
    {
        let g = self.tree.append_child(parent, node);
        self.tree.lemma_append_child(parent, node);
        assert forall|id: NodeId| self.tree.contains(id) implies g.contains(id) && kept(
            self.tree.data_of(id),
            g.data_of(id),
        ) by {
            lemma_kept_same(self.tree.data_of(id));
        }
        assert forall|id: NodeId| g.contains(id) && #[trigger] g.data_of(id) is Doctype implies g.parent_of(
            id,
        ) == Some(self.document) by {
            assert(g.parent_of(id) == self.tree.parent_of(id));
        }
        if text_coalesced(self.tree) && self.tree.parent_of(node) is None {
            lemma_append_keeps_coalesced(self.tree, parent, node);
        }
    }

    /// Appending text keeps the sink well formed and its text coalesced.
    pub proof fn lemma_append_text(self, parent: NodeId, text: Seq<char>)
        requires
            self.wf(),
            self.tree.contains(parent),
            ends_with_text(self.tree, parent) || self.tree.nodes.len() < usize::MAX,
        ensures
            self.with_tree(append_text(self.tree, parent, text)).wf(),
            self.grows_into(self.with_tree(append_text(self.tree, parent, text))),
            text_coalesced(self.tree) ==> text_coalesced(append_text(self.tree, parent, text)),
    {
        let t = self.tree;
        let g = append_text(t, parent, text);
        assert(t.links_ok(parent));
        if ends_with_text(t, parent) {
            let last = t.children_of(parent).last();
            t.lemma_extend_text(last, text);
            assert forall|id: NodeId| t.contains(id) implies g.contains(id) && kept(
                t.data_of(id),
                g.data_of(id),
            ) by {
                if id == last {
                    let content = t.data_of(last)->Text_content;
                    assert((content + text).subrange(0, content.len() as int) =~= content);
                } else {
                    lemma_kept_same(t.data_of(id));
                }
            }
            assert forall|id: NodeId| g.contains(id) && #[trigger] g.data_of(id) is Doctype implies g.parent_of(
                id,
            ) == Some(self.document) by {
                assert(g.data_of(id) == t.data_of(id));
            }
            if text_coalesced(t) {
                lemma_extend_text_keeps_coalesced(t, last, text);
            }
        } else {
            let data = NodeDataView::Text { content: text };
            let grown = t.with_node(data);
            let node = t.next_id();
            self.lemma_create(data);
            t.lemma_with_node(data);
            grown.lemma_childless_is_no_ancestor(node, parent);
            grown.lemma_detach(node);
            grown.lemma_append_child(parent, node);
            assert forall|id: NodeId| t.contains(id) implies g.contains(id) && kept(
                t.data_of(id),
                g.data_of(id),
            ) by {
                lemma_kept_same(t.data_of(id));
            }
            assert forall|id: NodeId| g.contains(id) && #[trigger] g.data_of(id) is Doctype implies g.parent_of(
                id,
            ) == Some(self.document) by {
                assert(g.parent_of(id) == grown.parent_of(id));
            }
            if text_coalesced(t) {
                lemma_append_keeps_coalesced(grown, parent, node);
            }
        }
    }

    /// Appending a doctype makes it the last child of the document node, and
    /// keeps the sink well formed and its text coalesced.
    pub proof fn lemma_append_doctype(self, data: NodeDataView)
        requires
            self.wf(),
            data is Doctype,
            self.tree.nodes.len() < usize::MAX,
        ensures
            self.with_tree(
                self.tree.with_node(data).append_child(self.document, self.tree.next_id()),
            ).wf(),
            !self.tree.with_node(data).is_ancestor_or_self(self.tree.next_id(), self.document),
            self.tree.with_node(data).parent_of(self.tree.next_id()) is None,
            self.tree.with_node(data).append_child(self.document, self.tree.next_id()).parent_of(
                self.tree.next_id(),
            ) == Some(self.document),
            self.tree.with_node(data).append_child(
                self.document,
                self.tree.next_id(),
            ).children_of(self.document) == self.tree.children_of(self.document).push(
                self.tree.next_id(),
            ),
            self.tree.with_node(data).append_child(self.document, self.tree.next_id()).data_of(
                self.tree.next_id(),
            ) == data,
            self.grows_into(
                self.with_tree(
                    self.tree.with_node(data).append_child(self.document, self.tree.next_id()),
                ),
            ),
            text_coalesced(self.tree) ==> text_coalesced(
                self.tree.with_node(data).append_child(self.document, self.tree.next_id()),
            ),
    {
        let t = self.tree;
        let grown = t.with_node(data);
        let node = t.next_id();
        let g = grown.append_child(self.document, node);
        t.lemma_with_node(data);
        grown.lemma_childless_is_no_ancestor(node, self.document);
        grown.lemma_detach(node);
        grown.lemma_append_child(self.document, node);
        assert forall|id: NodeId| t.contains(id) implies g.contains(id) && kept(
            t.data_of(id),
            g.data_of(id),
        ) by {
            lemma_kept_same(t.data_of(id));
        }
        assert forall|id: NodeId| g.contains(id) && #[trigger] g.data_of(id) is Doctype implies g.parent_of(
            id,
        ) == Some(self.document) by {
            if id != node {
                assert(t.data_of(id) is Doctype);
            }
        }
        if text_coalesced(t) {
            lemma_with_node_keeps_coalesced(t, data);
            lemma_append_keeps_coalesced(grown, self.document, node);
        }
    }
}

} // verus!
