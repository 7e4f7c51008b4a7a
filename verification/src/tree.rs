//! The node store: an arena that owns every node of a tree.
//!
//! A node is addressed by a [`NodeId`], its index in the store, which stays
//! valid for as long as the store lives. A node knows its parent and its
//! children in order; the links are indices, kept consistent by the store.

use crate::attributes::{
    attrs_view, collect_attributes, collect_attrs, distinct_names, Attr, AttrView,
};
use crate::name::{QualName, QualNameView};
use vstd::prelude::*;
use vstd::string::*;

verus! {

/// A handle to a node: the node's index in its store.
#[derive(Clone, Copy, Debug, PartialEq, Eq, Hash, Structural)]
pub struct NodeId {
    pub index: usize,
}

/// Why a change of the tree was refused.
#[derive(Clone, Copy, Debug, PartialEq, Eq, Structural)]
pub enum TreeError {
    /// The node to append is the new parent itself or one of its ancestors.
    Cycle,
}

/// What a node is, and what it holds.
#[allow(inconsistent_fields)]
#[derive(Debug, PartialEq, Eq)]
pub enum NodeData {
    /// The root of a document.
    Document,
    /// A document type declaration.
    Doctype { name: String, public_id: String, system_id: String },
    /// A run of character data.
    Text { content: String },
    /// A comment.
    Comment { content: String },
    /// An element. A processing instruction is stored as an element too: its
    /// target is the element's local name, and its data the value of the one
    /// attribute `data`.
    Element { name: QualName, attributes: Vec<Attr> },
}

/// The mathematical value of a [`NodeData`].
#[allow(inconsistent_fields)]
pub enum NodeDataView {
    Document,
    Doctype { name: Seq<char>, public_id: Seq<char>, system_id: Seq<char> },
    Text { content: Seq<char> },
    Comment { content: Seq<char> },
    Element { name: QualNameView, attributes: Seq<AttrView> },
}

impl NodeDataView {
    /// An element's attribute list holds no name twice.
    pub open spec fn wf(self) -> bool {
        self matches NodeDataView::Element { attributes, .. } ==> distinct_names(attributes)
    }
}

impl View for NodeData {
    type V = NodeDataView;

    open spec fn view(&self) -> NodeDataView {
        match self {
            NodeData::Document => NodeDataView::Document,
            NodeData::Doctype { name, public_id, system_id } => NodeDataView::Doctype {
                name: name@,
                public_id: public_id@,
                system_id: system_id@,
            },
            NodeData::Text { content } => NodeDataView::Text { content: content@ },
            NodeData::Comment { content } => NodeDataView::Comment { content: content@ },
            NodeData::Element { name, attributes } => NodeDataView::Element {
                name: name@,
                attributes: attrs_view(attributes@),
            },
        }
    }
}

/// The mathematical value of one node: its links and its data.
pub struct NodeView {
    pub parent: Option<NodeId>,
    pub children: Seq<NodeId>,
    pub data: NodeDataView,
}

/// The mathematical value of a store: its nodes, each at its index.
pub struct TreeView {
    pub nodes: Seq<NodeView>,
}

impl TreeView {
    /// Whether `id` addresses a node of the store.
    pub open spec fn contains(self, id: NodeId) -> bool {
        id.index < self.nodes.len()
    }

    /// The node that `id` addresses.
    pub open spec fn node(self, id: NodeId) -> NodeView {
        self.nodes[id.index as int]
    }

    /// The parent of `id`, if it has one.
    pub open spec fn parent_of(self, id: NodeId) -> Option<NodeId> {
        self.node(id).parent
    }

    /// The children of `id`, in order.
    pub open spec fn children_of(self, id: NodeId) -> Seq<NodeId> {
        self.node(id).children
    }

    /// What `id` is, and what it holds.
    pub open spec fn data_of(self, id: NodeId) -> NodeDataView {
        self.node(id).data
    }

    /// The handle that the next new node gets.
    pub open spec fn next_id(self) -> NodeId {
        NodeId { index: self.nodes.len() as usize }
    }

    /// The last child of `id`, if it has children.
    pub open spec fn last_child(self, id: NodeId) -> Option<NodeId> {
        if self.children_of(id).len() == 0 {
            None
        } else {
            Some(self.children_of(id).last())
        }
    }

    /// The first child of `id`, if it has children.
    pub open spec fn first_child(self, id: NodeId) -> Option<NodeId> {
        if self.children_of(id).len() == 0 {
            None
        } else {
            Some(self.children_of(id).first())
        }
    }

    /// The child that follows `id` in its parent's list, if there is one.
    pub open spec fn next_sibling(self, id: NodeId) -> Option<NodeId> {
        match self.parent_of(id) {
            Some(p) => match self.children_of(p).index_of_first(id) {
                Some(at) => if at + 1 < self.children_of(p).len() {
                    Some(self.children_of(p)[at + 1])
                } else {
                    None
                },
                None => None,
            },
            None => None,
        }
    }

    /// The child that precedes `id` in its parent's list, if there is one.
    pub open spec fn previous_sibling(self, id: NodeId) -> Option<NodeId> {
        match self.parent_of(id) {
            Some(p) => match self.children_of(p).index_of_first(id) {
                Some(at) => if at > 0 {
                    Some(self.children_of(p)[at - 1])
                } else {
                    None
                },
                None => None,
            },
            None => None,
        }
    }

    /// The links of `id` agree with those of its neighbours: its parent lists
    /// it as a child, each child names it as parent, no child is listed
    /// twice; and its data is well formed.
    pub open spec fn links_ok(self, id: NodeId) -> bool {
        &&& self.parent_of(id) matches Some(p) ==> self.contains(p) && self.children_of(
            p,
        ).contains(id)
        &&& self.children_of(id).no_duplicates()
        &&& forall|k: int|
            0 <= k < self.children_of(id).len() ==> self.contains(
                #[trigger] self.children_of(id)[k],
            ) && self.parent_of(self.children_of(id)[k]) == Some(id)
        &&& self.data_of(id).wf()
    }

    /// `rank` gives every node a number greater than its parent's.
    pub open spec fn ranked_by(self, rank: Seq<nat>) -> bool {
        &&& rank.len() == self.nodes.len()
        &&& forall|i: int|
            0 <= i < self.nodes.len() ==> ((#[trigger] self.nodes[i]).parent matches Some(p)
                ==> p.index < self.nodes.len() && rank[p.index as int] < rank[i])
    }

    /// No node is its own ancestor: the nodes can be numbered so that each
    /// number is greater than the parent's.
    pub open spec fn acyclic(self) -> bool {
        exists|rank: Seq<nat>| self.ranked_by(rank)
    }

    /// The store is a forest: consistent links, and no cycle.
    pub open spec fn wf(self) -> bool {
        &&& self.nodes.len() <= usize::MAX
        &&& forall|id: NodeId| self.contains(id) ==> #[trigger] self.links_ok(id)
        &&& self.acyclic()
    }

    /// The node reached from `id` by `n` steps to the parent, if the chain of
    /// parents is that long.
    pub open spec fn nth_ancestor(self, id: NodeId, n: nat) -> Option<NodeId>
        decreases n,
    {
        if n == 0 {
            Some(id)
        } else if self.contains(id) {
            match self.parent_of(id) {
                Some(p) => self.nth_ancestor(p, (n - 1) as nat),
                None => None,
            }
        } else {
            None
        }
    }

    /// Whether `a` is `d` itself or one of its ancestors.
    pub open spec fn is_ancestor_or_self(self, a: NodeId, d: NodeId) -> bool {
        exists|n: nat| #[trigger] self.nth_ancestor(d, n) == Some(a)
    }

    /// The store with one more node, which has no parent and no children.
    pub open spec fn with_node(self, data: NodeDataView) -> TreeView {
        TreeView {
            nodes: self.nodes.push(NodeView { parent: None, children: Seq::empty(), data }),
        }
    }

    /// The store with the parent link of `id` replaced.
    pub open spec fn with_parent(self, id: NodeId, parent: Option<NodeId>) -> TreeView {
        TreeView {
            nodes: self.nodes.update(id.index as int, NodeView { parent, ..self.node(id) }),
        }
    }

    /// The store with the child list of `id` replaced.
    pub open spec fn with_children(self, id: NodeId, children: Seq<NodeId>) -> TreeView {
        TreeView {
            nodes: self.nodes.update(id.index as int, NodeView { children, ..self.node(id) }),
        }
    }

    /// The store after `child` was taken from its parent: the parent's child
    /// list loses it, and it has no parent. A node without parent stays as
    /// it is.
    pub open spec fn detach(self, child: NodeId) -> TreeView {
        match self.parent_of(child) {
            Some(q) => self.with_children(q, self.children_of(q).remove_value(child)).with_parent(
                child,
                None,
            ),
            None => self,
        }
    }

    /// The store after `child` was made the last child of `parent`: it is
    /// first taken from the parent it had.
    pub open spec fn append_child(self, parent: NodeId, child: NodeId) -> TreeView {
        let t = self.detach(child);
        t.with_children(parent, t.children_of(parent).push(child)).with_parent(
            child,
            Some(parent),
        )
    }

    /// The store after `more` was added to the end of the text of `id`.
    pub open spec fn extend_text(self, id: NodeId, more: Seq<char>) -> TreeView {
        match self.data_of(id) {
            NodeDataView::Text { content } => self.with_data(
                id,
                NodeDataView::Text { content: content + more },
            ),
            _ => self,
        }
    }

    /// The store with the data of `id` replaced.
    pub open spec fn with_data(self, id: NodeId, data: NodeDataView) -> TreeView {
        TreeView { nodes: self.nodes.update(id.index as int, NodeView { data, ..self.node(id) }) }
    }
}

/// What is left of a list without repeats when one of its items is removed.
proof fn lemma_remove_value(s: Seq<NodeId>, c: NodeId)
    requires
        s.no_duplicates(),
        s.contains(c),
    ensures
        s.remove_value(c).no_duplicates(),
        !s.remove_value(c).contains(c),
        s.remove_value(c).len() == s.len() - 1,
        forall|x: NodeId| x != c ==> (s.remove_value(c).contains(x) <==> s.contains(x)),
        forall|k: int|
            0 <= k < s.remove_value(c).len() ==> s.contains(#[trigger] s.remove_value(c)[k]),
{
    s.index_of_first_ensures(c);
    let at = s.index_of_first(c).unwrap();
    let r = s.remove_value(c);
    s.remove_ensures(at);
    assert forall|k: int| 0 <= k < r.len() implies s.contains(#[trigger] r[k]) && r[k] != c by {
        if k < at {
            assert(r[k] == s[k]);
        } else {
            assert(r[k] == s[k + 1]);
        }
    }
    assert forall|x: NodeId| x != c && s.contains(x) implies r.contains(x) by {
        let i = choose|i: int| 0 <= i < s.len() && s[i] == x;
        if i < at {
            assert(r[i] == x);
        } else {
            assert(r[i - 1] == x);
        }
    }
    assert forall|i: int, j: int| 0 <= i < r.len() && 0 <= j < r.len() && i != j implies r[i]
        != r[j] by {
        let i0 = if i < at { i } else { i + 1 };
        let j0 = if j < at { j } else { j + 1 };
        assert(r[i] == s[i0]);
        assert(r[j] == s[j0]);
    }
}

impl TreeView {
    /// One more step up the chain of parents.
    pub proof fn lemma_nth_ancestor_step(self, id: NodeId, n: nat)
        ensures
            self.nth_ancestor(id, n + 1) == match self.nth_ancestor(id, n) {
                Some(x) => if self.contains(x) {
                    self.parent_of(x)
                } else {
                    None
                },
                None => None,
            },
        decreases n,
    {
        reveal_with_fuel(TreeView::nth_ancestor, 2);
        if n > 0 && self.contains(id) {
            match self.parent_of(id) {
                Some(p) => {
                    self.lemma_nth_ancestor_step(p, (n - 1) as nat);
                },
                None => {},
            }
        }
    }

    /// Past its end the chain of parents stays ended.
    pub proof fn lemma_chain_ended(self, id: NodeId, n: nat, m: nat)
        requires
            self.nth_ancestor(id, n) is None,
            n <= m,
        ensures
            self.nth_ancestor(id, m) is None,
        decreases m - n,
    {
        if n < m {
            self.lemma_nth_ancestor_step(id, n);
            self.lemma_chain_ended(id, n + 1, m);
        }
    }

    /// In a forest a node that has a parent is not that parent's ancestor,
    /// and no node is its own parent.
    pub proof fn lemma_parent_is_not_descendant(self, id: NodeId)
        requires
            self.wf(),
            self.contains(id),
            self.parent_of(id) is Some,
        ensures
            self.parent_of(id) != Some(id),
            !self.is_ancestor_or_self(id, self.parent_of(id).unwrap()),
    {
        let rank = choose|rank: Seq<nat>| self.ranked_by(rank);
        let p = self.parent_of(id).unwrap();
        assert forall|n: nat| self.nth_ancestor(p, n) != Some(id) by {
            self.lemma_rank_along_chain(rank, p, n);
        }
    }

    /// In a forest a node is listed as a child by its parent and by no other
    /// node.
    pub proof fn lemma_one_parent(self, parent: NodeId, child: NodeId)
        requires
            self.wf(),
            self.contains(parent),
            self.children_of(parent).contains(child),
        ensures
            self.contains(child),
            self.parent_of(child) == Some(parent),
    {
        assert(self.links_ok(parent));
        let k = choose|k: int|
            0 <= k < self.children_of(parent).len() && self.children_of(parent)[k] == child;
        assert(self.contains(self.children_of(parent)[k]));
    }

    /// In a forest no node is reached from itself by steps to the parent.
    pub proof fn lemma_no_cycle(self, id: NodeId, n: nat)
        requires
            self.wf(),
            self.contains(id),
            n > 0,
        ensures
            self.nth_ancestor(id, n) != Some(id),
    {
        let rank = choose|rank: Seq<nat>| self.ranked_by(rank);
        self.lemma_rank_along_chain(rank, id, n);
    }

    /// Along the chain of parents the rank does not grow.
    proof fn lemma_rank_along_chain(self, rank: Seq<nat>, id: NodeId, n: nat)
        requires
            self.ranked_by(rank),
            self.contains(id),
        ensures
            self.nth_ancestor(id, n) matches Some(a) ==> self.contains(a) && rank[a.index as int]
                <= rank[id.index as int] && (n > 0 ==> rank[a.index as int]
                < rank[id.index as int]),
        decreases n,
    {
        if n > 0 {
            match self.parent_of(id) {
                Some(p) => {
                    self.lemma_rank_along_chain(rank, p, (n - 1) as nat);
                },
                None => {},
            }
        }
    }

    /// A node without children is the ancestor of no other node.
    pub proof fn lemma_childless_is_no_ancestor(self, a: NodeId, d: NodeId)
        requires
            self.wf(),
            self.contains(d),
            self.children_of(a).len() == 0,
            a != d,
        ensures
            !self.is_ancestor_or_self(a, d),
    {
        assert forall|n: nat| #[trigger] self.nth_ancestor(d, n) != Some(a) by {
            if n > 0 {
                let k = (n - 1) as nat;
                self.lemma_nth_ancestor_step(d, k);
                if self.nth_ancestor(d, n) == Some(a) {
                    let x = self.nth_ancestor(d, k).unwrap();
                    assert(self.links_ok(x));
                }
            }
        }
    }

    /// Two stores in which every node but `c` has the same parent have the
    /// same chain of parents above `id`, as far as that chain avoids `c`.
    proof fn lemma_same_chain(self, other: TreeView, c: NodeId, id: NodeId, n: nat)
        requires
            self.nodes.len() == other.nodes.len(),
            forall|x: NodeId|
                self.contains(x) && x != c ==> #[trigger] self.parent_of(x) == other.parent_of(x),
            forall|m: nat| m < n ==> #[trigger] self.nth_ancestor(id, m) != Some(c),
        ensures
            other.nth_ancestor(id, n) == self.nth_ancestor(id, n),
        decreases n,
    {
        if n > 0 {
            let k = (n - 1) as nat;
            self.lemma_same_chain(other, c, id, k);
            self.lemma_nth_ancestor_step(id, k);
            other.lemma_nth_ancestor_step(id, k);
        }
    }

    /// A forest with one more node is a forest, and the nodes that were there
    /// are as they were.
    pub proof fn lemma_with_node(self, data: NodeDataView)
        requires
            self.wf(),
            data.wf(),
            self.nodes.len() < usize::MAX,
        ensures
            self.with_node(data).wf(),
            self.with_node(data).contains(self.next_id()),
            !self.contains(self.next_id()),
            self.with_node(data).node(self.next_id()) == (NodeView {
                parent: None,
                children: Seq::empty(),
                data,
            }),
            forall|id: NodeId|
                self.contains(id) ==> #[trigger] self.with_node(data).node(id) == self.node(id),
            forall|id: NodeId|
                #[trigger] self.with_node(data).contains(id) ==> self.contains(id) || id
                    == self.next_id(),
    {
        let g = self.with_node(data);
        let rank = choose|rank: Seq<nat>| self.ranked_by(rank);
        assert(g.ranked_by(rank.push(0)));
        assert forall|x: NodeId| g.contains(x) implies #[trigger] g.links_ok(x) by {
            if x.index < self.nodes.len() {
                assert(self.links_ok(x));
            }
        }
    }

    /// Taking a node from its parent leaves a forest, and changes no link but
    /// the one between the two.
    pub proof fn lemma_detach(self, child: NodeId)
        requires
            self.wf(),
            self.contains(child),
        ensures
            self.detach(child).wf(),
            self.detach(child).nodes.len() == self.nodes.len(),
            self.detach(child).parent_of(child) is None,
            forall|x: NodeId|
                self.contains(x) && x != child ==> #[trigger] self.detach(child).parent_of(x)
                    == self.parent_of(x),
            forall|x: NodeId|
                self.contains(x) ==> #[trigger] self.detach(child).data_of(x) == self.data_of(x),
            forall|x: NodeId|
                self.contains(x) && self.parent_of(child) != Some(x) ==> #[trigger] self.detach(
                    child,
                ).children_of(x) == self.children_of(x),
            self.parent_of(child) matches Some(q) ==> self.detach(child).children_of(q)
                == self.children_of(q).remove_value(child),
    {
        let t = self.detach(child);
        match self.parent_of(child) {
            None => {},
            Some(q) => {
                assert(self.links_ok(child));
                assert(self.links_ok(q));
                self.lemma_parent_is_not_descendant(child);
                lemma_remove_value(self.children_of(q), child);
                let rank = choose|rank: Seq<nat>| self.ranked_by(rank);
                assert(t.ranked_by(rank)) by {
                    assert forall|i: int| 0 <= i < t.nodes.len() implies ((
                    #[trigger] t.nodes[i]).parent matches Some(p) ==> p.index < t.nodes.len()
                        && rank[p.index as int] < rank[i]) by {
                        assert(t.nodes[i].parent is Some ==> t.nodes[i].parent
                            == self.nodes[i].parent);
                    }
                }
                assert forall|x: NodeId| t.contains(x) implies #[trigger] t.links_ok(x) by {
                    assert(self.links_ok(x));
                    if t.parent_of(x) is Some {
                        let pp = t.parent_of(x).unwrap();
                        assert(t.children_of(pp).contains(x));
                    }
                    assert forall|k: int| 0 <= k < t.children_of(x).len() implies t.contains(
                        #[trigger] t.children_of(x)[k],
                    ) && t.parent_of(t.children_of(x)[k]) == Some(x) by {
                        let kid = t.children_of(x)[k];
                        if x == q {
                            let k0 = choose|k0: int|
                                0 <= k0 < self.children_of(q).len() && self.children_of(q)[k0]
                                    == kid;
                            assert(self.parent_of(self.children_of(q)[k0]) == Some(q));
                        } else {
                            assert(kid != child);
                        }
                    }
                }
            },
        }
    }

    /// Making a parentless node the last child of a node that is not below it
    /// leaves a forest.
    proof fn lemma_attach(self, parent: NodeId, child: NodeId)
        requires
            self.wf(),
            self.contains(parent),
            self.contains(child),
            self.parent_of(child) is None,
            !self.is_ancestor_or_self(child, parent),
        ensures
            self.with_children(parent, self.children_of(parent).push(child)).with_parent(
                child,
                Some(parent),
            ).wf(),
    {
        let t = self.with_children(parent, self.children_of(parent).push(child)).with_parent(
            child,
            Some(parent),
        );
        assert(self.links_ok(parent));
        assert(!self.children_of(parent).contains(child)) by {
            if self.children_of(parent).contains(child) {
                let k = choose|k: int|
                    0 <= k < self.children_of(parent).len() && self.children_of(parent)[k]
                        == child;
                assert(self.parent_of(self.children_of(parent)[k]) == Some(parent));
            }
        }
        assert forall|x: NodeId| t.contains(x) implies #[trigger] t.links_ok(x) by {
            assert(self.links_ok(x));
            if x == child {
                assert(t.children_of(parent).last() == child);
            } else if self.parent_of(x) is Some {
                let pp = self.parent_of(x).unwrap();
                let k = choose|k: int|
                    0 <= k < self.children_of(pp).len() && self.children_of(pp)[k] == x;
                assert(t.children_of(pp)[k] == x);
            }
            assert forall|k: int| 0 <= k < t.children_of(x).len() implies t.contains(
                #[trigger] t.children_of(x)[k],
            ) && t.parent_of(t.children_of(x)[k]) == Some(x) by {
                let kid = t.children_of(x)[k];
                if x != parent || k != self.children_of(parent).len() {
                    assert(self.parent_of(kid) == Some(x));
                }
            }
        }
        let rank = choose|rank: Seq<nat>| self.ranked_by(rank);
        let lift = (rank[parent.index as int] + 1) as nat;
        let new_rank = Seq::new(
            self.nodes.len(),
            |i: int|
                if self.is_ancestor_or_self(child, NodeId { index: i as usize }) {
                    (rank[i] + lift) as nat
                } else {
                    rank[i]
                },
        );
        assert(t.ranked_by(new_rank)) by {
            assert forall|i: int| 0 <= i < t.nodes.len() implies ((
            #[trigger] t.nodes[i]).parent matches Some(p) ==> p.index < t.nodes.len()
                && new_rank[p.index as int] < new_rank[i]) by {
                let x = NodeId { index: i as usize };
                if t.nodes[i].parent is Some {
                    let p = t.nodes[i].parent.unwrap();
                    if x == child {
                        assert(self.nth_ancestor(child, 0) == Some(child));
                    } else {
                        if self.is_ancestor_or_self(child, x) {
                            let n = choose|n: nat| #[trigger]
                                self.nth_ancestor(x, n) == Some(child);
                            assert(self.nth_ancestor(p, (n - 1) as nat) == Some(child));
                        }
                        if self.is_ancestor_or_self(child, p) {
                            let n = choose|n: nat| #[trigger]
                                self.nth_ancestor(p, n) == Some(child);
                            assert(self.nth_ancestor(x, n + 1) == Some(child));
                        }
                    }
                }
            }
        }
    }

    /// Longer text in a text node leaves a forest, and changes nothing else.
    pub proof fn lemma_extend_text(self, id: NodeId, more: Seq<char>)
        requires
            self.wf(),
            self.contains(id),
        ensures
            self.extend_text(id, more).wf(),
            self.extend_text(id, more).nodes.len() == self.nodes.len(),
            forall|x: NodeId|
                self.contains(x) ==> #[trigger] self.extend_text(id, more).parent_of(x)
                    == self.parent_of(x),
            forall|x: NodeId|
                self.contains(x) ==> #[trigger] self.extend_text(id, more).children_of(x)
                    == self.children_of(x),
            forall|x: NodeId|
                self.contains(x) && x != id ==> #[trigger] self.extend_text(id, more).data_of(x)
                    == self.data_of(x),
            self.data_of(id) matches NodeDataView::Text { content } ==> self.extend_text(
                id,
                more,
            ).data_of(id) == (NodeDataView::Text { content: content + more }),
            !(self.data_of(id) is Text) ==> self.extend_text(id, more) == self,
    {
        let after = self.extend_text(id, more);
        let rank = choose|rank: Seq<nat>| self.ranked_by(rank);
        assert(after.ranked_by(rank)) by {
            assert forall|i: int| 0 <= i < after.nodes.len() implies ((
            #[trigger] after.nodes[i]).parent matches Some(p) ==> p.index < after.nodes.len()
                && rank[p.index as int] < rank[i]) by {
                assert(after.nodes[i].parent == self.nodes[i].parent);
            }
        }
        assert forall|x: NodeId| after.contains(x) implies #[trigger] after.links_ok(x) by {
            assert(self.links_ok(x));
            assert forall|k: int| 0 <= k < after.children_of(x).len() implies after.contains(
                #[trigger] after.children_of(x)[k],
            ) && after.parent_of(after.children_of(x)[k]) == Some(x) by {
                assert(after.children_of(x)[k] == self.children_of(x)[k]);
            }
        }
    }

    /// Appending a child to a node that is not below it leaves a forest.
    pub proof fn lemma_append_child(self, parent: NodeId, child: NodeId)
        requires
            self.wf(),
            self.contains(parent),
            self.contains(child),
            !self.is_ancestor_or_self(child, parent),
        ensures
            self.append_child(parent, child).wf(),
            !self.detach(child).is_ancestor_or_self(child, parent),
            parent != child,
            self.append_child(parent, child).nodes.len() == self.nodes.len(),
            self.append_child(parent, child).parent_of(child) == Some(parent),
            self.append_child(parent, child).children_of(parent) == self.detach(
                child,
            ).children_of(parent).push(child),
            forall|x: NodeId|
                self.contains(x) && x != child ==> #[trigger] self.append_child(
                    parent,
                    child,
                ).parent_of(x) == self.parent_of(x),
            forall|x: NodeId|
                self.contains(x) ==> #[trigger] self.append_child(parent, child).data_of(x)
                    == self.data_of(x),
            forall|x: NodeId|
                self.contains(x) && x != parent ==> #[trigger] self.append_child(
                    parent,
                    child,
                ).children_of(x) == self.detach(child).children_of(x),
    {
        let t = self.detach(child);
        self.lemma_detach(child);
        assert forall|n: nat| #[trigger] t.nth_ancestor(parent, n) != Some(child) by {
            self.lemma_same_chain(t, child, parent, n);
        }
        t.lemma_attach(parent, child);
    }
}

/// One node of the store.
struct Node {
    parent: Option<NodeId>,
    children: Vec<NodeId>,
    data: NodeData,
}

impl View for Node {
    type V = NodeView;

    closed spec fn view(&self) -> NodeView {
        NodeView { parent: self.parent, children: self.children@, data: self.data@ }
    }
}

/// The node store.
pub struct Tree {
    nodes: Vec<Node>,
}

impl View for Tree {
    type V = TreeView;

    closed spec fn view(&self) -> TreeView {
        TreeView { nodes: self.nodes@.map_values(|n: Node| n@) }
    }
}

impl Tree {
    /// The store holds a forest.
    pub open spec fn wf(&self) -> bool {
        self@.wf()
    }

    /// An empty store.
    pub fn new() -> (t: Tree)
        ensures
            t.wf(),
            t@.nodes.len() == 0,
    {
        let t = Tree { nodes: Vec::new() };
        proof {
            assert(t@.ranked_by(Seq::empty()));
        }
        t
    }

    /// The number of nodes in the store.
    pub fn len(&self) -> (n: usize)
        ensures
            n == self@.nodes.len(),
    {
        self.nodes.len()
    }

    /// Whether `id` addresses a node of this store.
    pub fn contains(&self, id: NodeId) -> (b: bool)
        ensures
            b == self@.contains(id),
    {
        id.index < self.nodes.len()
    }

    /// Adds a node without parent or children.
    fn push_node(&mut self, data: NodeData) -> (id: NodeId)
        requires
            old(self).wf(),
            data@.wf(),
        ensures
            final(self).wf(),
            id == old(self)@.next_id(),
            final(self)@ == old(self)@.with_node(data@),
    {
        let id = NodeId { index: self.nodes.len() };
        let ghost before = self@;
        self.nodes.push(Node { parent: None, children: Vec::new(), data });
        proof {
            assert(self.nodes@.len() == self.nodes.len());
            assert(self@.nodes =~= before.with_node(data@).nodes);
            before.lemma_with_node(data@);
        }
        id
    }

    /// Allocates a document node.
    pub fn new_document(&mut self) -> (id: NodeId)
        requires
            old(self).wf(),
        ensures
            final(self).wf(),
            id == old(self)@.next_id(),
            final(self)@ == old(self)@.with_node(NodeDataView::Document),
    {
        self.push_node(NodeData::Document)
    }

    /// Allocates an element node with the given name. Its attributes are the
    /// mapping that `attributes` stands for.
    pub fn new_element(&mut self, name: QualName, attributes: Vec<Attr>) -> (id: NodeId)
        requires
            old(self).wf(),
        ensures
            final(self).wf(),
            id == old(self)@.next_id(),
            final(self)@ == old(self)@.with_node(
                NodeDataView::Element {
                    name: name@,
                    attributes: collect_attrs(attrs_view(attributes@)),
                },
            ),
    {
        let attributes = collect_attributes(attributes);
        self.push_node(NodeData::Element { name, attributes })
    }

    /// Allocates a text node.
    pub fn new_text(&mut self, content: String) -> (id: NodeId)
        requires
            old(self).wf(),
        ensures
            final(self).wf(),
            id == old(self)@.next_id(),
            final(self)@ == old(self)@.with_node(NodeDataView::Text { content: content@ }),
    {
        self.push_node(NodeData::Text { content })
    }

    /// Allocates a comment node.
    pub fn new_comment(&mut self, content: String) -> (id: NodeId)
        requires
            old(self).wf(),
        ensures
            final(self).wf(),
            id == old(self)@.next_id(),
            final(self)@ == old(self)@.with_node(NodeDataView::Comment { content: content@ }),
    {
        self.push_node(NodeData::Comment { content })
    }

    /// Allocates a doctype node.
    pub fn new_doctype(&mut self, name: String, public_id: String, system_id: String) -> (id:
        NodeId)
        requires
            old(self).wf(),
        ensures
            final(self).wf(),
            id == old(self)@.next_id(),
            final(self)@ == old(self)@.with_node(
                NodeDataView::Doctype {
                    name: name@,
                    public_id: public_id@,
                    system_id: system_id@,
                },
            ),
    {
        self.push_node(NodeData::Doctype { name, public_id, system_id })
    }

    /// The parent of `id`.
    pub fn parent(&self, id: NodeId) -> (p: Option<NodeId>)
        requires
            self@.contains(id),
        ensures
            p == self@.parent_of(id),
    {
        self.nodes[id.index].parent
    }

    /// The children of `id`, in order.
    pub fn children(&self, id: NodeId) -> (c: &Vec<NodeId>)
        requires
            self@.contains(id),
        ensures
            c@ == self@.children_of(id),
    {
        &self.nodes[id.index].children
    }

    /// The data of `id`.
    pub fn data(&self, id: NodeId) -> (d: &NodeData)
        requires
            self@.contains(id),
        ensures
            d@ == self@.data_of(id),
    {
        &self.nodes[id.index].data
    }

    /// The first child of `id`.
    pub fn first_child(&self, id: NodeId) -> (c: Option<NodeId>)
        requires
            self@.contains(id),
        ensures
            c == self@.first_child(id),
    {
        let children = &self.nodes[id.index].children;
        if children.len() == 0 {
            None
        } else {
            Some(children[0])
        }
    }

    /// The last child of `id`.
    pub fn last_child(&self, id: NodeId) -> (c: Option<NodeId>)
        requires
            self@.contains(id),
        ensures
            c == self@.last_child(id),
    {
        let children = &self.nodes[id.index].children;
        if children.len() == 0 {
            None
        } else {
            Some(children[children.len() - 1])
        }
    }

    /// The content of `id` where it is a text node.
    pub fn as_text(&self, id: NodeId) -> (t: Option<&String>)
        requires
            self@.contains(id),
        ensures
            match t {
                Some(content) => self@.data_of(id) == (NodeDataView::Text { content: content@ }),
                None => !(self@.data_of(id) is Text),
            },
    {
        match &self.nodes[id.index].data {
            NodeData::Text { content } => Some(content),
            _ => None,
        }
    }
    /// The child that follows `id` in its parent's list.
    pub fn next_sibling(&self, id: NodeId) -> (s: Option<NodeId>)
        requires
            self.wf(),
            self@.contains(id),
        ensures
            s == self@.next_sibling(id),
    {
        match self.nodes[id.index].parent {
            Some(p) => {
                proof {
                    assert(self@.links_ok(id));
                }
                let siblings = &self.nodes[p.index].children;
                let at = position(siblings, id);
                if at + 1 < siblings.len() {
                    Some(siblings[at + 1])
                } else {
                    None
                }
            },
            None => None,
        }
    }

    /// The child that precedes `id` in its parent's list.
    pub fn previous_sibling(&self, id: NodeId) -> (s: Option<NodeId>)
        requires
            self.wf(),
            self@.contains(id),
        ensures
            s == self@.previous_sibling(id),
    {
        match self.nodes[id.index].parent {
            Some(p) => {
                proof {
                    assert(self@.links_ok(id));
                }
                let siblings = &self.nodes[p.index].children;
                let at = position(siblings, id);
                if at > 0 {
                    Some(siblings[at - 1])
                } else {
                    None
                }
            },
            None => None,
        }
    }

    /// Whether `id` is a text node.
    pub fn is_text(&self, id: NodeId) -> (b: bool)
        requires
            self@.contains(id),
        ensures
            b == (self@.data_of(id) is Text),
    {
        match &self.nodes[id.index].data {
            NodeData::Text { .. } => true,
            _ => false,
        }
    }

    /// Whether `id` is an element.
    pub fn is_element(&self, id: NodeId) -> (b: bool)
        requires
            self@.contains(id),
        ensures
            b == (self@.data_of(id) is Element),
    {
        match &self.nodes[id.index].data {
            NodeData::Element { .. } => true,
            _ => false,
        }
    }

    /// Whether `id` is a comment.
    pub fn is_comment(&self, id: NodeId) -> (b: bool)
        requires
            self@.contains(id),
        ensures
            b == (self@.data_of(id) is Comment),
    {
        match &self.nodes[id.index].data {
            NodeData::Comment { .. } => true,
            _ => false,
        }
    }

    /// Whether `ancestor` is `id` itself or one of its ancestors.
    pub fn is_ancestor_or_self(&self, ancestor: NodeId, id: NodeId) -> (b: bool)
        requires
            self.wf(),
            self@.contains(id),
        ensures
            b == self@.is_ancestor_or_self(ancestor, id),
    {
        let ghost rank = choose|rank: Seq<nat>| self@.ranked_by(rank);
        let ghost steps: nat = 0;
        let mut cur = id;
        loop
            invariant
                self@.ranked_by(rank),
                self@.contains(cur),
                self@.nth_ancestor(id, steps) == Some(cur),
                forall|m: nat| m < steps ==> #[trigger] self@.nth_ancestor(id, m) != Some(ancestor),
            decreases rank[cur.index as int],
        {
            if cur == ancestor {
                return true;
            }
            proof {
                self@.lemma_nth_ancestor_step(id, steps);
            }
            match self.nodes[cur.index].parent {
                Some(p) => {
                    cur = p;
                    proof {
                        steps = steps + 1;
                    }
                },
                None => {
                    proof {
                        assert forall|m: nat| #[trigger]
                            self@.nth_ancestor(id, m) != Some(ancestor) by {
                            if m > steps {
                                self@.lemma_chain_ended(id, steps + 1, m);
                            }
                        }
                    }
                    return false;
                },
            }
        }
    }

    /// Takes `child` from its parent, if it has one. Its own children stay
    /// with it.
    pub fn detach(&mut self, child: NodeId)
        requires
            old(self).wf(),
            old(self)@.contains(child),
        ensures
            final(self).wf(),
            final(self)@ == old(self)@.detach(child),
    {
        let ghost before = self@;
        proof {
            before.lemma_detach(child);
        }
        match self.nodes[child.index].parent {
            None => {},
            Some(q) => {
                proof {
                    assert(before.links_ok(child));
                }
                let at = position(&self.nodes[q.index].children, child);
                self.nodes[q.index].children.remove(at);
                self.nodes[child.index].parent = None;
                proof {
                    assert(self@.nodes =~= before.detach(child).nodes);
                }
            },
        }
    }

    /// Makes `child` the last child of `parent`, taking it from the parent it
    /// had. Refused, with the store unchanged, where `child` is `parent`
    /// itself or one of its ancestors: the tree would hold a cycle.
    pub fn append_child(&mut self, parent: NodeId, child: NodeId) -> (r: Result<(), TreeError>)
        requires
            old(self).wf(),
            old(self)@.contains(parent),
            old(self)@.contains(child),
        ensures
            final(self).wf(),
            r is Err <==> old(self)@.is_ancestor_or_self(child, parent),
            r is Err ==> r == Err::<(), TreeError>(TreeError::Cycle) && final(self)@ == old(self)@,
            r is Ok ==> final(self)@ == old(self)@.append_child(parent, child),
    {
        if self.is_ancestor_or_self(child, parent) {
            return Err(TreeError::Cycle);
        }
        let ghost before = self@;
        proof {
            before.lemma_append_child(parent, child);
            before.lemma_detach(child);
        }
        self.detach(child);
        self.attach(parent, child);
        Ok(())
    }

    /// Makes the parentless node `child` the last child of `parent`, which is
    /// not below it.
    pub(crate) fn attach(&mut self, parent: NodeId, child: NodeId)
        requires
            old(self).wf(),
            old(self)@.contains(parent),
            old(self)@.contains(child),
            old(self)@.parent_of(child) is None,
            !old(self)@.is_ancestor_or_self(child, parent),
        ensures
            final(self).wf(),
            final(self)@ == old(self)@.append_child(parent, child),
    {
        let ghost before = self@;
        proof {
            before.lemma_attach(parent, child);
        }
        self.nodes[parent.index].children.push(child);
        self.nodes[child.index].parent = Some(parent);
        proof {
            assert(self@.nodes =~= before.append_child(parent, child).nodes);
        }
    }

    /// Adds `more` to the end of the text of the text node `id`.
    pub fn extend_text(&mut self, id: NodeId, more: &str)
        requires
            old(self).wf(),
            old(self)@.contains(id),
            old(self)@.data_of(id) is Text,
        ensures
            final(self).wf(),
            final(self)@ == old(self)@.extend_text(id, more@),
    {
        let ghost before = self@;
        match &mut self.nodes[id.index].data {
            NodeData::Text { content } => {
                content.append(more);
            },
            _ => {},
        }
        proof {
            before.lemma_extend_text(id, more@);
            assert(self@.nodes =~= before.extend_text(id, more@).nodes);
        }
    }
}

/// The place of `id` in a list that holds it.
fn position(list: &Vec<NodeId>, id: NodeId) -> (at: usize)
    requires
        list@.contains(id),
    ensures
        list@.index_of_first(id) == Some(at as int),
        at < list.len(),
{
    let mut i: usize = 0;
    while i < list.len()
        invariant
            i <= list.len(),
            list@.contains(id),
            forall|j: int| 0 <= j < i ==> list[j] != id,
        decreases list.len() - i,
    {
        if list[i] == id {
            proof {
                list@.index_of_first_ensures(id);
            }
            return i;
        }
        i += 1;
    }
    proof {
        let k = choose|k: int| 0 <= k < list@.len() && list@[k] == id;
        assert(list[k] != id);
    }
    unreached()
}

} // verus!
