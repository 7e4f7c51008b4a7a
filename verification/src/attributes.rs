//! The attribute list of an element.
//!
//! An element's attributes are a mapping from names to values that remembers
//! the order in which its names first came. In the list that holds it no
//! name occurs twice.

use crate::name::{same_name, QualName, QualNameView};
use vstd::prelude::*;

verus! {

/// One attribute of an element: a name and a value.
#[derive(Debug, PartialEq, Eq)]
pub struct Attr {
    pub name: QualName,
    pub value: String,
}

/// The mathematical value of an [`Attr`].
pub struct AttrView {
    pub name: QualNameView,
    pub value: Seq<char>,
}

impl View for Attr {
    type V = AttrView;

    open spec fn view(&self) -> AttrView {
        AttrView { name: self.name@, value: self.value@ }
    }
}

impl Clone for Attr {
    fn clone(&self) -> (r: Self)
        ensures
            r@ == self@,
    {
        Attr { name: self.name.clone(), value: self.value.clone() }
    }
}

/// The values of a list of attributes, in the list's order.
pub open spec fn attrs_view(attrs: Seq<Attr>) -> Seq<AttrView> {
    attrs.map_values(|a: Attr| a@)
}

/// Whether some attribute of `attrs` has the name `name`.
pub open spec fn has_name(attrs: Seq<AttrView>, name: QualNameView) -> bool {
    exists|i: int| 0 <= i < attrs.len() && #[trigger] attrs[i].name == name
}

/// The place of an attribute named `name` in `attrs`, where there is one.
pub open spec fn index_of_name(attrs: Seq<AttrView>, name: QualNameView) -> int {
    choose|i: int| 0 <= i < attrs.len() && #[trigger] attrs[i].name == name
}

/// No name occurs twice in `attrs`.
pub open spec fn distinct_names(attrs: Seq<AttrView>) -> bool {
    forall|i: int, j: int|
        0 <= i < j < attrs.len() ==> #[trigger] attrs[i].name != #[trigger] attrs[j].name
}

/// `attrs` after `a` was set in it: where its name is present the attribute
/// of that name is replaced in its place, otherwise `a` is added at the end.
pub open spec fn set_attr(attrs: Seq<AttrView>, a: AttrView) -> Seq<AttrView> {
    if has_name(attrs, a.name) {
        attrs.update(index_of_name(attrs, a.name), a)
    } else {
        attrs.push(a)
    }
}

/// The mapping that a list of attributes stands for: its attributes are set
/// one after the other, so a name keeps the place of its first occurrence and
/// the value of its last.
pub open spec fn collect_attrs(list: Seq<AttrView>) -> Seq<AttrView>
    decreases list.len(),
{
    if list.len() == 0 {
        Seq::empty()
    } else {
        set_attr(collect_attrs(list.drop_last()), list.last())
    }
}

/// The value that `attrs` gives to `name`, where it has that name.
pub open spec fn value_of(attrs: Seq<AttrView>, name: QualNameView) -> Seq<char> {
    attrs[index_of_name(attrs, name)].value
}

/// Whether `at` is the last place in `list` at which `name` occurs.
pub open spec fn is_last_named(list: Seq<AttrView>, name: QualNameView, at: int) -> bool {
    &&& 0 <= at < list.len()
    &&& list[at].name == name
    &&& forall|j: int| at < j < list.len() ==> (#[trigger] list[j]).name != name
}

/// Setting an attribute keeps the names distinct, keeps the other names'
/// attributes, and gives the set name its new value.
pub proof fn lemma_set_attr(attrs: Seq<AttrView>, a: AttrView)
    requires
        distinct_names(attrs),
    ensures
        distinct_names(set_attr(attrs, a)),
        has_name(set_attr(attrs, a), a.name),
        value_of(set_attr(attrs, a), a.name) == a.value,
        forall|name: QualNameView|
            name != a.name ==> (has_name(set_attr(attrs, a), name) <==> has_name(attrs, name)),
        forall|name: QualNameView|
            name != a.name && has_name(attrs, name) ==> value_of(set_attr(attrs, a), name)
                == value_of(attrs, name),
{
    let out = set_attr(attrs, a);
    let at = if has_name(attrs, a.name) {
        index_of_name(attrs, a.name)
    } else {
        attrs.len() as int
    };
    assert(out[at].name == a.name);
    assert forall|name: QualNameView| name != a.name implies (has_name(out, name) <==> has_name(
        attrs,
        name,
    )) by {
        if has_name(attrs, name) {
            let i = index_of_name(attrs, name);
            assert(out[i].name == name);
        }
        if has_name(out, name) {
            let i = index_of_name(out, name);
            assert(attrs[i].name == name);
        }
    }
    assert forall|name: QualNameView| name != a.name && has_name(attrs, name) implies value_of(
        out,
        name,
    ) == value_of(attrs, name) by {
        let i = index_of_name(attrs, name);
        let k = index_of_name(out, name);
        assert(k == i);
    }
}

/// The collected mapping never holds a name twice.
pub proof fn lemma_collect_distinct(list: Seq<AttrView>)
    ensures
        distinct_names(collect_attrs(list)),
    decreases list.len(),
{
    if list.len() > 0 {
        lemma_collect_distinct(list.drop_last());
        lemma_set_attr(collect_attrs(list.drop_last()), list.last());
    }
}

/// A list without repeated names is its own mapping.
pub proof fn lemma_collect_of_distinct(list: Seq<AttrView>)
    requires
        distinct_names(list),
    ensures
        collect_attrs(list) == list,
    decreases list.len(),
{
    if list.len() > 0 {
        let front = list.drop_last();
        lemma_collect_of_distinct(front);
        if has_name(front, list.last().name) {
            let i = index_of_name(front, list.last().name);
            assert(list[i].name == list[list.len() - 1].name);
        }
    }
}

/// The collected mapping has exactly the names of the list.
pub proof fn lemma_collect_names(list: Seq<AttrView>, name: QualNameView)
    ensures
        has_name(collect_attrs(list), name) <==> has_name(list, name),
    decreases list.len(),
{
    if list.len() > 0 {
        let front = list.drop_last();
        let a = list.last();
        lemma_collect_names(front, name);
        lemma_collect_distinct(front);
        lemma_set_attr(collect_attrs(front), a);
        let n = list.len() - 1;
        if name == a.name {
            assert(list[n].name == name);
        } else {
            if has_name(front, name) {
                let i = index_of_name(front, name);
                assert(list[i].name == name);
            }
            if has_name(list, name) {
                let i = index_of_name(list, name);
                assert(front[i].name == name);
            }
        }
    }
}

/// The collected mapping gives each name the value of its last occurrence
/// in the list.
pub proof fn lemma_collect_lookup(list: Seq<AttrView>, name: QualNameView, at: int)
    requires
        is_last_named(list, name, at),
    ensures
        has_name(collect_attrs(list), name),
        value_of(collect_attrs(list), name) == list[at].value,
    decreases list.len(),
{
    let front = list.drop_last();
    let a = list.last();
    lemma_collect_distinct(front);
    lemma_set_attr(collect_attrs(front), a);
    if at != list.len() - 1 {
        assert forall|j: int| at < j < front.len() implies (#[trigger] front[j]).name != name by {
            assert(front[j] == list[j]);
        }
        lemma_collect_lookup(front, name, at);
    }
}

/// The first place at which `attrs` has an attribute named `name`, if it
/// has one.
pub fn find_attribute(attrs: &Vec<Attr>, name: &QualName) -> (at: Option<usize>)
    ensures
        match at {
            Some(i) => {
                &&& i < attrs.len()
                &&& attrs[i as int]@.name == name@
                &&& forall|j: int| 0 <= j < i ==> attrs[j]@.name != name@
            },
            None => !has_name(attrs_view(attrs@), name@),
        },
{
    let mut i: usize = 0;
    while i < attrs.len()
        invariant
            i <= attrs.len(),
            forall|j: int| 0 <= j < i ==> attrs[j]@.name != name@,
        decreases attrs.len() - i,
    {
        if same_name(&attrs[i].name, name) {
            return Some(i);
        }
        i += 1;
    }
    proof {
        let views = attrs_view(attrs@);
        assert(forall|j: int| 0 <= j < views.len() ==> views[j] == attrs[j]@);
    }
    None
}

/// Sets `a` in `attrs`: replaces the attribute of its name, or adds it at the end.
pub fn set_attribute(attrs: &mut Vec<Attr>, a: Attr)
    requires
        distinct_names(attrs_view(old(attrs)@)),
    ensures
        attrs_view(final(attrs)@) == set_attr(attrs_view(old(attrs)@), a@),
        distinct_names(attrs_view(final(attrs)@)),
{
    let ghost before = attrs_view(attrs@);
    proof {
        lemma_set_attr(before, a@);
    }
    match find_attribute(attrs, &a.name) {
        Some(i) => {
            proof {
                assert(before[i as int].name == a@.name);
            }
            attrs.set(i, a);
        },
        None => {
            attrs.push(a);
            assert(attrs_view(attrs@) =~= before.push(a@));
        },
    }
}

/// Builds the mapping that `list` stands for: no name twice, each name at the
/// place of its first occurrence, with the value of its last.
pub fn collect_attributes(list: Vec<Attr>) -> (r: Vec<Attr>)
    ensures
        attrs_view(r@) == collect_attrs(attrs_view(list@)),
        distinct_names(attrs_view(r@)),
{
    let ghost all = attrs_view(list@);
    let mut out: Vec<Attr> = Vec::new();
    for a in iter: list
        invariant
            all == attrs_view(iter.seq()),
            attrs_view(out@) == collect_attrs(all.take(iter.index() as int)),
            distinct_names(attrs_view(out@)),
    {
        proof {
            let k = iter.index() as int;
            assert(all.take(k + 1).drop_last() =~= all.take(k));
        }
        set_attribute(&mut out, a);
    }
    assert(all.take(all.len() as int) =~= all);
    out
}

} // verus!
