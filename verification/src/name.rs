//! Qualified names, and the mapping between their two representations.
//!
//! The parser reports a name in three parts: prefix, local part and
//! namespace. The tree stores two: the namespace, and one local-name string
//! into which a non-empty prefix is folded as `prefix:local`.

use vstd::prelude::*;
use vstd::std_specs::iter::IteratorSpec;
use vstd::string::*;

verus! {

/// A name as the parser reports it.
#[derive(Debug, PartialEq, Eq)]
pub struct QName {
    pub prefix: String,
    pub local: String,
    pub namespace_url: String,
}

/// A name as the tree stores it: `local` holds `prefix:local` where the
/// parser's name had a prefix.
#[derive(Debug, PartialEq, Eq)]
pub struct QualName {
    pub ns: String,
    pub local: String,
}

/// The mathematical value of a [`QName`].
pub struct QNameView {
    pub prefix: Seq<char>,
    pub local: Seq<char>,
    pub namespace_url: Seq<char>,
}

/// The mathematical value of a [`QualName`].
pub struct QualNameView {
    pub ns: Seq<char>,
    pub local: Seq<char>,
}

impl View for QName {
    type V = QNameView;

    open spec fn view(&self) -> QNameView {
        QNameView {
            prefix: self.prefix@,
            local: self.local@,
            namespace_url: self.namespace_url@,
        }
    }
}

impl View for QualName {
    type V = QualNameView;

    open spec fn view(&self) -> QualNameView {
        QualNameView { ns: self.ns@, local: self.local@ }
    }
}

impl Clone for QName {
    fn clone(&self) -> (r: Self)
        ensures
            r@ == self@,
    {
        QName {
            prefix: self.prefix.clone(),
            local: self.local.clone(),
            namespace_url: self.namespace_url.clone(),
        }
    }
}

impl Clone for QualName {
    fn clone(&self) -> (r: Self)
        ensures
            r@ == self@,
    {
        QualName { ns: self.ns.clone(), local: self.local.clone() }
    }
}

/// The character that parts a prefix from a local name.
pub open spec fn separator() -> char {
    ':'
}

/// The tree's name for a parser's name: a non-empty prefix is put before the
/// local part, with the separator between them; the namespace is kept.
pub open spec fn encode(name: QNameView) -> QualNameView {
    QualNameView {
        ns: name.namespace_url,
        local: if name.prefix.len() == 0 {
            name.local
        } else {
            name.prefix + seq![separator()] + name.local
        },
    }
}

/// The parser's name for a tree's name: the local-name string is cut at its
/// first separator, which belongs to neither part. Without a separator the
/// prefix is empty and the local part is the whole string.
pub open spec fn decode(name: QualNameView) -> QNameView {
    match name.local.index_of_first(separator()) {
        Some(at) => QNameView {
            prefix: name.local.subrange(0, at),
            local: name.local.subrange(at + 1, name.local.len() as int),
            namespace_url: name.ns,
        },
        None => QNameView {
            prefix: Seq::empty(),
            local: name.local,
            namespace_url: name.ns,
        },
    }
}

/// The names that survive `encode` followed by `decode`: the prefix holds no
/// separator, and with an empty prefix neither does the local part.
pub open spec fn round_trips(name: QNameView) -> bool {
    &&& !name.prefix.contains(separator())
    &&& name.prefix.len() > 0 || !name.local.contains(separator())
}

/// Finds the first separator of `s`, counted in characters.
fn find_separator(s: &str) -> (at: Option<usize>)
    ensures
        at matches Some(i) ==> s@.index_of_first(separator()) == Some(i as int),
        at is None ==> s@.index_of_first(separator()) is None,
{
    let n = s.unicode_len();
    let mut rest = s.chars();
    let mut i: usize = 0;
    loop
        invariant
            n == s@.len(),
            i <= n,
            rest.remaining() == s@.subrange(i as int, n as int),
            forall|j: int| 0 <= j < i ==> s@[j] != separator(),
        decreases n - i,
    {
        match rest.next() {
            Some(c) => {
                if c == ':' {
                    proof {
                        s@.index_of_first_ensures(separator());
                    }
                    return Some(i);
                }
                assert(s@.subrange(i as int, n as int).drop_first() == s@.subrange(
                    i + 1,
                    n as int,
                ));
                i += 1;
            },
            None => {
                proof {
                    s@.index_of_first_ensures(separator());
                }
                return None;
            },
        }
    }
}

/// Encodes a parser's name as the tree's name.
pub fn qname_to_qualname(name: QName) -> (r: QualName)
    ensures
        r@ == encode(name@),
{
    let QName { prefix, local, namespace_url } = name;
    if prefix.as_str().is_empty() {
        QualName { ns: namespace_url, local }
    } else {
        let mut joined = prefix;
        joined.append(":");
        joined.append(local.as_str());
        proof {
            reveal_strlit(":");
            assert(":"@ == seq![separator()]);
        }
        QualName { ns: namespace_url, local: joined }
    }
}

/// Decodes a tree's name into the parser's name.
pub fn qualname_to_qname(name: QualName) -> (r: QName)
    ensures
        r@ == decode(name@),
{
    let QualName { ns, local } = name;
    match find_separator(local.as_str()) {
        Some(at) => {
            let n = local.as_str().unicode_len();
            proof {
                local@.index_of_first_ensures(separator());
            }
            let prefix = String::from_str(local.as_str().substring_char(0, at));
            let rest = String::from_str(local.as_str().substring_char(at + 1, n));
            QName { prefix, local: rest, namespace_url: ns }
        },
        None => QName { prefix: String::new(), local, namespace_url: ns },
    }
}

/// Whether two names are the same name: the same namespace and the same
/// local-name string.
pub fn same_name(a: &QualName, b: &QualName) -> (same: bool)
    ensures
        same == (a@ == b@),
{
    a.ns == b.ns && a.local == b.local
}

/// A name keeps its three parts through `encode` and `decode` exactly when
/// its prefix holds no separator and, where the prefix is empty, its local
/// part holds none either.
pub proof fn lemma_round_trip(name: QNameView)
    ensures
        decode(encode(name)) == name <==> round_trips(name),
{
    let sep = separator();
    let joined = encode(name).local;
    let back = decode(encode(name));
    joined.index_of_first_ensures(sep);
    if name.prefix.len() == 0 {
        if !name.local.contains(sep) {
            assert(back.prefix =~= name.prefix);
        }
    } else {
        let p = name.prefix.len() as int;
        assert(joined[p] == sep);
        if name.prefix.contains(sep) {
            let k = choose|k: int| 0 <= k < name.prefix.len() && name.prefix[k] == sep;
            assert(joined[k] == sep);
        } else {
            assert(back.prefix =~= name.prefix);
            assert(back.local =~= name.local);
        }
    }
}

/// A name with a prefix, no separator in the prefix and none in the local
/// part is the same after `encode` and `decode`.
pub proof fn lemma_prefixed_name_round_trip(name: QNameView)
    requires
        name.prefix.len() > 0,
        !name.prefix.contains(separator()),
        !name.local.contains(separator()),
    ensures
        decode(encode(name)) == name,
{
    lemma_round_trip(name);
}

/// With an empty prefix the encoded local name is the local part itself: no
/// separator is added.
pub proof fn lemma_empty_prefix_identity(local: Seq<char>, namespace_url: Seq<char>)
    ensures
        encode(QNameView { prefix: Seq::empty(), local, namespace_url }).local == local,
        encode(QNameView { prefix: Seq::empty(), local, namespace_url }).ns == namespace_url,
{
}

} // verus!
