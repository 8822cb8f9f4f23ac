//! Hierarchical names.
//!
//! A name is a run of bytes in which `.` and `::` separate the segments,
//! as in `a.b.c` or `app::net::tcp`. The empty name is the root. Every
//! prefix of a name that ends just before a separator names one of its
//! ancestors, and so does the root.

use vstd::prelude::*;

verus! {

/// The byte `.`.
pub const DOT: u8 = 46;

/// The byte `:`.
pub const COLON: u8 = 58;

/// Whether a separator (`.` or `::`) starts at position `i` of `name`.
pub open spec fn split_at(name: Seq<u8>, i: int) -> bool {
    &&& 0 <= i < name.len()
    &&& (name[i] == DOT || (name[i] == COLON && i + 1 < name.len() && name[i + 1] == COLON))
}

/// The greatest position below `cut` at which a separator starts, or 0
/// where there is none: the length of the nearest ancestor above the
/// prefix of length `cut`.
pub open spec fn parent_cut(name: Seq<u8>, cut: int) -> int
    decreases cut,
{
    if cut <= 0 {
        0
    } else if split_at(name, cut - 1) {
        cut - 1
    } else {
        parent_cut(name, cut - 1)
    }
}

/// Whether `a` is `name` itself or one of its ancestors.
pub open spec fn at_or_above(a: Seq<u8>, name: Seq<u8>) -> bool {
    ||| a == name
    ||| a.len() == 0
    ||| (a.len() < name.len() && name.subrange(0, a.len() as int) == a && split_at(
        name,
        a.len() as int,
    ))
}

/// The nearest ancestor above a prefix that is not empty is shorter than
/// the prefix.
pub proof fn lemma_parent_below(name: Seq<u8>, cut: int)
    requires
        cut > 0,
    ensures
        0 <= parent_cut(name, cut) < cut,
    decreases cut,
{
    if !split_at(name, cut - 1) {
        if cut > 1 {
            lemma_parent_below(name, cut - 1);
        } else {
            assert(parent_cut(name, 0) == 0);
        }
    }
}

/// Whether the prefix of `name` of length `cut` is reached when walking
/// from the prefix of length `from` upward, one nearest ancestor at a time.
pub open spec fn on_walk(name: Seq<u8>, from: int, cut: int) -> bool
    decreases from,
{
    if cut == from {
        true
    } else if from <= 0 {
        false
    } else {
        proof {
            lemma_parent_below(name, from);
        }
        on_walk(name, parent_cut(name, from), cut)
    }
}

/// The nearest ancestor lies strictly above, and no separator starts
/// between it and the prefix it was computed for.
pub proof fn lemma_parent_cut(name: Seq<u8>, cut: int)
    requires
        0 <= cut <= name.len(),
    ensures
        0 <= parent_cut(name, cut) <= cut,
        cut > 0 ==> parent_cut(name, cut) < cut,
        parent_cut(name, cut) > 0 ==> split_at(name, parent_cut(name, cut)),
        forall|j: int| parent_cut(name, cut) < j < cut ==> !split_at(name, j),
    decreases cut,
{
    if cut > 0 && !split_at(name, cut - 1) {
        lemma_parent_cut(name, cut - 1);
    }
}

/// The walk upward from a name visits exactly the name itself, the root,
/// and the prefixes that end just before a separator.
pub proof fn lemma_walk_visits_ancestors(name: Seq<u8>, from: int, cut: int)
    requires
        0 <= from <= name.len(),
    ensures
        on_walk(name, from, cut) <==> (cut == from || cut == 0 || (0 < cut < from && split_at(
            name,
            cut,
        ))),
    decreases from,
{
    if cut != from && from > 0 {
        lemma_parent_cut(name, from);
        lemma_walk_visits_ancestors(name, parent_cut(name, from), cut);
    }
}

/// The ancestors of a name are the names on its walk to the root.
pub proof fn lemma_at_or_above_is_walk(a: Seq<u8>, name: Seq<u8>)
    ensures
        at_or_above(a, name) <==> (a.len() <= name.len() && name.subrange(0, a.len() as int) == a
            && on_walk(name, name.len() as int, a.len() as int)),
{
    if a.len() <= name.len() {
        lemma_walk_visits_ancestors(name, name.len() as int, a.len() as int);
        if a == name {
            assert(name.subrange(0, name.len() as int) =~= name);
        }
        if a.len() == 0 {
            assert(name.subrange(0, 0) =~= a);
        }
        if a.len() == name.len() && name.subrange(0, a.len() as int) == a {
            assert(name.subrange(0, name.len() as int) =~= name);
        }
    }
}

/// Whether a separator starts at position `i` of `name`.
pub fn is_split(name: &[u8], i: usize) -> (yes: bool)
    ensures
        yes == split_at(name@, i as int),
{
    if i >= name.len() {
        false
    } else if name[i] == DOT {
        true
    } else if name[i] == COLON {
        i + 1 < name.len() && name[i + 1] == COLON
    } else {
        false
    }
}

/// The length of the nearest ancestor above the prefix of length `cut`.
pub(crate) fn parent_len(name: &[u8], cut: usize) -> (up: usize)
    requires
        cut <= name@.len(),
    ensures
        up == parent_cut(name@, cut as int),
        up <= cut,
        cut > 0 ==> up < cut,
{
    let mut i: usize = cut;
    while i > 0
        invariant
            i <= cut <= name@.len(),
            parent_cut(name@, cut as int) == parent_cut(name@, i as int),
        decreases i,
    {
        if is_split(name, i - 1) {
            return i - 1;
        }
        i -= 1;
    }
    0
}

/// Whether the first `cut` bytes of `name` spell exactly `other`.
pub(crate) fn prefix_is(name: &[u8], cut: usize, other: &[u8]) -> (same: bool)
    requires
        cut <= name@.len(),
    ensures
        same == (name@.subrange(0, cut as int) == other@),
{
    if other.len() != cut {
        return false;
    }
    let mut i: usize = 0;
    while i < cut
        invariant
            i <= cut <= name@.len(),
            other@.len() == cut,
            forall|k: int| 0 <= k < i ==> name@[k] == other@[k],
        decreases cut - i,
    {
        if name[i] != other[i] {
            assert(name@.subrange(0, cut as int)[i as int] != other@[i as int]);
            return false;
        }
        i += 1;
    }
    assert(name@.subrange(0, cut as int) =~= other@);
    true
}

/// Whether two byte strings are the same.
pub fn same_bytes(a: &[u8], b: &[u8]) -> (same: bool)
    ensures
        same == (a@ == b@),
{
    if a.len() != b.len() {
        return false;
    }
    assert(a@.subrange(0, a@.len() as int) =~= a@);
    prefix_is(a, a.len(), b)
}

/// Whether `a` is `name` itself or one of its ancestors.
pub fn is_at_or_above(a: &[u8], name: &[u8]) -> (yes: bool)
    ensures
        yes == at_or_above(a@, name@),
{
    if a.len() == 0 {
        true
    } else if a.len() > name.len() {
        false
    } else if a.len() == name.len() {
        same_bytes(a, name)
    } else {
        prefix_is(name, a.len(), a) && is_split(name, a.len())
    }
}

} // verus!
