//! Trusted boundary around `indexmap::IndexSet`, the insertion-ordered
//! deduplicating set that backs the node store.
//!
//! The set's contents are modelled as the sequence of its elements in
//! insertion order, each element viewed as a pair of character sequences.
//! Every method the library calls is wrapped here with a contract that
//! states, over that model, what the indexmap documentation promises.

use indexmap::IndexSet;
use std::collections::hash_map::RandomState;
use vstd::prelude::*;

verus! {

#[verifier::external_type_specification]
#[verifier::external_body]
#[verifier::reject_recursive_types(T)]
#[verifier::reject_recursive_types(S)]
pub struct ExIndexSet<T, S>(IndexSet<T, S>);

/// The elements of the set in insertion order, as (content, filename) views.
pub uninterp spec fn set_elems(s: IndexSet<(String, String), RandomState>) -> Seq<(Seq<char>, Seq<char>)>;

/// Relies on indexmap's `IndexSet::new`: creates an empty set.
#[verifier::external_body]
pub(crate) fn iset_new() -> (s: IndexSet<(String, String)>)
    ensures
        set_elems(s) == Seq::<(Seq<char>, Seq<char>)>::empty(),
{
    IndexSet::new()
}

/// Relies on indexmap's `IndexSet::insert_full`: if an equivalent item is
/// already present the set is unchanged and the existing item's index is
/// returned with `false`; otherwise the item is appended after all existing
/// items and its index is returned with `true`. Equality on a
/// `(String, String)` pair is componentwise string equality, which is view
/// equality of the pair.
#[verifier::external_body]
pub(crate) fn iset_insert_full(s: &mut IndexSet<(String, String)>, value: (String, String)) -> (r: (
    usize,
    bool,
))
    ensures
        r.1 == !set_elems(*old(s)).contains((value.0@, value.1@)),
        set_elems(*final(s)) == (if set_elems(*old(s)).contains((value.0@, value.1@)) {
            set_elems(*old(s))
        } else {
            set_elems(*old(s)).push((value.0@, value.1@))
        }),
        r.0 < set_elems(*final(s)).len(),
        set_elems(*final(s))[r.0 as int] == (value.0@, value.1@),
{
    s.insert_full(value)
}

/// Relies on indexmap's `IndexSet::get_index_of`: returns the index of the
/// item equal to `value` if one is present, and `None` otherwise.
#[verifier::external_body]
pub(crate) fn iset_get_index_of(s: &IndexSet<(String, String)>, value: &(String, String)) -> (r:
    Option<usize>)
    ensures
        match r {
            Some(i) => i < set_elems(*s).len() && set_elems(*s)[i as int] == (value.0@, value.1@),
            None => !set_elems(*s).contains((value.0@, value.1@)),
        },
{
    s.get_index_of(value)
}

/// Relies on indexmap's `IndexSet::get_index`: returns the item at the given
/// position in insertion order, and `None` when the index is out of range.
#[verifier::external_body]
pub(crate) fn iset_get_index<'a>(s: &'a IndexSet<(String, String)>, index: usize) -> (r: Option<
    &'a (String, String),
>)
    ensures
        match r {
            Some(v) => index < set_elems(*s).len() && (v.0@, v.1@) == set_elems(*s)[index as int],
            None => index >= set_elems(*s).len(),
        },
{
    s.get_index(index)
}

/// Relies on indexmap's `IndexSet::len`: returns the number of elements.
#[verifier::external_body]
pub(crate) fn iset_len(s: &IndexSet<(String, String)>) -> (n: usize)
    ensures
        n == set_elems(*s).len(),
{
    s.len()
}

} // verus!
