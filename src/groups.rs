//! The entries of the report while they are gathered, kept in an
//! `indexmap::IndexMap` keyed by dependency and feature list, in order of
//! first insertion. Each function here is trusted: its contract is taken
//! from the documentation of the `IndexMap` method it calls.
use vstd::prelude::*;
use crate::diff::{entries_view, EntryView, ReportEntry};
use crate::text::views;

verus! {

#[verifier::external_type_specification]
#[verifier::external_body]
#[verifier::reject_recursive_types(K)]
#[verifier::reject_recursive_types(V)]
#[verifier::reject_recursive_types(S)]
pub struct ExIndexMap<K, V, S>(indexmap::IndexMap<K, V, S>);

/// Parents by dependency and sorted feature list.
pub type Groups = indexmap::IndexMap<(usize, Vec<String>), Vec<usize>>;

/// The entries of `m` in its order: dependency, features, parents.
pub uninterp spec fn group_entries(m: indexmap::IndexMap<(usize, Vec<String>), Vec<usize>>) -> Seq<EntryView>;

/// Relies on `IndexMap::new`: a new map is empty.
#[verifier::external_body]
pub(crate) fn groups_new() -> (r: Groups)
    ensures
        group_entries(r) == Seq::<EntryView>::empty(),
{
    indexmap::IndexMap::new()
}

/// Relies on `IndexMap::get_index_of`: the position of the entry whose key
/// equals `(d, f)`, if there is one.
#[verifier::external_body]
pub(crate) fn groups_index_of(m: &Groups, d: usize, f: &Vec<String>) -> (r: Option<usize>)
    ensures
        match r {
            Some(i) => i < group_entries(*m).len() && group_entries(*m)[i as int].0 == d as int
                && group_entries(*m)[i as int].1 == views(f@),
            None => forall|i: int|
                0 <= i < group_entries(*m).len() ==> !(#[trigger] group_entries(*m)[i].0 == d as int
                    && group_entries(*m)[i].1 == views(f@)),
        },
{
    m.get_index_of(&(d, f.clone()))
}

/// Relies on `Index<usize>` of `IndexMap`: the value at position `i`.
#[verifier::external_body]
pub(crate) fn groups_parents(m: &Groups, i: usize) -> (r: &Vec<usize>)
    requires
        i < group_entries(*m).len(),
    ensures
        r@.map_values(|p: usize| p as int) == group_entries(*m)[i as int].2,
{
    &m[i]
}

/// Relies on `IndexMut<usize>` of `IndexMap`: `p` is appended to the value
/// at position `i`; keys and order stay.
#[verifier::external_body]
pub(crate) fn groups_push_parent(m: &mut Groups, i: usize, p: usize)
    requires
        i < group_entries(*old(m)).len(),
    ensures
        group_entries(*final(m)) == group_entries(*old(m)).update(
            i as int,
            (
                group_entries(*old(m))[i as int].0,
                group_entries(*old(m))[i as int].1,
                group_entries(*old(m))[i as int].2.push(p as int),
            ),
        ),
{
    m[i].push(p);
}

/// Relies on `IndexMap::insert`: a key that no entry has is inserted last.
#[verifier::external_body]
pub(crate) fn groups_insert(m: &mut Groups, d: usize, f: Vec<String>, p: usize)
    requires
        forall|i: int|
            0 <= i < group_entries(*old(m)).len() ==> !(#[trigger] group_entries(*old(m))[i].0 == d as int
                && group_entries(*old(m))[i].1 == views(f@)),
    ensures
        group_entries(*final(m)) == group_entries(*old(m)).push((d as int, views(f@), seq![p as int])),
{
    m.insert((d, f), vec![p]);
}

/// Relies on `IntoIterator` of `IndexMap`: the entries come out in the
/// map's order.
#[verifier::external_body]
pub(crate) fn groups_into_entries(m: Groups) -> (r: Vec<ReportEntry>)
    ensures
        entries_view(r@) == group_entries(m),
{
    m.into_iter().map(|((d, f), ps)| ReportEntry { dependency: d, features: f, parents: ps }).collect()
}

} // verus!
