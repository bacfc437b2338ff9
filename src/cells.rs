//! Offset sets and occupancy maps, held in fnv's hash containers.
//!
//! fnv's hasher is a fixed FNV-1a function with no per-process seed, so the
//! containers behave as plain finite sets and maps; the wrappers below state
//! that behaviour over the containers' views.

use fnv::{FnvHashMap, FnvHashSet};
use vstd::prelude::*;

verus! {

/// std's `BuildHasherDefault`, the hasher builder of fnv's containers; opaque here.
#[verifier::external_type_specification]
#[verifier::external_body]
#[verifier::reject_recursive_types(H)]
pub struct ExBuildHasherDefault<H>(std::hash::BuildHasherDefault<H>);

/// fnv's `FnvHasher`; opaque here.
#[verifier::external_type_specification]
#[verifier::external_body]
pub struct ExFnvHasher(fnv::FnvHasher);

/// A cell offset or a grid coordinate, as (x, y).
pub type Cell = (i8, i8);

/// What an occupied grid cell records: the placement index and the glyph.
pub type Occupant = (usize, char);

/// A set of cell offsets.
pub type CellSet = FnvHashSet<Cell>;

/// The occupancy map of a grid.
pub type CellMap = FnvHashMap<Cell, Occupant>;

/// Relies on `HashSet::insert` over fnv's `FnvBuildHasher`: the value is in the set afterwards, nothing else changes.
#[verifier::external_body]
pub(crate) fn set_insert(s: &mut CellSet, p: Cell)
    ensures
        final(s)@ == old(s)@.insert(p),
{
    s.insert(p);
}

/// Relies on `HashSet::contains` over fnv's `FnvBuildHasher`: whether the value is in the set.
#[verifier::external_body]
pub(crate) fn set_contains(s: &CellSet, p: Cell) -> (r: bool)
    ensures
        r == s@.contains(p),
{
    s.contains(&p)
}

/// Relies on `HashSet::iter` over fnv's `FnvBuildHasher`: it yields each member once, in an order left open.
#[verifier::external_body]
pub(crate) fn set_members(s: &CellSet) -> (r: Vec<Cell>)
    ensures
        r@.no_duplicates(),
        forall|p: Cell| s@.contains(p) <==> r@.contains(p),
{
    s.iter().copied().collect()
}

/// Relies on `HashMap::insert` over fnv's `FnvBuildHasher`: the key maps to the value afterwards, nothing else changes.
#[verifier::external_body]
pub(crate) fn map_insert(m: &mut CellMap, k: Cell, v: Occupant)
    ensures
        final(m)@ == old(m)@.insert(k, v),
{
    m.insert(k, v);
}

/// Relies on `HashMap::remove` over fnv's `FnvBuildHasher`: the key is gone afterwards, nothing else changes.
#[verifier::external_body]
pub(crate) fn map_remove(m: &mut CellMap, k: Cell)
    ensures
        final(m)@ == old(m)@.remove(k),
{
    m.remove(&k);
}

/// Relies on `HashMap::contains_key` over fnv's `FnvBuildHasher`: whether the key is present.
#[verifier::external_body]
pub(crate) fn map_contains(m: &CellMap, k: Cell) -> (r: bool)
    ensures
        r == m@.contains_key(k),
{
    m.contains_key(&k)
}

/// Relies on `HashMap::get` over fnv's `FnvBuildHasher`: the value under the key, if any.
#[verifier::external_body]
pub(crate) fn map_get(m: &CellMap, k: Cell) -> (r: Option<Occupant>)
    ensures
        r == (if m@.contains_key(k) { Some(m@[k]) } else { None::<Occupant> }),
{
    m.get(&k).copied()
}

/// Relies on `String::push`: the character is appended.
#[verifier::external_body]
pub(crate) fn string_push(s: &mut String, c: char)
    ensures
        final(s)@ == old(s)@.push(c),
{
    s.push(c);
}

/// A set listed without repeats by a sequence has the sequence's length.
pub proof fn lemma_members_len(s: Set<Cell>, m: Seq<Cell>)
    requires
        s.finite(),
        m.no_duplicates(),
        forall|p: Cell| s.contains(p) <==> m.contains(p),
    ensures
        s.len() == m.len(),
{
    m.unique_seq_to_set();
    assert(m.to_set() =~= s);
}

} // verus!
