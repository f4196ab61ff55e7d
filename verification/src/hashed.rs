//! The hashed sets and maps (of the `ahash` crate) that the backward
//! reasoner keeps, and what each operation does to their contents.
use vstd::prelude::*;

use ahash::{AHashMap, AHashSet, AHasher, RandomState};
use core::hash::Hasher;

use crate::instrs::{Color, Shift, Slot, State};

verus! {

/// A predecessor entry: the slot of an instruction, with the color it
/// prints and its shift.
pub type Entry = (Slot, (Color, Shift));

pub type Entries = Vec<Entry>;

/// The instructions that enter each state, split into those from the same
/// state and those from another.
pub type Entrypoints = AHashMap<State, (Entries, Entries)>;

#[verifier::external_type_specification]
#[verifier::external_body]
pub struct ExRandomState(RandomState);

#[verifier::external_type_specification]
#[verifier::external_body]
#[verifier::reject_recursive_types(T)]
#[verifier::reject_recursive_types(S)]
pub struct ExAHashSet<T, S>(AHashSet<T, S>);

#[verifier::external_type_specification]
#[verifier::external_body]
#[verifier::reject_recursive_types(K)]
#[verifier::reject_recursive_types(V)]
#[verifier::reject_recursive_types(S)]
pub struct ExAHashMap<K, V, S>(AHashMap<K, V, S>);

#[verifier::external_type_specification]
#[verifier::external_body]
pub struct ExAHasher(AHasher);

/// The states that a set of states holds.
pub uninterp spec fn state_set_contents(s: &AHashSet<State>) -> Set<State>;

/// The (state, hash) pairs that a set holds.
pub uninterp spec fn seen_set_contents(s: &AHashSet<(State, u64)>) -> Set<(State, u64)>;

/// What an entrypoint map holds: for each key, its two lists of entries.
pub uninterp spec fn entrypoint_contents(m: &Entrypoints) -> Map<State, (Seq<Entry>, Seq<Entry>)>;

/// A map from number lists to positions.
pub type CodeMap = AHashMap<Vec<u64>, usize>;

/// What a map from number lists to positions holds, keys by their views.
pub uninterp spec fn code_map_contents(m: &CodeMap) -> Map<Seq<u64>, usize>;

/// The map with no number lists.
pub open spec fn no_codes() -> Map<Seq<u64>, usize> {
    Map::empty()
}

/// An empty map from number lists to positions.
///
/// Wraps `AHashMap::new`, which makes an empty map.
#[verifier::external_body]
pub fn code_map_new() -> (r: CodeMap)
    ensures
        code_map_contents(&r) == no_codes(),
{
    AHashMap::new()
}

/// The position stored under a number list.
///
/// Wraps `get` of the std `HashMap` that `AHashMap` dereferences to, which
/// std documents as returning the value of the key equal to the one given;
/// `Vec` keys are equal where their elements are.
#[verifier::external_body]
pub fn code_map_get(m: &CodeMap, k: &Vec<u64>) -> (r: Option<usize>)
    ensures
        r == (if code_map_contents(m).dom().contains(k@) { Some(code_map_contents(m)[k@]) } else { None::<usize> }),
{
    m.get(k).copied()
}

/// Stores a position under a number list.
///
/// Wraps `insert` of the std `HashMap` that `AHashMap` dereferences to,
/// which std documents as setting the value of the key.
#[verifier::external_body]
pub fn code_map_insert(m: &mut CodeMap, k: Vec<u64>, v: usize)
    ensures
        code_map_contents(final(m)) == code_map_contents(old(m)).insert(k@, v),
{
    m.insert(k, v);
}

/// An empty set of states.
///
/// Wraps `AHashSet::new`, which makes an empty set.
#[verifier::external_body]
pub fn state_set_new() -> (r: AHashSet<State>)
    ensures
        state_set_contents(&r) == Set::<State>::empty(),
{
    AHashSet::new()
}

/// Adds a state; true where it was not there before.
///
/// Wraps `insert` of the std `HashSet` that `AHashSet` dereferences to,
/// which std documents as adding the value and returning whether it was
/// newly inserted.
#[verifier::external_body]
pub fn state_set_insert(s: &mut AHashSet<State>, x: State) -> (r: bool)
    ensures
        state_set_contents(final(s)) == state_set_contents(old(s)).insert(x),
        r == !state_set_contents(old(s)).contains(x),
{
    s.insert(x)
}

/// An empty set of (state, hash) pairs.
///
/// Wraps `AHashSet::new`, which makes an empty set.
#[verifier::external_body]
pub fn seen_set_new() -> (r: AHashSet<(State, u64)>)
    ensures
        seen_set_contents(&r) == Set::<(State, u64)>::empty(),
{
    AHashSet::new()
}

/// Adds a (state, hash) pair; true where it was not there before.
///
/// Wraps `insert` of the std `HashSet` that `AHashSet` dereferences to,
/// which std documents as adding the value and returning whether it was
/// newly inserted.
#[verifier::external_body]
pub fn seen_set_insert(s: &mut AHashSet<(State, u64)>, x: (State, u64)) -> (r: bool)
    ensures
        seen_set_contents(final(s)) == seen_set_contents(old(s)).insert(x),
        r == !seen_set_contents(old(s)).contains(x),
{
    s.insert(x)
}

/// The map with no keys.
pub open spec fn no_entrypoints() -> Map<State, (Seq<Entry>, Seq<Entry>)> {
    Map::empty()
}

/// An empty entrypoint map.
///
/// Wraps `AHashMap::new`, which makes an empty map.
#[verifier::external_body]
pub fn entrypoints_new() -> (r: Entrypoints)
    ensures
        entrypoint_contents(&r) == no_entrypoints(),
{
    AHashMap::new()
}

/// The entries of a key, if any.
///
/// Wraps `AHashMap::get`, which returns the value of the key where the map
/// has one.
#[verifier::external_body]
pub fn entrypoints_get<'a>(m: &'a Entrypoints, k: State) -> (r: Option<&'a (Entries, Entries)>)
    ensures
        r is Some <==> entrypoint_contents(m).dom().contains(k),
        r matches Some(v) ==> (v.0@, v.1@) == entrypoint_contents(m)[k],
{
    m.get(&k)
}

/// Takes the entries of a key out of the map.
///
/// Wraps `AHashMap::remove`, which removes the key and returns its value
/// where the map had one.
#[verifier::external_body]
pub fn entrypoints_remove(m: &mut Entrypoints, k: State) -> (r: Option<(Entries, Entries)>)
    ensures
        entrypoint_contents(final(m)) == entrypoint_contents(old(m)).remove(k),
        r is Some <==> entrypoint_contents(old(m)).dom().contains(k),
        r matches Some(v) ==> (v.0@, v.1@) == entrypoint_contents(old(m))[k],
{
    m.remove(&k)
}

/// Sets the entries of a key.
///
/// Wraps `AHashMap::insert`, which maps the key to the value, replacing
/// any earlier value.
#[verifier::external_body]
pub fn entrypoints_insert(m: &mut Entrypoints, k: State, v: (Entries, Entries))
    ensures
        entrypoint_contents(final(m)) == entrypoint_contents(old(m)).insert(k, (v.0@, v.1@)),
{
    m.insert(k, v);
}

/// A fresh hasher.
///
/// Wraps `AHasher::default`. Its keys are drawn once per process, so
/// nothing is stated of the hashes it goes on to give.
#[verifier::external_body]
pub fn hasher_new() -> AHasher {
    AHasher::default()
}

/// Feeds one byte to a hasher.
///
/// Wraps `Hasher::write_u8` of `AHasher`; what it does to the hasher's
/// state is not stated.
#[verifier::external_body]
pub fn hasher_write_u8(h: &mut AHasher, x: u8) {
    h.write_u8(x);
}

/// The hash of what a hasher was fed.
///
/// Wraps `Hasher::finish` of `AHasher`; the value depends on the per
/// process keys and is not stated.
#[verifier::external_body]
pub fn hasher_finish(h: &AHasher) -> u64 {
    h.finish()
}

} // verus!
