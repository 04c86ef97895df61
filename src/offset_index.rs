use vstd::prelude::*;
use rustc_hash::{FxHashMap, FxHasher};
use std::hash::BuildHasherDefault;

verus! {

#[verifier::external_type_specification]
#[verifier::external_body]
pub struct ExFxHasher(FxHasher);

#[verifier::external_type_specification]
#[verifier::external_body]
#[verifier::reject_recursive_types(H)]
pub struct ExBuildHasherDefault<H>(BuildHasherDefault<H>);

/// A map from a byte offset to a chunk handle.
pub type OffsetIndex = FxHashMap<u32, usize>;

/// Relies on `FxHashMap::default`: a new map is empty.
#[verifier::external_body]
pub(crate) fn index_new() -> (m: OffsetIndex)
    ensures
        m@.dom() == Set::<u32>::empty(),
{
    FxHashMap::default()
}

/// Relies on `HashMap::insert` over rustc_hash's `FxHasher`, which hashes a key the
/// same way every time: the key maps to the value afterwards, other keys keep theirs.
#[verifier::external_body]
pub(crate) fn index_insert(m: &mut OffsetIndex, k: u32, v: usize)
    ensures
        final(m)@ == old(m)@.insert(k, v),
{
    m.insert(k, v);
}

/// Relies on `HashMap::get` over rustc_hash's `FxHasher`: the value that the key maps to.
#[verifier::external_body]
pub(crate) fn index_get(m: &OffsetIndex, k: u32) -> (r: Option<usize>)
    ensures
        r == (if m@.contains_key(k) { Some(m@[k]) } else { None::<usize> }),
{
    m.get(&k).copied()
}

} // verus!
