use vstd::prelude::*;
use ic_stable_structures::memory_manager::{MemoryId, MemoryManager, VirtualMemory};
use ic_stable_structures::{DefaultMemoryImpl, StableBTreeMap};
use crate::byte_order::bytes_lt;

verus! {

/// An ordered map from byte strings to byte strings that lives in one
/// region of stable memory: a `StableBTreeMap` of `ic_stable_structures`
/// with `Vec<u8>` keys and values, which it keeps in the lexicographic
/// order of the key bytes. Its field is opaque to proofs; what it holds
/// is `region_contents`.
#[verifier::external_body]
pub struct RegionMap {
    inner: StableBTreeMap<Vec<u8>, Vec<u8>, VirtualMemory<DefaultMemoryImpl>>,
}

/// The entries that a region map holds.
pub uninterp spec fn region_contents(m: RegionMap) -> Map<Seq<u8>, Seq<u8>>;

/// The largest region id that can be used; the one above it marks
/// unallocated space.
pub const MAX_REGION_ID: u8 = 254;

impl RegionMap {
    /// `StableBTreeMap::new` on region `region` of a `MemoryManager` over
    /// the default memory: writes a fresh map there, which holds nothing.
    #[verifier::external_body]
    pub(crate) fn create(region: u8) -> (r: RegionMap)
        requires
            region <= MAX_REGION_ID,
        ensures
            region_contents(r) == (Map::<Seq<u8>, Seq<u8>>::empty()),
    {
        let manager = MemoryManager::init(DefaultMemoryImpl::default());
        RegionMap { inner: StableBTreeMap::new(manager.get(MemoryId::new(region))) }
    }

    /// `StableBTreeMap::init` on region `region` of a `MemoryManager` over
    /// the default memory: loads the map that the region holds, or makes an
    /// empty one where it holds none. What comes back depends on what was
    /// persisted, so nothing is claimed of it. The call aborts where the
    /// region was written in a layout that the map does not know.
    #[verifier::external_body]
    pub(crate) fn load(region: u8) -> (r: RegionMap)
        requires
            region <= MAX_REGION_ID,
    {
        let manager = MemoryManager::init(DefaultMemoryImpl::default());
        RegionMap { inner: StableBTreeMap::init(manager.get(MemoryId::new(region))) }
    }

    /// `StableBTreeMap::insert`: the entry for `key` becomes `value`, all
    /// other entries stay, and the value that `key` had before is returned.
    /// Keys and values have no size bound of their own; the call aborts
    /// only where stable memory cannot grow any more.
    #[verifier::external_body]
    pub(crate) fn insert(&mut self, key: Vec<u8>, value: Vec<u8>) -> (r: Option<Vec<u8>>)
        ensures
            region_contents(*final(self)) == region_contents(*old(self)).insert(key@, value@),
            r is Some <==> region_contents(*old(self)).dom().contains(key@),
            r is Some ==> r.unwrap()@ == region_contents(*old(self))[key@],
    {
        self.inner.insert(key, value)
    }

    /// `StableBTreeMap::get`: a copy of the value stored under `key`, if
    /// there is one.
    #[verifier::external_body]
    pub(crate) fn get(&self, key: &Vec<u8>) -> (r: Option<Vec<u8>>)
        ensures
            r is Some <==> region_contents(*self).dom().contains(key@),
            r is Some ==> r.unwrap()@ == region_contents(*self)[key@],
    {
        self.inner.get(key)
    }

    /// `StableBTreeMap::remove`: the entry for `key` leaves, all other
    /// entries stay, and the value that `key` had is returned.
    #[verifier::external_body]
    pub(crate) fn remove(&mut self, key: &Vec<u8>) -> (r: Option<Vec<u8>>)
        ensures
            region_contents(*final(self)) == region_contents(*old(self)).remove(key@),
            r is Some <==> region_contents(*old(self)).dom().contains(key@),
            r is Some ==> r.unwrap()@ == region_contents(*old(self))[key@],
    {
        self.inner.remove(key)
    }

    /// `StableBTreeMap::keys`, walked to its end: every key of the map
    /// once, as an owned copy.
    #[verifier::external_body]
    pub(crate) fn keys(&self) -> (r: Vec<Vec<u8>>)
        ensures
            forall|i: int|
                0 <= i < r@.len() ==> region_contents(*self).dom().contains((#[trigger] r@[i])@),
            forall|k: Seq<u8>|
                region_contents(*self).dom().contains(k) ==> exists|i: int|
                    0 <= i < r@.len() && (#[trigger] r@[i])@ == k,
    {
        self.inner.keys().collect()
    }

    /// `StableBTreeMap::iter`, walked to its end: every entry of the map
    /// once, as an owned pair, in ascending order of the key bytes.
    #[verifier::external_body]
    pub(crate) fn entries(&self) -> (r: Vec<(Vec<u8>, Vec<u8>)>)
        ensures
            forall|i: int|
                0 <= i < r@.len() ==> region_contents(*self).dom().contains(#[trigger] r@[i].0@)
                    && region_contents(*self)[r@[i].0@] == r@[i].1@,
            forall|k: Seq<u8>|
                region_contents(*self).dom().contains(k) ==> exists|i: int|
                    0 <= i < r@.len() && #[trigger] r@[i].0@ == k,
            forall|i: int, j: int|
                0 <= i < j < r@.len() ==> bytes_lt(#[trigger] r@[i].0@, #[trigger] r@[j].0@),
    {
        self.inner.iter().map(|entry| entry.into_pair()).collect()
    }
}

} // verus!
