use vstd::prelude::*;

verus! {

/// The contents of a board: a bevy hash map from `(column, row)` to gem type.
#[verifier::external_body]
pub struct GemMap {
    inner: bevy::utils::HashMap<(u32, u32), u32>,
}

/// What a `GemMap` holds.
pub uninterp spec fn gem_map_contents(m: GemMap) -> Map<(u32, u32), u32>;

impl GemMap {
    /// Relies on bevy's `HashMap::default`: a new map is empty.
    #[verifier::external_body]
    pub(crate) fn new() -> (r: GemMap)
        ensures
            gem_map_contents(r) =~= Map::empty(),
    {
        GemMap { inner: bevy::utils::HashMap::default() }
    }

    /// Relies on bevy's `HashMap::get`: the value stored under `key`, if any.
    #[verifier::external_body]
    pub(crate) fn get(&self, key: (u32, u32)) -> (r: Option<u32>)
        ensures
            r == (if gem_map_contents(*self).contains_key(key) {
                Some(gem_map_contents(*self)[key])
            } else {
                None
            }),
    {
        self.inner.get(&key).copied()
    }

    /// Relies on bevy's `HashMap::insert`: `key` now maps to `value`, other keys keep theirs.
    #[verifier::external_body]
    pub(crate) fn insert(&mut self, key: (u32, u32), value: u32)
        ensures
            gem_map_contents(*final(self)) == gem_map_contents(*old(self)).insert(key, value),
    {
        self.inner.insert(key, value);
    }

    /// Relies on bevy's `HashMap::remove`: `key` is no longer stored, other keys keep theirs.
    #[verifier::external_body]
    pub(crate) fn remove(&mut self, key: (u32, u32))
        ensures
            gem_map_contents(*final(self)) == gem_map_contents(*old(self)).remove(key),
    {
        self.inner.remove(&key);
    }

    /// Relies on bevy's `HashMap::clone`: the copy holds the same entries.
    #[verifier::external_body]
    pub(crate) fn duplicate(&self) -> (r: GemMap)
        ensures
            gem_map_contents(r) == gem_map_contents(*self),
    {
        GemMap { inner: self.inner.clone() }
    }
}

} // verus!
