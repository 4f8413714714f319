use vstd::prelude::*;

verus! {

/// A value under its key.
#[derive(Clone, Copy)]
pub struct Entity<K, V> {
    pub key: K,
    pub val: V,
}

impl<K: Copy, V: Copy> Entity<K, V> {
    /// The entry of `val` under `key`.
    pub fn new(key: K, val: V) -> (r: Self)
        ensures
            r.key == key,
            r.val == val,
    {
        Self { key, val }
    }
}

} // verus!
