use vstd::prelude::*;
use core::cmp::Ordering;
use crate::order::{lawful, lt};

verus! {

/// The keys of `entries` ascend; equal keys may stand side by side.
pub open spec fn keys_ascend<K: PartialOrd, V>(entries: Seq<(K, V)>) -> bool {
    forall|a: int, b: int|
        0 <= a < b < entries.len() ==> !lt((#[trigger] entries[b]).0, (#[trigger] entries[a]).0)
}

/// Some entry of `entries` has the key `key`.
pub open spec fn has_key<K, V>(entries: Seq<(K, V)>, key: K) -> bool {
    exists|i: int| 0 <= i < entries.len() && (#[trigger] entries[i]).0 == key
}

/// The number of entries whose key lies below `key`, the keys ascending.
pub open spec fn count_below<K: PartialOrd, V>(entries: Seq<(K, V)>, key: K) -> int
    decreases entries.len(),
{
    if entries.len() == 0 {
        0
    } else if lt(entries[0].0, key) {
        1 + count_below(entries.subrange(1, entries.len() as int), key)
    } else {
        0
    }
}

/// `split` parts the entries by what `f` says of their keys: below `split.0` it says
/// `Less`, from `split.1` on `Greater`, and between the two `Equal`.
pub open spec fn parts<K, V, F: Fn(K) -> Ordering>(
    entries: Seq<(K, V)>,
    f: F,
    split: (int, int),
) -> bool {
    &&& 0 <= split.0 <= split.1 <= entries.len()
    &&& forall|i: int, o: Ordering|
        0 <= i < entries.len() && #[trigger] f.ensures(((#[trigger] entries[i]).0,), o) ==> (o
            == if i < split.0 {
            Ordering::Less
        } else if i < split.1 {
            Ordering::Equal
        } else {
            Ordering::Greater
        })
}

/// A collection of values under keys, kept in the order of the keys.
pub trait SortedCollection<K: Copy + Ord, V: Copy> {
    /// The entries, keys ascending.
    spec fn entries(&self) -> Seq<(K, V)>;

    /// The keys ascend and compare by a lawful order.
    spec fn wf(&self) -> bool;

    fn is_empty(&self) -> (r: bool)
        requires
            self.wf(),
        ensures
            r == (self.entries().len() == 0),
    ;

    /// Adds the entry where its key belongs; an equal key that is there already stays.
    fn insert(&mut self, key: K, val: V)
        requires
            old(self).wf(),
        ensures
            final(self).wf(),
            exists|i: int|
                0 <= i <= old(self).entries().len() && final(self).entries() == old(self).entries().insert(i, (key, val)),
    ;

    /// Takes out one entry of the key `key`, if there is one.
    fn delete(&mut self, key: K)
        requires
            old(self).wf(),
        ensures
            final(self).wf(),
            !has_key(old(self).entries(), key) ==> final(self).entries() == old(self).entries(),
            has_key(old(self).entries(), key) ==> exists|i: int|
                0 <= i < old(self).entries().len() && old(self).entries()[i].0 == key && final(self).entries() == old(self).entries().remove(i),
    ;

    /// The value of an entry of the key `key`, if there is one.
    fn get_value(&self, key: K) -> (r: Option<V>)
        requires
            self.wf(),
        ensures
            r is Some == has_key(self.entries(), key),
            r matches Some(v) ==> exists|i: int|
                0 <= i < self.entries().len() && #[trigger] self.entries()[i] == (key, v),
    ;

    /// The value of an entry of the key `key`, or else of the last entry of a lesser
    /// key, if there is one.
    fn first_less(&self, key: K) -> (r: Option<V>)
        requires
            self.wf(),
        ensures
            has_key(self.entries(), key) ==> exists|i: int|
                0 <= i < self.entries().len() && #[trigger] self.entries()[i].0 == key && r
                    == Some(self.entries()[i].1),
            !has_key(self.entries(), key) ==> r == (if count_below(self.entries(), key) > 0 {
                Some(self.entries()[count_below(self.entries(), key) - 1].1)
            } else {
                None
            }),
    ;

    /// The value of an entry of which `f` says `Equal`, or else of the last entry of
    /// which it says `Less`, if there is one. `f` is to part the entries.
    fn first_less_by<F>(&self, f: F) -> (r: Option<V>) where F: Fn(K) -> Ordering
        requires
            self.wf(),
            forall|k: K| f.requires((k,)),
            exists|split: (int, int)| parts(self.entries(), f, split),
        ensures
            forall|split: (int, int)|
                parts(self.entries(), f, split) ==> {
                    &&& split.0 < split.1 ==> exists|i: int|
                        split.0 <= i < split.1 && r == Some((#[trigger] self.entries()[i]).1)
                    &&& split.0 == split.1 && split.0 > 0 ==> r == Some(
                        self.entries()[split.0 - 1].1,
                    )
                    &&& split.1 == 0 ==> r is None
                },
    ;

    /// Takes all entries out.
    fn clear(&mut self)
        ensures
            final(self).entries().len() == 0,
            old(self).wf() ==> final(self).wf(),
    ;
}

} // verus!
