use vstd::prelude::*;
use core::cmp::Ordering;
use crate::ord::entity::Entity;
use crate::ord::sort::{count_below, has_key, keys_ascend, parts, SortedCollection};
use crate::order::{
    lawful, lemma_lt_asymmetric, lemma_lt_irreflexive, lemma_lt_total, lemma_lt_transitive,
    lemma_operators, lt, operators_agree,
};

verus! {

/// Values under keys, in a vector that is kept in the order of the keys.
pub struct SortedList<K, V> {
    pub(crate) buffer: Vec<Entity<K, V>>,
}

/// The entries that a buffer holds, one after the other.
pub open spec fn entries_of<K, V>(buffer: Seq<Entity<K, V>>) -> Seq<(K, V)> {
    Seq::new(buffer.len(), |i: int| (buffer[i].key, buffer[i].val))
}

/// Where the entries below `i` have keys below `key` and the entry `i` has not, `i`
/// entries lie below `key`.
pub proof fn lemma_count_below<K: Copy + Ord, V>(entries: Seq<(K, V)>, key: K, i: int)
    requires
        0 <= i <= entries.len(),
        forall|j: int| 0 <= j < i ==> lt((#[trigger] entries[j]).0, key),
        i < entries.len() ==> !lt(entries[i].0, key),
    ensures
        count_below(entries, key) == i,
    decreases entries.len(),
{
    if entries.len() > 0 && i > 0 {
        let rest = entries.subrange(1, entries.len() as int);
        assert(lt(entries[0].0, key));
        assert forall|j: int| 0 <= j < i - 1 implies lt((#[trigger] rest[j]).0, key) by {
            assert(rest[j] == entries[j + 1]);
        }
        if i - 1 < rest.len() {
            assert(rest[i - 1] == entries[i]);
        }
        lemma_count_below(rest, key, i - 1);
    }
}

impl<K: Copy, V: Copy> SortedList<K, V> {
    /// An empty list with room for `capacity` entries.
    pub fn new(capacity: usize) -> (r: Self)
        ensures
            r.model().len() == 0,
    {
        Self { buffer: Vec::with_capacity(capacity) }
    }

    /// The entries of the list, one after the other.
    pub open(crate) spec fn model(&self) -> Seq<(K, V)> {
        entries_of(self.buffer@)
    }
}

impl<K: Copy + Ord, V: Copy> SortedList<K, V> {
    /// Looks `key` up by halving: `Ok` with the place of an entry of that key, or `Err`
    /// with the place at which such an entry would stand.
    fn search(&self, key: K) -> (r: Result<usize, usize>)
        requires
            lawful::<K>(),
            keys_ascend(self.model()),
        ensures
            match r {
                Ok(i) => i < self.model().len() && self.model()[i as int].0 == key,
                Err(i) => {
                    &&& i <= self.model().len()
                    &&& forall|j: int| 0 <= j < i ==> lt((#[trigger] self.model()[j]).0, key)
                    &&& forall|j: int|
                        i <= j < self.model().len() ==> lt(key, (#[trigger] self.model()[j]).0)
                },
            },
    {
        let mut lo: usize = 0;
        let mut hi: usize = self.buffer.len();
        proof {
            lemma_operators::<K>();
        }
        while lo < hi
            invariant
                lawful::<K>(),
                operators_agree::<K>(),
                keys_ascend(self.model()),
                lo <= hi <= self.buffer@.len(),
                forall|j: int| 0 <= j < lo ==> lt((#[trigger] self.model()[j]).0, key),
                forall|j: int|
                    hi <= j < self.model().len() ==> lt(key, (#[trigger] self.model()[j]).0),
            decreases hi - lo,
        {
            let mid = lo + (hi - lo) / 2;
            let e = &self.buffer[mid];
            proof {
                assert(self.model()[mid as int].0 == e.key);
            }
            if e.key == key {
                return Ok(mid);
            } else if e.key < key {
                proof {
                    assert forall|j: int| 0 <= j < mid + 1 implies lt(
                        (#[trigger] self.model()[j]).0,
                        key,
                    ) by {
                        if j < mid {
                            assert(!lt(self.model()[mid as int].0, self.model()[j].0));
                            lemma_lt_total(self.model()[j].0, self.model()[mid as int].0);
                            if self.model()[j].0 != e.key {
                                lemma_lt_transitive(self.model()[j].0, e.key, key);
                            }
                        }
                    }
                }
                lo = mid + 1;
            } else {
                proof {
                    lemma_lt_total(e.key, key);
                    assert forall|j: int| mid <= j < self.model().len() implies lt(
                        key,
                        (#[trigger] self.model()[j]).0,
                    ) by {
                        if j > mid {
                            assert(!lt(self.model()[j].0, self.model()[mid as int].0));
                            lemma_lt_total(self.model()[mid as int].0, self.model()[j].0);
                            if self.model()[j].0 != e.key {
                                lemma_lt_transitive(key, e.key, self.model()[j].0);
                            }
                        }
                    }
                }
                hi = mid;
            }
        }
        Err(lo)
    }

    /// Looks by halving for an entry of which `f` says `Equal`: `Ok` with its place, or
    /// `Err` with the place of the first entry of which `f` says `Greater`.
    fn search_by<F>(&self, f: &F) -> (r: Result<usize, usize>) where F: Fn(K) -> Ordering
        requires
            forall|k: K| f.requires((k,)),
            exists|split: (int, int)| parts(self.model(), *f, split),
        ensures
            forall|split: (int, int)|
                parts(self.model(), *f, split) ==> match r {
                    Ok(i) => split.0 <= i < split.1,
                    Err(i) => split.0 == i && split.1 == i,
                },
    {
        let mut lo: usize = 0;
        let mut hi: usize = self.buffer.len();
        while lo < hi
            invariant
                forall|k: K| f.requires((k,)),
                lo <= hi <= self.buffer@.len(),
                forall|split: (int, int)|
                    parts(self.model(), *f, split) ==> lo <= split.0 && split.1 <= hi,
            decreases hi - lo,
        {
            let mid = lo + (hi - lo) / 2;
            let e = &self.buffer[mid];
            let o = f(e.key);
            proof {
                assert(self.model()[mid + 0].0 == e.key);
                assert(f.ensures((self.model()[mid + 0].0,), o));
            }
            match o {
                Ordering::Less => {
                    lo = mid + 1;
                },
                Ordering::Equal => {
                    return Ok(mid);
                },
                Ordering::Greater => {
                    hi = mid;
                },
            }
        }
        Err(lo)
    }
}

impl<K: Copy + Ord, V: Copy> SortedCollection<K, V> for SortedList<K, V> {
    open spec fn entries(&self) -> Seq<(K, V)> {
        self.model()
    }

    open spec fn wf(&self) -> bool {
        lawful::<K>() && keys_ascend(self.model())
    }

    fn is_empty(&self) -> (r: bool) {
        self.buffer.is_empty()
    }

    fn insert(&mut self, key: K, val: V) {
        let index = match self.search(key) {
            Ok(index) => index,
            Err(index) => index,
        };
        let ghost before = self.model();
        self.buffer.insert(index, Entity::new(key, val));
        proof {
            assert(self.model() =~= before.insert(index as int, (key, val)));
            assert(self.entries() == old(self).entries().insert(index as int, (key, val)));
            lemma_lt_irreflexive(key);
            assert forall|a: int, b: int| 0 <= a < b < self.model().len() implies !lt(
                (#[trigger] self.model()[b]).0,
                (#[trigger] self.model()[a]).0,
            ) by {
                let ka = self.model()[a].0;
                let kb = self.model()[b].0;
                lemma_lt_asymmetric(ka, kb);
                if a == index {
                    assert(kb == before[b - 1].0);
                    if b - 1 > index {
                        assert(!lt(before[b - 1].0, before[index as int].0));
                    }
                } else if b == index {
                    assert(ka == before[a].0);
                    if index < before.len() {
                        assert(!lt(before[index as int].0, before[a].0));
                    }
                } else if b < index {
                    assert(!lt(before[b].0, before[a].0));
                } else if a < index {
                    assert(!lt(before[b - 1].0, before[a].0));
                } else {
                    assert(!lt(before[b - 1].0, before[a - 1].0));
                }
            }
        }
    }

    fn delete(&mut self, key: K) {
        let ghost before = self.model();
        if let Ok(index) = self.search(key) {
            self.buffer.remove(index);
            proof {
                assert(self.model() =~= before.remove(index as int));
                assert(before[index as int].0 == key);
                assert(old(self).entries()[index as int].0 == key);
                assert(self.entries() == old(self).entries().remove(index as int));
                assert forall|a: int, b: int| 0 <= a < b < self.model().len() implies !lt(
                    (#[trigger] self.model()[b]).0,
                    (#[trigger] self.model()[a]).0,
                ) by {
                    let a2 = if a < index {
                        a
                    } else {
                        a + 1
                    };
                    let b2 = if b < index {
                        b
                    } else {
                        b + 1
                    };
                    assert(!lt(before[b2].0, before[a2].0));
                }
            }
        } else {
            proof {
                lemma_lt_irreflexive(key);
                if has_key(before, key) {
                    let i = choose|i: int| 0 <= i < before.len() && (#[trigger] before[i]).0 == key;
                }
            }
        }
    }

    fn get_value(&self, key: K) -> (r: Option<V>) {
        if let Ok(index) = self.search(key) {
            proof {
                assert(self.model()[index as int] == (key, self.buffer@[index as int].val));
                assert(self.entries()[index as int] == (key, self.buffer@[index as int].val));
            }
            Some(self.buffer[index].val)
        } else {
            proof {
                lemma_lt_irreflexive(key);
                if has_key(self.model(), key) {
                    let i = choose|i: int|
                        0 <= i < self.model().len() && (#[trigger] self.model()[i]).0 == key;
                }
            }
            None
        }
    }

    fn first_less(&self, key: K) -> (r: Option<V>) {
        match self.search(key) {
            Ok(index) => {
                proof {
                    assert(self.model()[index as int].0 == key);
                }
                Some(self.buffer[index].val)
            },
            Err(index) => {
                proof {
                    lemma_lt_irreflexive(key);
                    if has_key(self.model(), key) {
                        let i = choose|i: int|
                            0 <= i < self.model().len() && (#[trigger] self.model()[i]).0 == key;
                    }
                    if index < self.model().len() {
                        lemma_lt_asymmetric(key, self.model()[index as int].0);
                    }
                    lemma_count_below(self.model(), key, index as int);
                }
                if index > 0 {
                    Some(self.buffer[index - 1].val)
                } else {
                    None
                }
            },
        }
    }

    fn first_less_by<F>(&self, f: F) -> (r: Option<V>) where F: Fn(K) -> Ordering {
        match self.search_by(&f) {
            Ok(index) => {
                proof {
                    assert(self.model()[index + 0].1 == self.buffer@[index + 0].val);
                }
                Some(self.buffer[index].val)
            },
            Err(index) => {
                if index > 0 {
                    proof {
                        assert(self.model()[index - 1].1 == self.buffer@[index - 1].val);
                    }
                    Some(self.buffer[index - 1].val)
                } else {
                    None
                }
            },
        }
    }

    fn clear(&mut self) {
        self.buffer.clear();
    }
}

} // verus!
