use vstd::prelude::*;
use crate::node::{Color, Node, EMPTY_REF};

verus! {

/// The arena: a growable buffer of node slots and a stack of the handles that are free.
pub struct Store<T> {
    pub(crate) buffer: Vec<Node<T>>,
    pub(crate) unused: Vec<u32>,
    pub(crate) empty: T,
}

/// Calls `Vec::capacity`. Nothing is claimed of the number it gives: it depends on the
/// allocator.
#[verifier::external_body]
fn free_capacity(list: &Vec<u32>) -> (c: usize) {
    list.capacity()
}

/// The number of slots by which an arena grows whose free stack has room allotted for
/// `capacity` handles, while `room` slots may still come: half of `capacity`, but one
/// slot at least and `room` at most.
pub open spec fn growth(capacity: int, room: int) -> int {
    if capacity / 2 == 0 {
        1
    } else if capacity / 2 > room {
        room
    } else {
        capacity / 2
    }
}

/// The number of slots by which the arena grows: see `growth`.
pub fn growth_step(capacity: usize, room: usize) -> (step: usize)
    ensures
        step == growth(capacity as int, room as int),
{
    assert(capacity >> 1 == capacity / 2) by (bit_vector);
    let half = capacity >> 1;
    if half == 0 {
        1
    } else if half > room {
        room
    } else {
        half
    }
}

impl<T: Clone> Store<T> {
    /// The slots of the arena, by handle.
    pub open(crate) spec fn slots(&self) -> Seq<Node<T>> {
        self.buffer@
    }

    /// The free handles, as a stack: the last one is handed out first.
    pub open(crate) spec fn free(&self) -> Seq<u32> {
        self.unused@
    }

    /// Every free handle names a slot, none occurs twice, and no slot has the handle
    /// `EMPTY_REF`.
    pub open spec fn wf(&self) -> bool {
        &&& self.slots().len() <= u32::MAX
        &&& forall|k: int|
            0 <= k < self.free().len() ==> (#[trigger] self.free()[k]) < self.slots().len()
        &&& forall|j: int, k: int|
            0 <= j < k < self.free().len() ==> self.free()[j] != self.free()[k]
    }

    /// The free stack holds the topmost handles of the arena, the lowest of them on top.
    pub open spec fn packed(&self) -> bool {
        &&& self.free().len() <= self.slots().len()
        &&& forall|k: int|
            0 <= k < self.free().len() ==> (#[trigger] self.free()[k]) == self.slots().len() - 1
                - k
    }

    /// The node is as a slot is made: it names no other node and is red.
    pub open spec fn fresh(node: Node<T>) -> bool {
        &&& node.parent == EMPTY_REF
        &&& node.left == EMPTY_REF
        &&& node.right == EMPTY_REF
        &&& node.color == Color::Red
    }

    /// The free stack is packed, and every free slot is as it was made.
    pub open spec fn pristine(&self) -> bool {
        &&& self.packed()
        &&& forall|h: int|
            self.next_handle() <= h < self.slots().len() ==> Self::fresh(#[trigger] self.slots()[h])
    }

    /// The handle that `get_free_index` gives while the stack is packed.
    pub open spec fn next_handle(&self) -> int {
        self.slots().len() - self.free().len()
    }

    pub(crate) fn new(empty: T, capacity: usize) -> (store: Self)
        requires
            capacity <= u32::MAX,
        ensures
            store.wf(),
            store.pristine(),
            store.slots().len() == (if capacity < 8 { 8 } else { capacity as int }),
            store.free().len() == store.slots().len(),
    {
        let capacity = if capacity < 8 { 8 } else { capacity };
        let mut store = Self {
            buffer: Vec::with_capacity(capacity),
            unused: Vec::with_capacity(capacity),
            empty,
        };
        store.reserve(capacity);
        store
    }

    fn reserve(&mut self, length: usize)
        requires
            old(self).wf(),
            old(self).slots().len() + length <= u32::MAX,
        ensures
            final(self).wf(),
            final(self).slots().len() == old(self).slots().len() + length,
            forall|i: int|
                0 <= i < old(self).slots().len() ==> final(self).slots()[i] == old(self).slots()[i],
            final(self).free().len() == old(self).free().len() + length,
            forall|k: int|
                0 <= k < old(self).free().len() ==> final(self).free()[k] == old(self).free()[k],
            forall|k: int|
                old(self).free().len() <= k < final(self).free().len() ==> final(self).free()[k]
                    == final(self).slots().len() - 1 - (k - old(self).free().len()),
            forall|h: int|
                old(self).slots().len() <= h < final(self).slots().len() ==> Self::fresh(
                    #[trigger] final(self).slots()[h],
                ),
    {
        let n = self.buffer.len() as u32;
        let l = length as u32;
        let mut i: u32 = 0;
        while i < l
            invariant
                i <= l,
                l == length,
                n == old(self).slots().len(),
                n + l <= u32::MAX,
                self.buffer@.len() == n + i,
                self.unused@.len() == old(self).free().len() + i,
                forall|j: int| 0 <= j < n ==> self.buffer@[j] == old(self).slots()[j],
                forall|k: int|
                    0 <= k < old(self).free().len() ==> self.unused@[k] == old(self).free()[k],
                forall|k: int|
                    old(self).free().len() <= k < self.unused@.len() ==> self.unused@[k] == n + l
                        - 1 - (k - old(self).free().len()),
                forall|h: int| n <= h < self.buffer@.len() ==> Self::fresh(#[trigger] self.buffer@[h]),
            decreases l - i,
        {
            let node = Node {
                parent: EMPTY_REF,
                left: EMPTY_REF,
                right: EMPTY_REF,
                color: Color::Red,
                value: self.empty.clone(),
            };
            self.buffer.push(node);
            self.unused.push(n + l - i - 1);
            i += 1;
        }
    }

    /// Takes a free handle off the stack. When none is left the arena first grows, by the
    /// step that `growth` gives for the room that the free stack has allotted and the
    /// slots that may still come below `EMPTY_REF`.
    pub fn get_free_index(&mut self) -> (index: u32)
        requires
            old(self).wf(),
            old(self).free().len() > 0 || old(self).slots().len() < u32::MAX,
        ensures
            final(self).wf(),
            index < final(self).slots().len(),
            old(self).free().len() > 0 ==> {
                &&& index == old(self).free().last()
                &&& final(self).free() == old(self).free().drop_last()
                &&& final(self).slots() == old(self).slots()
            },
            old(self).free().len() == 0 ==> {
                &&& index == old(self).slots().len()
                &&& final(self).slots().len() > old(self).slots().len()
                &&& final(self).slots().subrange(0, old(self).slots().len() as int) == old(self).slots()
                &&& final(self).free().len() == final(self).slots().len() - old(self).slots().len() - 1
                &&& final(self).packed()
                &&& forall|h: int|
                    old(self).slots().len() <= h < final(self).slots().len() ==> Self::fresh(
                        #[trigger] final(self).slots()[h],
                    )
                &&& exists|capacity: usize|
                    final(self).slots().len() == old(self).slots().len() + #[trigger] growth(
                        capacity as int,
                        u32::MAX - old(self).slots().len(),
                    )
            },
            old(self).pristine() ==> final(self).pristine() && index == old(self).next_handle()
                && Self::fresh(final(self).slots()[index as int]),
    {
        if self.unused.is_empty() {
            let capacity = free_capacity(&self.unused);
            let room = (u32::MAX as usize) - self.buffer.len();
            let extra_capacity = growth_step(capacity, room);
            self.reserve(extra_capacity);
            assert(self.buffer@.subrange(0, old(self).slots().len() as int) =~= old(self).slots());
        }
        let index = self.unused.pop().unwrap();
        proof {
            if old(self).free().len() > 0 {
                assert(self.unused@ =~= old(self).free().drop_last());
            }
        }
        index
    }

    /// Puts a handle on the free stack.
    pub fn put_back(&mut self, index: u32)
        ensures
            final(self).free() == old(self).free().push(index),
            final(self).slots() == old(self).slots(),
    {
        self.unused.push(index)
    }
}

} // verus!
