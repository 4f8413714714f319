use vstd::prelude::*;
use crate::node::{Color, Node, EMPTY_REF};
use crate::order::{lawful, lt};
use crate::store::Store;

pub mod balance;
pub mod bounds;
pub mod bulk;
pub mod clear;
pub mod delete;
pub mod find;
pub mod graft;
pub mod insert;
pub mod links;
pub mod mend;
pub mod paint;
pub mod perfect;
pub mod prune;

verus! {

/// Where a node stands: its rank in ascending order, the ranks `lo..hi` that its subtree
/// covers, and the number of black nodes on every path from it down to a missing child.
pub struct Place {
    pub pos: int,
    pub lo: int,
    pub hi: int,
    pub bh: int,
}

/// The ghost layout of a tree: its handles in ascending order of their values, and the
/// place of each.
pub struct Shape {
    pub order: Seq<u32>,
    pub places: spec_fn(u32) -> Place,
}

/// The places `f` with the place of `h` set to `place`.
pub open spec fn put(f: spec_fn(u32) -> Place, h: u32, place: Place) -> spec_fn(u32) -> Place {
    |k: u32|
        if k == h {
            place
        } else {
            f(k)
        }
}

/// A red-black tree whose nodes live in an arena and name each other by handle.
pub struct Tree<T> {
    pub store: Store<T>,
    pub root: u32,
    pub(crate) nil_index: u32,
    pub(crate) shape: Ghost<Shape>,
}

impl<T: Clone + PartialEq + Eq + PartialOrd + Ord> View for Tree<T> {
    type V = Seq<T>;

    /// The values of the tree in ascending order.
    open(crate) spec fn view(&self) -> Seq<T> {
        Seq::new(self.count() as nat, |p: int| self.val_at(p))
    }
}

impl<T: Clone + PartialEq + Eq + PartialOrd + Ord> Tree<T> {
    // ----- the model -----

    /// The node in the slot `h`.
    pub open(crate) spec fn nd(&self, h: u32) -> Node<T> {
        self.store.buffer@[h as int]
    }

    /// The handles of the nodes in ascending order of their values.
    pub open(crate) spec fn order(&self) -> Seq<u32> {
        self.shape@.order
    }

    /// The number of nodes.
    pub open(crate) spec fn count(&self) -> int {
        self.shape@.order.len() as int
    }

    /// The rank of `h`.
    pub open(crate) spec fn pos(&self, h: u32) -> int {
        (self.shape@.places)(h).pos
    }

    /// The least rank under `h`.
    pub open(crate) spec fn lo(&self, h: u32) -> int {
        (self.shape@.places)(h).lo
    }

    /// One more than the greatest rank under `h`.
    pub open(crate) spec fn hi(&self, h: u32) -> int {
        (self.shape@.places)(h).hi
    }

    /// The black height of `h`.
    pub open(crate) spec fn bh(&self, h: u32) -> int {
        (self.shape@.places)(h).bh
    }

    /// The place of `h`.
    pub open(crate) spec fn place(&self, h: u32) -> Place {
        (self.shape@.places)(h)
    }

    /// The value of rank `p`.
    pub open(crate) spec fn val_at(&self, p: int) -> T {
        self.nd(self.shape@.order[p]).value
    }

    /// `h` is the handle of a node that is linked into the tree.
    pub open(crate) spec fn live(&self, h: u32) -> bool {
        &&& (h as int) < self.store.buffer@.len()
        &&& 0 <= self.pos(h) < self.count()
        &&& self.order()[self.pos(h)] == h
    }

    /// The black height of the child `c`, 0 for a missing one.
    pub open(crate) spec fn kid_bh(&self, c: u32) -> int {
        if c == EMPTY_REF {
            0
        } else {
            self.bh(c)
        }
    }

    /// The child `c` is black or missing.
    pub open(crate) spec fn dark(&self, c: u32) -> bool {
        c == EMPTY_REF || self.nd(c).color == Color::Black
    }

    /// 1 for a black node, 0 for a red one.
    pub open(crate) spec fn black(&self, h: u32) -> int {
        if self.nd(h).color == Color::Black {
            1
        } else {
            0
        }
    }

    // ----- the invariant, piece by piece -----

    /// The arena is accounted for: the free handles, the linked handles and the sentinel
    /// are apart from each other and make up all the slots.
    pub open(crate) spec fn arena_ok(&self) -> bool {
        &&& self.store.wf()
        &&& (self.nil_index as int) < self.store.buffer@.len()
        &&& forall|k: int|
            0 <= k < self.store.unused@.len() ==> !self.live(#[trigger] self.store.unused@[k])
                && self.store.unused@[k] != self.nil_index
        &&& forall|p: int|
            0 <= p < self.count() ==> (#[trigger] self.order()[p] as int)
                < self.store.buffer@.len() && self.pos(self.order()[p]) == p
        &&& self.count() + self.store.unused@.len() + (if self.live(self.nil_index) {
            0int
        } else {
            1int
        }) == self.store.buffer@.len()
    }

    /// The root is the node that has no parent, and all ranks lie under it.
    pub open(crate) spec fn root_ok(&self) -> bool {
        if self.count() == 0 {
            self.root == EMPTY_REF
        } else {
            &&& self.live(self.root)
            &&& self.lo(self.root) == 0
            &&& self.hi(self.root) == self.count()
            &&& self.nd(self.root).parent == EMPTY_REF
        }
    }

    /// The links of `h` agree with the places: its left subtree covers the ranks below
    /// it, its right subtree those above, and its parent names it as a child.
    pub open(crate) spec fn link_ok(&self, h: u32) -> bool {
        let n = self.nd(h);
        &&& 0 <= self.lo(h) <= self.pos(h) < self.hi(h) <= self.count()
        &&& if self.lo(h) == self.pos(h) {
            n.left == EMPTY_REF
        } else {
            &&& self.live(n.left)
            &&& self.lo(n.left) == self.lo(h)
            &&& self.hi(n.left) == self.pos(h)
            &&& self.nd(n.left).parent == h
        }
        &&& if self.pos(h) + 1 == self.hi(h) {
            n.right == EMPTY_REF
        } else {
            &&& self.live(n.right)
            &&& self.lo(n.right) == self.pos(h) + 1
            &&& self.hi(n.right) == self.hi(h)
            &&& self.nd(n.right).parent == h
        }
        &&& if n.parent == EMPTY_REF {
            h == self.root
        } else {
            &&& self.live(n.parent)
            &&& (self.nd(n.parent).left == h || self.nd(n.parent).right == h)
        }
    }

    /// The handles form a binary tree under `root` that agrees with the ghost layout.
    pub open(crate) spec fn linked(&self) -> bool {
        &&& self.arena_ok()
        &&& self.root_ok()
        &&& forall|h: u32| self.live(h) ==> #[trigger] self.link_ok(h)
    }

    /// The values ascend strictly along the order, the node `x` left aside.
    pub open(crate) spec fn sorted_but(&self, x: u32) -> bool {
        forall|p: int, q: int|
            0 <= p < q < self.count() && self.order()[p] != x && self.order()[q] != x ==> lt(
                #[trigger] self.val_at(p),
                #[trigger] self.val_at(q),
            )
    }

    /// Both sides of `h` have the same black height, and `h` has one more if it is black.
    pub open(crate) spec fn bh_ok(&self, h: u32) -> bool {
        let n = self.nd(h);
        &&& self.bh(h) == self.kid_bh(n.left) + self.black(h)
        &&& self.bh(h) == self.kid_bh(n.right) + self.black(h)
        &&& self.bh(h) >= self.black(h)
    }

    /// A red `h` has no red child.
    pub open(crate) spec fn red_ok(&self, h: u32) -> bool {
        let n = self.nd(h);
        n.color == Color::Red ==> self.dark(n.left) && self.dark(n.right)
    }

    /// Every node has a black height, and no red node has a red child.
    pub open(crate) spec fn colored(&self) -> bool {
        &&& forall|h: u32| self.live(h) ==> #[trigger] self.bh_ok(h)
        &&& forall|h: u32| self.live(h) ==> #[trigger] self.red_ok(h)
    }

    /// The child of `h` on the given side.
    pub open(crate) spec fn kid(&self, h: u32, left: bool) -> u32 {
        if left {
            self.nd(h).left
        } else {
            self.nd(h).right
        }
    }

    /// The tree is a red-black search tree over a lawful order, and its arena is
    /// accounted for.
    pub open(crate) spec fn wf(&self) -> bool {
        &&& lawful::<T>()
        &&& self.linked()
        &&& !self.live(self.nil_index)
        &&& self.sorted_but(EMPTY_REF)
        &&& self.colored()
        &&& self.dark(self.root)
    }

    // ----- what contracts speak of -----

    /// `h` is the handle of a node of the tree.
    pub open(crate) spec fn holds(&self, h: u32) -> bool {
        self.live(h)
    }

    /// The rank of the node `h` in ascending order, from 0.
    pub open(crate) spec fn rank(&self, h: u32) -> int {
        self.pos(h)
    }

    /// The handle of the node of rank `p`.
    pub open(crate) spec fn handle_at(&self, p: int) -> u32 {
        self.order()[p]
    }

    /// The least rank that the subtree of the node `h` covers.
    pub open(crate) spec fn subtree_start(&self, h: u32) -> int {
        self.lo(h)
    }

    /// One more than the greatest rank that the subtree of the node `h` covers.
    pub open(crate) spec fn subtree_end(&self, h: u32) -> int {
        self.hi(h)
    }

    /// The number of black nodes on every path from the root down to a missing child.
    pub open(crate) spec fn root_black_height(&self) -> int {
        self.kid_bh(self.root)
    }

    /// What the slot `h` of the arena holds.
    pub open(crate) spec fn node_at(&self, h: u32) -> Node<T> {
        self.nd(h)
    }

    /// The number of slots of the arena.
    pub open(crate) spec fn slot_count(&self) -> int {
        self.store.buffer@.len() as int
    }

    /// The number of free handles of the arena.
    pub open(crate) spec fn free_count(&self) -> int {
        self.store.unused@.len() as int
    }

    /// The handle of the root, `EMPTY_REF` for none.
    pub open(crate) spec fn root_handle(&self) -> u32 {
        self.root
    }

    /// The handle of the slot that is kept aside to stand in for a missing leaf.
    pub open(crate) spec fn sentinel(&self) -> u32 {
        self.nil_index
    }

    /// The root is black, or there is none.
    pub open(crate) spec fn root_is_black(&self) -> bool {
        self.root == EMPTY_REF || self.nd(self.root).color == Color::Black
    }

    /// The arena as a whole.
    pub open(crate) spec fn arena(&self) -> Store<T> {
        self.store
    }

    /// The slots of the arena, by handle.
    pub open(crate) spec fn slots(&self) -> Seq<Node<T>> {
        self.store.buffer@
    }

    /// Root, sentinel, layout and free stack are as in `other`.
    pub open(crate) spec fn rest_same(&self, other: &Self) -> bool {
        &&& self.root == other.root
        &&& self.nil_index == other.nil_index
        &&& self.shape == other.shape
        &&& self.store.unused@ == other.store.unused@
        &&& self.store.empty == other.store.empty
    }

    // ----- plain access -----

    /// Whether the tree holds no value.
    pub fn is_empty(&self) -> (r: bool)
        ensures
            r == (self.root_handle() == EMPTY_REF),
            self.wf() ==> r == (self@.len() == 0),
    {
        self.root == EMPTY_REF
    }

    /// An empty tree over an arena of `capacity` slots, 8 at least, which are filled with
    /// `empty`. The first slot is set aside as the sentinel.
    pub fn new(empty: T, capacity: usize) -> (tree: Self)
        requires
            lawful::<T>(),
            capacity <= u32::MAX,
        ensures
            tree.wf(),
            tree@ == Seq::<T>::empty(),
            tree.root_handle() == EMPTY_REF,
            tree.slot_count() == (if capacity < 8 { 8 } else { capacity as int }),
            tree.free_count() == tree.slot_count() - 1,
            tree.arena().pristine(),
            tree.arena().next_handle() == 1,
            tree.sentinel() == 0,
    {
        let mut store = Store::new(empty, capacity);
        let nil_index = store.get_free_index();
        let tree = Self {
            store,
            root: EMPTY_REF,
            nil_index,
            shape: Ghost(Shape { order: Seq::empty(), places: |h: u32| Place { pos: 0, lo: 0, hi: 0, bh: 0 } }),
        };
        assert(tree@ =~= Seq::<T>::empty());
        tree
    }

    /// Whether the node `index` is black; a missing node counts as black.
    pub fn is_black(&self, index: u32) -> (r: bool)
        requires
            index == EMPTY_REF || index < self.slot_count(),
        ensures
            r == (index == EMPTY_REF || self.node_at(index).color == Color::Black),
    {
        index == EMPTY_REF || index != EMPTY_REF && self.node(index).color == Color::Black
    }

    /// The node in the slot `index`.
    pub fn node(&self, index: u32) -> (r: &Node<T>)
        requires
            index < self.slot_count(),
        ensures
            *r == self.node_at(index),
    {
        &self.store.buffer[index as usize]
    }

    /// The node in the slot `index`, to be written. What is written there is not
    /// held to keep the tree sound.
    pub fn mut_node(&mut self, index: u32) -> (r: &mut Node<T>)
        requires
            index < old(self).slot_count(),
        ensures
            *r == old(self).node_at(index),
            final(self).slots() == old(self).slots().update(index as int, *final(r)),
            final(self).rest_same(old(self)),
    {
        &mut self.store.buffer[index as usize]
    }
}

} // verus!
