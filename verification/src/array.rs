use vstd::prelude::*;
use vstd::arithmetic::power2::{lemma2_to64, lemma_pow2_unfold, pow2};
use crate::bits::{bits_of, lemma_bit_length_range};
use crate::node::{Color, EMPTY_REF};
use crate::order::{
    lawful, lemma_lt_asymmetric, lemma_lt_irreflexive, lemma_operators, lt, operators_agree,
};
use crate::tree::bulk::{
    ascending, climbing, covers, laid_node, lemma_climbing_bound, lemma_full_cover,
    lemma_slot_in_slice, lemma_taken_step, taken,
};
use crate::tree::perfect::{
    lemma_in_tree, lemma_lvl_of, lemma_nested, lemma_places, lemma_pow2_ladder,
    lemma_rank_slot_ascends, lemma_slot_by_rank, lvl, perfect_shape, pos_of, rank_slot, slot_of,
};
use crate::tree::Tree;

verus! {

/// A frame of the walk in order: a node, and its children as far as they are still to
/// be entered. What has been dealt with is set to `EMPTY_REF`.
pub struct StackNode {
    index: u32,
    left: u32,
    right: u32,
}

impl<T: Clone + PartialEq + Eq + PartialOrd + Ord> Tree<T> {
    /// The handle of the node of rank `p`, and `EMPTY_REF` where there is none.
    pub open(crate) spec fn handle_or_empty(&self, p: int) -> u32 {
        if 0 <= p < self.count() {
            self.order()[p]
        } else {
            EMPTY_REF
        }
    }

    /// The frame `st` of the node `h` is in one of its three states: nothing entered
    /// yet, the left side entered, or the node itself passed.
    spec fn frame_ok(&self, st: StackNode, h: u32) -> bool {
        &&& self.live(h)
        &&& (st.left == EMPTY_REF || st.left == self.nd(h).left)
        &&& (st.index == h || st.index == EMPTY_REF)
        &&& st.index == h ==> st.right == self.nd(h).right
        &&& st.index == EMPTY_REF ==> st.right == EMPTY_REF && st.left == EMPTY_REF
    }

    /// The walk stands at rank `c` with the frames `stack` over the nodes `path`.
    spec fn walk_ok(&self, stack: Seq<StackNode>, path: Seq<u32>, c: int) -> bool {
        &&& stack.len() == path.len()
        &&& 0 <= c <= self.count()
        &&& stack.len() == 0 ==> c == self.count()
        &&& stack.len() > 0 ==> path[0] == self.root
        &&& forall|j: int| 0 <= j < stack.len() ==> self.frame_ok(#[trigger] stack[j], path[j])
        &&& forall|j: int|
            0 <= j < stack.len() - 1 ==> {
                let st = #[trigger] stack[j];
                &&& st.left == EMPTY_REF
                &&& path[j + 1] != EMPTY_REF
                &&& st.index != EMPTY_REF ==> path[j + 1] == self.nd(path[j]).left
                &&& st.index == EMPTY_REF ==> path[j + 1] == self.nd(path[j]).right
            }
        &&& stack.len() > 0 ==> {
            let st = stack[stack.len() - 1];
            let h = path[stack.len() - 1];
            &&& st.left != EMPTY_REF ==> c == self.lo(h)
            &&& st.left == EMPTY_REF && st.index != EMPTY_REF ==> c == self.pos(h)
            &&& st.index == EMPTY_REF ==> c == self.hi(h)
        }
    }

    /// The size of what the top frame has still to enter on its left.
    spec fn walk_pending(&self, stack: Seq<StackNode>, path: Seq<u32>) -> int {
        if stack.len() > 0 && stack[stack.len() - 1].left != EMPTY_REF {
            self.hi(path[stack.len() - 1]) - self.lo(path[stack.len() - 1])
        } else {
            0
        }
    }

    /// The walk goes down: the top frame gives up a child, which becomes the new top.
    proof fn lemma_walk_down(
        &self,
        stack: Seq<StackNode>,
        path: Seq<u32>,
        c: int,
        top: StackNode,
        child: StackNode,
        index: u32,
        c1: int,
    )
        requires
            self.wf(),
            self.walk_ok(stack, path, c),
            stack.len() > 0,
            child.index == index,
            child.left == self.nd(index).left,
            child.right == self.nd(index).right,
            top.left == EMPTY_REF,
            ({
                let was = stack[stack.len() - 1];
                ||| (was.left != EMPTY_REF && index == was.left && top.index == was.index
                    && top.right == was.right && c1 == c)
                ||| (was.left == EMPTY_REF && was.index != EMPTY_REF && was.right != EMPTY_REF
                    && index == was.right && top.index == EMPTY_REF && top.right == EMPTY_REF
                    && c1 == c + 1)
            }),
        ensures
            self.walk_ok(stack.update(stack.len() - 1, top).push(child), path.push(index), c1),
            c1 <= self.count(),
            c1 == c ==> self.walk_pending(
                stack.update(stack.len() - 1, top).push(child),
                path.push(index),
            ) < self.walk_pending(stack, path),
    {
        let last = stack.len() - 1;
        let h = path[last];
        let was = stack[last];
        let after = stack.update(last, top).push(child);
        let path1 = path.push(index);
        assert(self.frame_ok(was, h));
        assert(self.link_ok(h));
        assert(self.link_ok(index));
        assert(after[last] == top);
        assert(after[last + 1] == child);
        assert(path1[last + 1] == index);
        assert(path1[last] == h);
        assert forall|j: int| 0 <= j < after.len() implies self.frame_ok(
            #[trigger] after[j],
            path1[j],
        ) by {
            if j < last {
                assert(after[j] == stack[j]);
                assert(self.frame_ok(stack[j], path[j]));
            }
        }
        assert forall|j: int| 0 <= j < after.len() - 1 implies {
            let st = #[trigger] after[j];
            &&& st.left == EMPTY_REF
            &&& path1[j + 1] != EMPTY_REF
            &&& st.index != EMPTY_REF ==> path1[j + 1] == self.nd(path1[j]).left
            &&& st.index == EMPTY_REF ==> path1[j + 1] == self.nd(path1[j]).right
        } by {
            if j < last {
                assert(after[j] == stack[j]);
                let st = stack[j];
                assert(st.left == EMPTY_REF);
            }
        }
        if after.len() > 0 {
            assert(path1[0] == path[0]);
        }
    }

    /// The walk goes up: the top frame, which has nothing left to give, goes.
    proof fn lemma_walk_up(&self, stack: Seq<StackNode>, path: Seq<u32>, c: int, c1: int)
        requires
            self.wf(),
            self.walk_ok(stack, path, c),
            stack.len() > 0,
            ({
                let was = stack[stack.len() - 1];
                &&& was.left == EMPTY_REF
                &&& was.index != EMPTY_REF ==> was.right == EMPTY_REF && c1 == c + 1
                &&& was.index == EMPTY_REF ==> c1 == c
            }),
        ensures
            self.walk_ok(stack.drop_last(), path.drop_last(), c1),
            c1 <= self.count(),
            self.walk_pending(stack, path) == 0,
            self.walk_pending(stack.drop_last(), path.drop_last()) == 0,
    {
        let last = stack.len() - 1;
        let h = path[last];
        let was = stack[last];
        let after = stack.drop_last();
        let path1 = path.drop_last();
        assert(self.frame_ok(was, h));
        assert(self.link_ok(h));
        assert(c1 == self.hi(h));
        assert forall|j: int| 0 <= j < after.len() implies self.frame_ok(
            #[trigger] after[j],
            path1[j],
        ) by {
            assert(after[j] == stack[j]);
            assert(self.frame_ok(stack[j], path[j]));
        }
        assert forall|j: int| 0 <= j < after.len() - 1 implies {
            let st = #[trigger] after[j];
            &&& st.left == EMPTY_REF
            &&& path1[j + 1] != EMPTY_REF
            &&& st.index != EMPTY_REF ==> path1[j + 1] == self.nd(path1[j]).left
            &&& st.index == EMPTY_REF ==> path1[j + 1] == self.nd(path1[j]).right
        } by {
            assert(after[j] == stack[j]);
            let st = stack[j];
            assert(st.left == EMPTY_REF);
        }
        if after.len() > 0 {
            let up = after.len() - 1;
            let st = stack[up];
            assert(after[up] == st);
            assert(st.left == EMPTY_REF);
            assert(self.frame_ok(st, path[up]));
            assert(self.link_ok(path[up]));
            assert(path1[0] == path[0]);
            assert(path1[up] == path[up]);
        } else {
            assert(h == self.root);
            assert(self.link_ok(self.root));
        }
    }

    /// The tree of the values of `slice`, which ascend strictly. The upper levels are
    /// laid out at once as a perfect tree, black and red by turns; every node of it takes
    /// the middle of its run of the slice. What the perfect tree leaves over is inserted
    /// one value at a time.
    #[verifier::rlimit(100)]
    pub fn with_sorted_array(empty: T, slice: &[T], extra_capacity: usize) -> (tree: Self)
        requires
            lawful::<T>(),
            ascending(slice@),
            slice@.len() + extra_capacity <= u32::MAX - 2,
        ensures
            tree.wf(),
            tree@ == slice@,
            tree.root_is_black(),
            (tree.root_handle() == EMPTY_REF) == (slice@.len() == 0),
            tree.slot_count() >= 8,
            tree.slot_count() >= slice@.len() + extra_capacity,
            tree.free_count() == tree.slot_count() - 1 - slice@.len(),
    {
        let n = slice.len();
        let mut tree = Tree::new(empty, n + extra_capacity);
        let ghost base = tree.slot_count();

        if n == 0 {
            proof {
                assert(tree@ =~= slice@);
            }
            return tree;
        }
        let mut visited: Vec<bool> = vec![false; n];

        let si: usize = 0;
        let mid = n >> 1;
        proof {
            lemma2_to64();
            vstd::bits::lemma_usize_shr_is_div(n, 1);
            lemma_operators::<T>();
        }
        visited[mid] = true;
        let first = slice[si + mid].clone();
        proof {
            assert(cloned(slice@[mid as int], first));
        }
        tree.insert_root(first);

        let log: u32 = bits_of((n + 1) as u64) - 1;
        let s0 = n >> 1;
        proof {
            lemma_bit_length_range((n + 1) as nat);
            lemma_pow2_unfold((log + 1) as nat);
            assert(log >= 1) by {
                if log == 0 {
                }
            }
            assert(log <= 31) by {
                if log >= 32 {
                    lemma_pow2_ladder(32, log as int);
                    vstd::arithmetic::power2::lemma2_to64_rest();
                }
            }
            assert(tree.link_ok(tree.root));
            assert(lvl(1) == 0);
            assert(pow2(0) == 1);
            assert((1 - pow2(0)) * (n as int) == 0) by (nonlinear_arith)
                requires
                    pow2(0) == 1,
            ;
            let h: int = (n as int) / 2;
            assert(mid == h);
            vstd::arithmetic::div_mod::lemma_div_basics(h);
            assert(slot_of(1, n as int) == (h + (1 - pow2(0)) * (n as int)) / (pow2(0) as int));
            assert(slot_of(1, n as int) == mid);
            assert(tree.nd(1u32) == laid_node(slice@, 1, 1));
            assert forall|t: int| 0 <= t < n implies visited@[t] == taken(n as int, 1, t) by {
                if taken(n as int, 1, t) {
                    let q = choose|q: int| 1 <= q <= 1 && #[trigger] slot_of(q, n as int) == t;
                }
                if t == mid {
                    assert(1 <= 1 <= 1 && slot_of(1, n as int) == t);
                }
            }
        }

        let mut j: u32 = 1;
        let mut i: u32 = 1;
        while i < log
            invariant
                lawful::<T>(),
                operators_agree::<T>(),
                n == slice@.len(),
                tree.slot_count() >= base,
                1 <= n <= u32::MAX - 2,
                s0 == n / 2,
                si == 0,
                1 <= i <= log <= 31,
                pow2(log as nat) <= n + 1,
                j == pow2(i as nat) - 1,
                tree.built(slice@, j as int),
                tree.store.wf(),
                tree.store.pristine(),
                tree.store.next_handle() == j + 1,
                visited@.len() == n,
                forall|t: int| 0 <= t < n ==> visited@[t] == taken(n as int, j as int, t),
            decreases log - i,
        {
            let color = if i & 1 == 0 {
                Color::Black
            } else {
                Color::Red
            };
            let mut s: u64 = s0 as u64;

            let ni: u32 = 1 << (i - 1);
            proof {
                assert((i & 1 == 0) == (i % 2 == 0)) by (bit_vector);
                lemma_pow2_ladder((i - 1) as int, 30);
                lemma_pow2_ladder(i as int, log as int);
                lemma_pow2_ladder((i + 1) as int, log as int);
                lemma_pow2_unfold(i as nat);
                lemma_pow2_unfold((i + 1) as nat);
                vstd::bits::lemma_u32_shl_is_mul(1, (i - 1) as u32);
            }
            let mut c: u32 = 0;
            while c < ni
                invariant
                    lawful::<T>(),
                    operators_agree::<T>(),
                    n == slice@.len(),
                    tree.slot_count() >= base,
                    1 <= n <= u32::MAX - 2,
                    s0 == n / 2,
                    si == 0,
                    1 <= i < log <= 31,
                    pow2(log as nat) <= n + 1,
                    2 * pow2(i as nat) <= pow2(log as nat),
                    pow2(i as nat) == 2 * ni,
                    ni >= 1,
                    c <= ni,
                    color == (if i % 2 == 0 {
                        Color::Black
                    } else {
                        Color::Red
                    }),
                    j == pow2(i as nat) - 1 + 2 * c,
                    s == s0 + 2 * c * n,
                    tree.built(slice@, j as int),
                    tree.store.wf(),
                    tree.store.pristine(),
                    tree.store.next_handle() == j + 1,
                    visited@.len() == n,
                    forall|t: int| 0 <= t < n ==> visited@[t] == taken(n as int, j as int, t),
                decreases ni - c,
            {
                let ghost before = tree;
                let ghost seen = visited@;
                proof {
                    let jj = j;
                    assert(((jj - 1) as u32) >> 1 == ((jj - 1) as u32) / 2) by (bit_vector);
                }
                let p = ((j - 1) >> 1) + 1;
                proof {
                    lemma_lvl_of(j as int + 1, i as int);
                    lemma_lvl_of(j as int + 2, i as int);
                    lemma_in_tree(j as int + 1, log as int);
                    lemma_in_tree(j as int + 2, log as int);
                    lemma_slot_in_slice(j as int + 1, n as int, log as int);
                    lemma_slot_in_slice(j as int + 2, n as int, log as int);
                    assert(2 * c * n <= 2 * 0x4000_0000 * 0x1_0000_0000) by (nonlinear_arith)
                        requires
                            c <= 0x4000_0000,
                            n <= 0x1_0000_0000,
                    ;
                    assert((j + 1 - pow2(i as nat)) * n == 2 * c * n) by (nonlinear_arith)
                        requires
                            j + 1 - pow2(i as nat) == 2 * c,
                    ;
                    assert((j + 2 - pow2(i as nat)) * n == 2 * c * n + n) by (nonlinear_arith)
                        requires
                            j + 2 - pow2(i as nat) == 2 * c + 1,
                    ;
                    vstd::bits::lemma_u64_shr_is_div(s, i as u64);
                    vstd::bits::lemma_u64_shr_is_div((s + n) as u64, i as u64);
                    assert(before.nd(p) == laid_node(slice@, p as int, j as int));
                }

                let parent = tree.mut_node(p);
                parent.left = j + 1;
                parent.right = j + 2;
                let ghost linked = tree;

                let lt = (s >> i) as usize;
                let left = tree.store.get_free_index();
                let ghost one = tree;
                proof {
                    assert forall|q: int| 0 <= q < linked.slots().len() implies one.slots()[q]
                        == linked.slots()[q] by {
                        if linked.store.free().len() == 0 {
                            assert(one.slots().subrange(0, linked.slots().len() as int)[q]
                                == one.slots()[q]);
                        }
                    }
                }
                let left_value = slice[si + lt].clone();
                proof {
                    assert(cloned(slice@[lt as int], left_value));
                }
                let left_node = tree.mut_node(left);
                left_node.parent = p;
                left_node.color = color;
                left_node.value = left_value;
                let ghost left_made = tree;

                s += n as u64;

                let rt = (s >> i) as usize;
                let right = tree.store.get_free_index();
                let ghost two = tree;
                proof {
                    assert forall|q: int| 0 <= q < left_made.slots().len() implies two.slots()[q]
                        == left_made.slots()[q] by {
                        if left_made.store.free().len() == 0 {
                            assert(two.slots().subrange(0, left_made.slots().len() as int)[q]
                                == two.slots()[q]);
                        }
                    }
                }
                let right_value = slice[si + rt].clone();
                proof {
                    assert(cloned(slice@[rt as int], right_value));
                }
                let right_node = tree.mut_node(right);
                right_node.parent = p;
                right_node.color = color;
                right_node.value = right_value;

                s += n as u64;

                j += 2;
                visited[lt] = true;
                visited[rt] = true;
                c += 1;
                proof {
                    assert(2 * c * n == 2 * (c - 1) * n + 2 * n) by (nonlinear_arith);
                    assert forall|q: u32| 1 <= q <= j implies #[trigger] tree.nd(q) == laid_node(
                        slice@,
                        q as int,
                        j as int,
                    ) by {
                        if q <= j - 2 {
                            assert(before.nd(q) == laid_node(slice@, q as int, j - 2));
                            assert(one.slots()[q as int] == linked.slots()[q as int]);
                            assert(two.slots()[q as int] == left_made.slots()[q as int]);
                        } else if q == j - 1 {
                            assert(two.slots()[q as int] == left_made.slots()[q as int]);
                            assert(tree.nd(q).value == slice@[slot_of(q as int, n as int)]);
                        } else {
                            assert(tree.nd(q).value == slice@[slot_of(q as int, n as int)]);
                        }
                    }
                    assert forall|t: int| 0 <= t < n implies visited@[t] == taken(
                        n as int,
                        j as int,
                        t,
                    ) by {
                        lemma_taken_step(n as int, j - 2, t);
                        assert(seen[t] == taken(n as int, j - 2, t));
                    }
                }
            }
            i += 1;
        }
        let ghost raw = tree;
        tree.shape = Ghost(perfect_shape(log as int));
        proof {
            assert forall|q: u32| 1 <= q <= j implies #[trigger] tree.nd(q) == laid_node(
                slice@,
                q as int,
                j as int,
            ) by {
                assert(raw.nd(q) == laid_node(slice@, q as int, j as int));
            }
        }
        let ghost mut idx: Seq<int> = Seq::new(
            (pow2(log as nat) - 1) as nat,
            |r: int| rank_slot(r + 1, n as int, log as int),
        );
        proof {
            tree.lemma_perfect_sound(slice@, log as int);
            assert forall|a: int, b: int| 0 <= a < b < idx.len() implies #[trigger] idx[a]
                < #[trigger] idx[b] by {
                lemma_rank_slot_ascends(a + 1, b + 1, n as int, log as int);
            }
            assert forall|r: int| 0 <= r < idx.len() implies 0 <= #[trigger] idx[r] < n by {
                if r + 2 < pow2(log as nat) {
                    lemma_rank_slot_ascends(r + 1, r + 2, n as int, log as int);
                } else if r >= 1 {
                    lemma_rank_slot_ascends(r, r + 1, n as int, log as int);
                } else {
                    let h = tree.order()[r];
                    lemma_in_tree(h as int, log as int);
                    lemma_slot_in_slice(h as int, n as int, log as int);
                    lemma_slot_by_rank(h as int, n as int, log as int);
                }
            }
            assert forall|u: int| 0 <= u < n implies covers(idx, u) == visited@[u] by {
                if covers(idx, u) {
                    let r = choose|r: int| 0 <= r < idx.len() && #[trigger] idx[r] == u;
                    let h = tree.order()[r];
                    lemma_in_tree(h as int, log as int);
                    lemma_slot_by_rank(h as int, n as int, log as int);
                    assert(1 <= h <= j && slot_of(h as int, n as int) == u);
                }
                if taken(n as int, j as int, u) {
                    let q = choose|q: int| 1 <= q <= j && #[trigger] slot_of(q, n as int) == u;
                    lemma_in_tree(q, log as int);
                    lemma_places(q, log as int);
                    lemma_nested(q, log as int);
                    lemma_slot_by_rank(q, n as int, log as int);
                    assert(idx[pos_of(q, log as int)] == u);
                }
            }
        }

        let mut t: usize = 0;
        while t < n
            invariant
                lawful::<T>(),
                operators_agree::<T>(),
                ascending(slice@),
                n == slice@.len(),
                tree.slot_count() >= base,
                1 <= n <= u32::MAX - 2,
                si == 0,
                t <= n,
                tree.wf(),
                visited@.len() == n,
                climbing(idx, n as int),
                idx.len() == tree@.len(),
                forall|r: int| 0 <= r < idx.len() ==> tree@[r] == slice@[#[trigger] idx[r]],
                forall|u: int|
                    0 <= u < n ==> #[trigger] covers(idx, u) == (visited@[u] || u < t),
            decreases n - t,
        {
            if !visited[t] {
                let value = slice[si + t].clone();
                let ghost before = tree;
                proof {
                    assert(cloned(slice@[t as int], value));
                    if idx.len() > 0 {
                        lemma_climbing_bound(idx, n as int, 0);
                    }
                    if tree@.contains(value) {
                        let r = choose|r: int| 0 <= r < tree@.len() && tree@[r] == value;
                        assert(tree@[r] == slice@[idx[r]]);
                        lemma_lt_irreflexive(value);
                        if idx[r] < t {
                            assert(lt(slice@[idx[r]], slice@[t as int]));
                        } else if idx[r] > t {
                            assert(lt(slice@[t as int], slice@[idx[r]]));
                        }
                        assert(covers(idx, t as int));
                    }
                }
                tree.insert(value);
                proof {
                    let (k, x) = choose|k: int, x: u32| tree.inserted(&before, value, k, x);
                    let old_idx = idx;
                    idx = old_idx.insert(k, t as int);
                    assert(tree@.len() == before@.len() + 1);
                    assert forall|r: int| 0 <= r < idx.len() implies tree@[r]
                        == slice@[#[trigger] idx[r]] by {
                        if r < k {
                            assert(tree@[r] == before@[r]);
                        } else if r > k {
                            assert(tree@[r] == before@[r - 1]);
                        }
                    }
                    // the new value stands between its neighbours, so does its place
                    lemma_lt_irreflexive(value);
                    if k > 0 {
                        assert(tree.order()[k - 1] != tree.nil_index);
                        assert(tree.order()[k] != tree.nil_index);
                        assert(lt(tree.val_at(k - 1), tree.val_at(k)));
                        assert(tree@[k - 1] == slice@[old_idx[k - 1]]);
                        if old_idx[k - 1] > t {
                            assert(lt(slice@[t as int], slice@[old_idx[k - 1]]));
                            lemma_lt_asymmetric(slice@[t as int], slice@[old_idx[k - 1]]);
                        }
                        if old_idx[k - 1] == t {
                            assert(covers(old_idx, t as int));
                        }
                    }
                    if k < old_idx.len() {
                        assert(tree.order()[k + 1] != tree.nil_index);
                        assert(tree.order()[k] != tree.nil_index);
                        assert(lt(tree.val_at(k), tree.val_at(k + 1)));
                        assert(tree@[k + 1] == slice@[old_idx[k]]);
                        if old_idx[k] < t {
                            assert(lt(slice@[old_idx[k]], slice@[t as int]));
                            lemma_lt_asymmetric(slice@[t as int], slice@[old_idx[k]]);
                        }
                        if old_idx[k] == t {
                            assert(covers(old_idx, t as int));
                        }
                    }
                    assert forall|a: int, b: int| 0 <= a < b < idx.len() implies #[trigger] idx[a]
                        < #[trigger] idx[b] by {
                        if b < k {
                        } else if b == k {
                            if a < k - 1 {
                                assert(old_idx[a] < old_idx[k - 1]);
                            }
                        } else if a < k {
                            assert(idx[b] == old_idx[b - 1]);
                        } else if a == k {
                            assert(idx[b] == old_idx[b - 1]);
                            if b - 1 > k {
                                assert(old_idx[k] < old_idx[b - 1]);
                            }
                        } else {
                            assert(idx[a] == old_idx[a - 1]);
                            assert(idx[b] == old_idx[b - 1]);
                        }
                    }
                    assert forall|u: int| 0 <= u < n implies #[trigger] covers(idx, u) == (
                    visited@[u] || u < t + 1) by {
                        if covers(old_idx, u) {
                            let r = choose|r: int| 0 <= r < old_idx.len() && #[trigger] old_idx[r]
                                == u;
                            if r < k {
                                assert(idx[r] == u);
                            } else {
                                assert(idx[r + 1] == u);
                            }
                        }
                        if u == t {
                            assert(idx[k] == u);
                        }
                        if covers(idx, u) {
                            let r = choose|r: int| 0 <= r < idx.len() && #[trigger] idx[r] == u;
                            if r < k {
                                assert(old_idx[r] == u);
                            } else if r > k {
                                assert(old_idx[r - 1] == u);
                            }
                        }
                    }
                }
            }
            t += 1;
        }
        proof {
            lemma_full_cover(idx, n as int);
            assert forall|r: int| 0 <= r < n implies tree@[r] == slice@[r] by {
                assert(idx[r] == r);
            }
            assert(tree@ =~= slice@);
        }

        tree
    }

    /// The values of the tree in ascending order.
    pub fn ordered_list(&self) -> (list: Vec<T>)
        requires
            self.wf(),
        ensures
            list@ == self@,
    {
        if self.root == EMPTY_REF {
            let list = Vec::new();
            assert(list@ =~= self@);
            return list;
        }
        let height = self.height();
        // the estimate may exceed what a shift can take: then nothing is set aside
        let room: usize = if height < 31 {
            1usize << height
        } else {
            0
        };
        let mut list = Vec::with_capacity(room);
        let mut stack = Vec::with_capacity(height);

        self.fill_ordered_list_with_stack(&mut list, &mut stack);

        list
    }

    /// Puts the values of the tree into `list`, in ascending order.
    pub fn fill_ordered_list(&self, list: &mut Vec<T>)
        requires
            self.wf(),
        ensures
            final(list)@ == self@,
    {
        let height = self.height();
        let mut stack = Vec::with_capacity(height);
        self.fill_ordered_list_with_stack(list, &mut stack);
    }

    /// Puts the values of the tree into `list`, in ascending order, with `stack` as
    /// working room. Both are emptied first, and `stack` is empty at the end.
    #[verifier::rlimit(100)]
    pub fn fill_ordered_list_with_stack(&self, list: &mut Vec<T>, stack: &mut Vec<StackNode>)
        requires
            self.wf(),
        ensures
            final(list)@ == self@,
            final(stack)@.len() == 0,
    {
        list.clear();
        stack.clear();
        if self.root == EMPTY_REF {
            assert(list@ =~= self@);
            return ;
        }
        proof {
            assert(self.link_ok(self.root));
        }

        let root_node = self.node(self.root);
        stack.push(StackNode { index: self.root, left: root_node.left, right: root_node.right });
        let ghost mut path: Seq<u32> = seq![self.root];
        let ghost mut c: int = 0;

        while !stack.is_empty()
            invariant
                self.wf(),
                self.walk_ok(stack@, path, c),
                list@.len() == c,
                forall|q: int| 0 <= q < c ==> list@[q] == self.val_at(q),
            decreases self.count() - c, self.walk_pending(stack@, path), stack@.len(),
        {
            let last_stack_index = stack.len() - 1;
            let ghost h = path[last_stack_index as int];
            let ghost before = stack@;
            let ghost path0 = path;
            let ghost c0 = c;
            let ghost top = stack@[last_stack_index as int];
            proof {
                assert(self.frame_ok(top, h));
                assert(self.link_ok(h));
            }
            let s = &mut stack[last_stack_index];

            if s.left != EMPTY_REF {
                let index = s.left;
                s.left = EMPTY_REF;  // to skip next time

                // go down left
                proof {
                    assert(self.link_ok(index));
                }
                let node = self.node(index);
                let left = node.left;
                let right = node.right;
                stack.push(StackNode { index, left, right });
                proof {
                    path = path.push(index);
                    let nt = StackNode { index: top.index, left: EMPTY_REF, right: top.right };
                    let child = StackNode { index, left, right };
                    assert(stack@ =~= before.update(last_stack_index as int, nt).push(child));
                    self.lemma_walk_down(before, path0, c0, nt, child, index, c);
                }
            } else {
                if s.index != EMPTY_REF {
                    let index = s.index;
                    s.index = EMPTY_REF;  // to skip next time

                    // add value
                    let value = self.node(index).value.clone();
                    proof {
                        assert(cloned(self.nd(index).value, value));
                        assert(self.val_at(c) == value);
                    }
                    list.push(value);
                    proof {
                        c = c + 1;
                    }
                }
                if s.right != EMPTY_REF {
                    let index = s.right;
                    s.right = EMPTY_REF;  // to skip next time

                    // go down right
                    proof {
                        assert(self.link_ok(index));
                    }
                    let node = self.node(index);
                    let left = node.left;
                    let right = node.right;
                    stack.push(StackNode { index, left, right });
                    proof {
                        path = path.push(index);
                        let nt = StackNode {
                            index: EMPTY_REF,
                            left: EMPTY_REF,
                            right: EMPTY_REF,
                        };
                        let child = StackNode { index, left, right };
                        assert(stack@ =~= before.update(last_stack_index as int, nt).push(child));
                        self.lemma_walk_down(before, path0, c0, nt, child, index, c);
                    }
                } else {
                    // go up
                    stack.pop();
                    proof {
                        path = path.drop_last();
                        assert(stack@ =~= before.drop_last());
                        self.lemma_walk_up(before, path0, c0, c);
                    }
                }
            }
        }
        proof {
            assert(list@ =~= self@);
        }
    }

    /// The node of the least value; `EMPTY_REF` in an empty tree.
    pub fn first_by_order(&self) -> (r: u32)
        requires
            self.wf(),
        ensures
            r == self.handle_or_empty(0),
    {
        proof {
            if self.root != EMPTY_REF {
                assert(self.link_ok(self.root));
            }
        }
        self.find_left_minimum(self.root)
    }

    /// The node that follows `index` in ascending order; `EMPTY_REF` after the last.
    pub fn next_by_order(&self, index: u32) -> (r: u32)
        requires
            self.wf(),
            self.holds(index),
        ensures
            r == self.handle_or_empty(self.rank(index) + 1),
    {
        proof {
            assert(self.link_ok(index));
            lemma_operators::<T>();
        }
        let this = self.node(index);
        if this.right != EMPTY_REF {
            proof {
                assert(self.link_ok(this.right));
            }
            return self.find_left_minimum(this.right);
        } else {
            // first parent bigger
            let mut i = this.parent;
            let ghost mut cur = index;
            while i != EMPTY_REF
                invariant
                    self.wf(),
                    operators_agree::<T>(),
                    self.live(index),
                    *this == self.nd(index),
                    self.live(cur),
                    self.link_ok(cur),
                    self.hi(cur) == self.pos(index) + 1,
                    self.lo(cur) <= self.pos(index),
                    i == self.nd(cur).parent,
                decreases self.count() - (self.hi(cur) - self.lo(cur)),
            {
                proof {
                    assert(self.link_ok(i));
                    assert(self.order()[self.pos(i)] != self.nil_index);
                    assert(self.order()[self.pos(index)] != self.nil_index);
                    if self.pos(i) < self.pos(index) {
                        assert(lt(self.val_at(self.pos(i)), self.val_at(self.pos(index))));
                        lemma_lt_asymmetric(self.nd(i).value, self.nd(index).value);
                    } else {
                        assert(lt(self.val_at(self.pos(index)), self.val_at(self.pos(i))));
                    }
                }
                let node = self.node(i);
                if node.value > this.value {
                    return i;
                } else {
                    proof {
                        cur = i;
                    }
                    i = node.parent;
                }
            }

            // last element
            EMPTY_REF
        }
    }
}

} // verus!
