use i_tree::seg::exp::SegRange;
use i_tree::seg::heap::{BitIter, BitOp, Heap32};
use i_tree::seg::tree::Layout;

#[test]
fn exp_test_00() {
    let range = SegRange { min: 0, max: 1 };
    assert!(range.min < range.max);
}

#[test]
fn heap_test_00() {
    assert_eq!(u64::fill(0, 2), 0b111);
    assert_eq!(u64::fill(1, 2), 0b110);
    assert_eq!(u64::fill(2, 2), 0b100);
}

#[test]
fn tree_test_00() {
    let layout = Layout::new(1, 126).unwrap();
    assert_eq!(layout.index(0), 0);
    assert_eq!(layout.index(1), 0);
    assert_eq!(layout.index(2), 0);
    assert_eq!(layout.index(3), 0);
    assert_eq!(layout.index(4), 1);
    assert_eq!(layout.index(5), 1);
    assert_eq!(layout.index(6), 1);
    assert_eq!(layout.index(7), 1);
    assert_eq!(layout.index(8), 2);

    assert_eq!(layout.index(127), 31);
    assert_eq!(layout.index(126), 31);
    assert_eq!(layout.index(125), 31);
    assert_eq!(layout.index(124), 31);
    assert_eq!(layout.index(123), 30);
    assert_eq!(layout.index(122), 30);
    assert_eq!(layout.index(121), 30);
    assert_eq!(layout.index(120), 30);
    assert_eq!(layout.index(119), 29);
}

#[test]
fn tree_test_01() {
    let layout = Layout::new(0, 100).unwrap();
    assert_eq!(layout.index(-1), 0);
    assert_eq!(layout.index(0), 0);
    assert_eq!(layout.index(1), 0);
    assert_eq!(layout.index(2), 0);
    assert_eq!(layout.index(3), 1);
    assert_eq!(layout.index(4), 1);
    assert_eq!(layout.index(5), 1);
    assert_eq!(layout.index(6), 1);
    assert_eq!(layout.index(7), 2);
    assert_eq!(layout.index(8), 2);

    assert_eq!(layout.index(90), 22);
    assert_eq!(layout.index(91), 23);
    assert_eq!(layout.index(92), 23);
    assert_eq!(layout.index(93), 23);
    assert_eq!(layout.index(94), 23);
    assert_eq!(layout.index(95), 24);
    assert_eq!(layout.index(96), 24);
    assert_eq!(layout.index(97), 24);
    assert_eq!(layout.index(98), 24);
    assert_eq!(layout.index(99), 25);
    assert_eq!(layout.index(100), 25);
    assert_eq!(layout.index(101), 25);
}

fn collect(mask: u64) -> Vec<usize> {
    let mut iter = BitIter::new(mask);
    let mut indices = Vec::new();
    while let Some(index) = iter.next() {
        indices.push(index);
    }
    indices
}

#[test]
fn heap_test_01() {
    let m = Heap32::range_to_mask(0, 31);
    let indices: Vec<_> = collect(m);
    assert_eq!(indices, vec![0]);
}

#[test]
fn heap_test_02() {
    let m = Heap32::range_to_mask(0, 30);
    let indices: Vec<_> = collect(m);
    assert_eq!(indices, vec![1, 5, 13, 29, 61]);
}

#[test]
fn heap_test_03() {
    let m = Heap32::range_to_mask(30, 31);
    let indices: Vec<_> = collect(m);
    assert_eq!(indices, vec![30]);
}

#[test]
fn heap_test_04() {
    let m = Heap32::range_to_mask(29, 31);
    let mut indices: Vec<_> = collect(m);
    indices.sort_unstable();
    assert_eq!(indices, vec![30, 60]);
}

#[test]
fn heap_test_05() {
    let m = Heap32::range_to_mask(15, 16);
    let mut indices: Vec<_> = collect(m);
    indices.sort_unstable();
    assert_eq!(indices, vec![46, 47]);
}

#[test]
fn heap_test_06() {
    let m = Heap32::range_to_mask(0, 12);
    let mut indices: Vec<_> = collect(m);
    indices.sort_unstable();
    assert_eq!(indices, vec![3, 9, 43]);
}

#[test]
fn range_of_one_leaf_is_that_leaf() {
    for leaf in 0..32u32 {
        let m = Heap32::range_to_mask(leaf, leaf);
        assert_eq!(collect(m), vec![(leaf + 31) as usize]);
    }
}

#[test]
fn order_to_heap_index_adds_the_inner_nodes() {
    assert_eq!(Heap32::order_to_heap_index(0), 31);
    assert_eq!(Heap32::order_to_heap_index(31), 62);
}

#[test]
fn layout_refuses_short_ranges() {
    assert!(Layout::new(0, 2).is_none());
    assert!(Layout::new(5, 5).is_none());
    assert!(Layout::new(0, 15).is_some());
}

#[test]
fn layout_counts_up_to_the_last_leaf() {
    let layout = Layout::new(1, 126).unwrap();
    assert_eq!(layout.scale, 2);
    assert_eq!(layout.count(), 62);
}
