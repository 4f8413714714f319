use i_tree::array::StackNode;
use i_tree::node::{Color, EMPTY_REF};
use i_tree::store::growth_step;
use i_tree::tree::Tree;

fn black_height(tree: &Tree<i32>, index: u32) -> Option<usize> {
    if index == EMPTY_REF {
        return Some(0);
    }
    let node = tree.node(index);
    let left = black_height(tree, node.left)?;
    let right = black_height(tree, node.right)?;
    if left != right {
        return None;
    }
    Some(left + if node.color == Color::Black { 1 } else { 0 })
}

fn no_red_pair(tree: &Tree<i32>, index: u32) -> bool {
    if index == EMPTY_REF {
        return true;
    }
    let node = tree.node(index);
    if node.color == Color::Red && !(tree.is_black(node.left) && tree.is_black(node.right)) {
        return false;
    }
    no_red_pair(tree, node.left) && no_red_pair(tree, node.right)
}

fn links_agree(tree: &Tree<i32>, index: u32, parent: u32) -> bool {
    if index == EMPTY_REF {
        return true;
    }
    let node = tree.node(index);
    node.parent == parent
        && links_agree(tree, node.left, index)
        && links_agree(tree, node.right, index)
}

fn max_depth(tree: &Tree<i32>, index: u32) -> usize {
    if index == EMPTY_REF {
        return 0;
    }
    let node = tree.node(index);
    1 + max_depth(tree, node.left).max(max_depth(tree, node.right))
}

fn assert_sound(tree: &Tree<i32>) {
    assert!(tree.is_black(tree.root));
    assert!(no_red_pair(tree, tree.root));
    assert!(black_height(tree, tree.root).is_some());
    assert!(links_agree(tree, tree.root, EMPTY_REF));
    let list = tree.ordered_list();
    for pair in list.windows(2) {
        assert!(pair[0] < pair[1]);
    }
}

fn ceil_log2(m: usize) -> usize {
    let mut k = 0;
    while (1usize << k) < m {
        k += 1;
    }
    k
}

fn walk(tree: &Tree<i32>) -> Vec<i32> {
    let mut values = Vec::new();
    let mut index = tree.first_by_order();
    while index != EMPTY_REF {
        values.push(tree.node(index).value);
        index = tree.next_by_order(index);
    }
    values
}

#[test]
fn ordered_list_is_the_ascending_sort() {
    let mut tree = Tree::new(0, 5);
    for a in [6, 3, 4, 8, 1] {
        tree.insert(a);
    }
    assert_eq!(tree.ordered_list(), vec![1, 3, 4, 6, 8]);
}

#[test]
fn seven_values_make_a_full_tree() {
    let mut tree = Tree::new(0, 8);
    for a in [40, 20, 60, 10, 30, 50, 70] {
        tree.insert(a);
    }
    let root = tree.node(tree.root);
    assert_eq!(root.value, 40);
    assert_eq!(tree.node(root.left).value, 20);
    assert_eq!(tree.node(root.right).value, 60);
    // the fourth value turned its parent and uncle black; the root stays black
    assert!(root.color == Color::Black);
    assert!(tree.node(root.left).color == Color::Black);
    assert!(tree.node(root.right).color == Color::Black);
    assert!(tree.node(tree.node(root.left).left).color == Color::Red);
    assert_eq!(tree.height(), 4);
}

#[test]
fn sound_after_every_step() {
    let mut tree = Tree::new(0, 16);
    let steps: [(bool, i32); 16] = [
        (true, 10),
        (true, 20),
        (false, 10),
        (true, 0),
        (true, 3),
        (true, 6),
        (false, 3),
        (true, 2),
        (false, 2),
        (true, 4),
        (false, 6),
        (false, 0),
        (false, 4),
        (true, 8),
        (false, 20),
        (false, 8),
    ];
    for (insert, value) in steps {
        if insert {
            tree.insert(value);
        } else {
            tree.delete(value);
        }
        assert_sound(&tree);
    }
    assert!(tree.is_empty());
    assert_eq!(tree.ordered_list(), Vec::<i32>::new());
}

#[test]
fn sound_after_two_deletions() {
    let mut tree = Tree::new(0, 8);
    for a in [2, 1, 6, 4, 3, 5] {
        tree.insert(a);
    }
    tree.delete(2);
    tree.delete(1);
    assert_sound(&tree);
    assert_eq!(tree.ordered_list(), vec![3, 4, 5, 6]);
}

#[test]
fn the_root_stays_black() {
    let mut tree = Tree::new(0, 8);
    for a in [1, 2, 3, 4] {
        tree.insert(a);
        assert!(tree.node(tree.root).color == Color::Black);
    }
    assert_eq!(tree.node(tree.root).value, 2);
    assert_eq!(tree.height(), 4);
    assert_sound(&tree);
    let mut tree = Tree::new(0, 8);
    for a in [10, 15, 5, 4] {
        tree.insert(a);
    }
    assert_eq!(tree.node(tree.root).value, 10);
    assert!(tree.node(tree.root).color == Color::Black);
    // a red child that comes to the root turns black
    let mut tree = Tree::new(0, 8);
    tree.insert(1);
    tree.insert(2);
    tree.delete(1);
    assert_eq!(tree.node(tree.root).value, 2);
    assert!(tree.node(tree.root).color == Color::Black);
    assert_sound(&tree);
}

#[test]
fn deleting_a_root_with_two_red_leaves_keeps_its_handle() {
    let mut tree = Tree::new(0, 8);
    for a in [10, 20, 30] {
        tree.insert(a);
    }
    let h = tree.find_index(20);
    assert_eq!(h, tree.root);
    assert_eq!(tree.delete_index(h), h);
    assert_eq!(tree.node(h).value, 30);
    assert_eq!(tree.find_index(30), h);
    assert_eq!(tree.ordered_list(), vec![10, 30]);
}

#[test]
fn the_arena_grows_by_half_of_the_room_allotted() {
    assert_eq!(growth_step(16, 100), 8);
    assert_eq!(growth_step(17, 100), 8);
    assert_eq!(growth_step(0, 100), 1);
    assert_eq!(growth_step(1, 100), 1);
    assert_eq!(growth_step(100, 3), 3);
}

#[test]
fn depth_stays_within_twice_the_logarithm() {
    for n in [1usize, 2, 3, 7, 8, 100, 1000] {
        let mut tree = Tree::new(0, n);
        for a in 0..n as i32 {
            tree.insert(a);
        }
        assert!(max_depth(&tree, tree.root) <= 2 * ceil_log2(n + 1));
        let mut tree = Tree::new(0, n);
        for a in (0..n as i32).rev() {
            tree.insert(a);
        }
        assert!(max_depth(&tree, tree.root) <= 2 * ceil_log2(n + 1));
    }
}

#[test]
fn sorted_array_gives_back_the_array() {
    for n in 0..200 {
        let list: Vec<i32> = (0..n).map(|a| 3 * a - 50).collect();
        let tree = Tree::with_sorted_array(0, &list, 0);
        assert_eq!(tree.ordered_list(), list);
        assert_sound(&tree);
        assert_eq!(walk(&tree), list);
        assert!(max_depth(&tree, tree.root) <= 2 * ceil_log2(list.len() + 1));
    }
}

#[test]
fn sorted_array_lays_the_middle_at_the_root() {
    let list = vec![10, 20, 30, 40, 50, 60, 70];
    let tree = Tree::with_sorted_array(0, &list, 4);
    let root = tree.node(tree.root);
    assert_eq!(tree.root, 1);
    assert_eq!(root.value, 40);
    assert!(root.color == Color::Black);
    assert_eq!(tree.node(root.left).value, 20);
    assert!(tree.node(root.left).color == Color::Red);
    assert_eq!(tree.node(root.right).value, 60);
    assert_eq!(tree.node(tree.node(root.left).left).value, 10);
    assert!(tree.node(tree.node(root.left).left).color == Color::Black);
}

#[test]
fn walk_visits_every_value_once_in_order() {
    let mut tree = Tree::new(0, 8);
    assert_eq!(tree.first_by_order(), EMPTY_REF);
    let values = [15, 3, 9, 27, 1, 8, 44, 12, 30, 2, 7];
    for a in values {
        tree.insert(a);
    }
    let mut sorted = values.to_vec();
    sorted.sort();
    assert_eq!(walk(&tree), sorted);
    let last = tree.find_index(44);
    assert_eq!(tree.next_by_order(last), EMPTY_REF);
    let first = tree.first_by_order();
    assert_eq!(tree.node(first).value, 1);
    assert_eq!(tree.find_left_minimum(tree.root), first);
    assert_eq!(tree.find_left_minimum(EMPTY_REF), EMPTY_REF);
}

#[test]
fn insert_if_not_exist_tells_what_it_did() {
    let mut tree = Tree::new(0, 8);
    assert!(tree.insert_if_not_exist(5));
    assert!(tree.insert_if_not_exist(7));
    assert!(!tree.insert_if_not_exist(5));
    assert_eq!(tree.ordered_list(), vec![5, 7]);
    assert!(tree.insert_if_not_exist(6));
    assert_eq!(tree.ordered_list(), vec![5, 6, 7]);
}

#[test]
fn delete_if_exist_leaves_other_values() {
    let mut tree = Tree::new(0, 8);
    for a in [5, 7, 9] {
        tree.insert(a);
    }
    tree.delete_if_exist(6);
    assert_eq!(tree.ordered_list(), vec![5, 7, 9]);
    tree.delete_if_exist(7);
    assert_eq!(tree.ordered_list(), vec![5, 9]);
    assert_eq!(tree.find(7), None);
    assert_eq!(tree.find(9), Some(9));
    assert_eq!(tree.find_index(7), EMPTY_REF);
}

#[test]
fn delete_index_tells_where_to_go_on() {
    // a node with one child at most: the parent, or the root for the root
    let mut tree = Tree::new(0, 8);
    for a in [40, 20, 60, 10] {
        tree.insert(a);
    }
    let leaf = tree.find_index(10);
    let parent = tree.node(leaf).parent;
    assert_eq!(tree.delete_index(leaf), parent);
    // a node with two children keeps its handle and takes the value of its successor
    let mut tree = Tree::new(0, 8);
    for a in [40, 20, 60, 10, 30, 50, 70] {
        tree.insert(a);
    }
    let inner = tree.find_index(20);
    assert_eq!(tree.delete_index(inner), inner);
    assert_eq!(tree.node(inner).value, 30);
    assert_eq!(tree.ordered_list(), vec![10, 30, 40, 50, 60, 70]);
    // the root with two children: the root
    let root = tree.root;
    let next = tree.delete_index(root);
    assert_eq!(next, tree.root);
    assert_eq!(tree.ordered_list(), vec![10, 30, 50, 60, 70]);
    assert_sound(&tree);
    // the last node: none
    let mut tree = Tree::new(0, 8);
    tree.insert(1);
    let root = tree.root;
    assert_eq!(tree.delete_index(root), EMPTY_REF);
    assert!(tree.is_empty());
}

#[test]
fn a_freed_handle_is_the_next_to_be_used() {
    let mut tree = Tree::new(0, 8);
    for a in [40, 20, 60] {
        tree.insert(a);
    }
    let freed = tree.find_index(60);
    tree.delete(60);
    tree.insert(50);
    assert_eq!(tree.find_index(50), freed);
    assert_eq!(tree.store.get_free_index(), 4);
    tree.store.put_back(4);
    assert_eq!(tree.store.get_free_index(), 4);
}

#[test]
fn the_arena_grows_when_it_is_used_up() {
    let mut tree = Tree::new(0, 0);
    for a in 0..1000 {
        tree.insert(a);
    }
    assert_eq!(tree.ordered_list(), (0..1000).collect::<Vec<i32>>());
    assert_sound(&tree);
    for a in 0..1000 {
        tree.delete(a);
        assert_eq!(tree.find(a), None);
    }
    assert!(tree.is_empty());
}

#[test]
fn clear_all_gives_every_node_back() {
    let mut tree = Tree::new(0, 8);
    for a in 0..7 {
        tree.insert(a);
    }
    tree.clear_all();
    assert!(tree.is_empty());
    assert_eq!(tree.ordered_list(), Vec::<i32>::new());
    assert_eq!(tree.height(), 0);
    // all seven slots are free again: seven inserts take the handles 1 to 7
    for a in 0..7 {
        tree.insert(a);
    }
    let mut handles: Vec<u32> = (0..7).map(|a| tree.find_index(a)).collect();
    handles.sort();
    assert_eq!(handles, vec![1, 2, 3, 4, 5, 6, 7]);
    tree.clear_all();
    tree.clear_all();
    assert!(tree.is_empty());
}

#[test]
fn height_is_twice_the_blacks_on_the_left() {
    let mut tree = Tree::new(0, 8);
    assert_eq!(tree.height(), 0);
    tree.insert(1);
    assert_eq!(tree.height(), 2);
    tree.insert(0);
    assert_eq!(tree.height(), 2);
    assert_eq!(tree.height(), 2 * black_height(&tree, tree.root).unwrap());
    for a in 2..16 {
        tree.insert(a);
    }
    let blacks = black_height(&tree, tree.node(tree.root).left).unwrap();
    assert_eq!(tree.height(), 2 * (1 + blacks));
}

#[test]
fn fill_ordered_list_empties_the_list_first() {
    let mut tree = Tree::new(0, 8);
    let mut list = vec![9, 9, 9];
    tree.fill_ordered_list(&mut list);
    assert_eq!(list, Vec::<i32>::new());
    for a in [3, 1, 2] {
        tree.insert(a);
    }
    let mut list = vec![9, 9, 9, 9, 9];
    tree.fill_ordered_list(&mut list);
    assert_eq!(list, vec![1, 2, 3]);
    let mut stack: Vec<StackNode> = Vec::new();
    tree.fill_ordered_list_with_stack(&mut list, &mut stack);
    assert_eq!(list, vec![1, 2, 3]);
    assert!(stack.is_empty());
}

#[test]
fn insert_root_and_insert_with_parent_by_hand() {
    let mut tree = Tree::new(0, 8);
    tree.insert_root(10);
    assert!(tree.node(tree.root).color == Color::Black);
    let root = tree.root;
    let left = tree.insert_with_parent(5, root, true);
    let right = tree.insert_with_parent(15, root, false);
    assert!(tree.node(left).color == Color::Red);
    assert_eq!(tree.node(root).left, left);
    assert_eq!(tree.node(root).right, right);
    // under a red parent the colours are mended
    let low = tree.insert_with_parent(1, left, true);
    assert_eq!(tree.node(low).value, 1);
    assert_eq!(tree.ordered_list(), vec![1, 5, 10, 15]);
    assert_sound(&tree);
}

#[test]
fn is_black_counts_a_missing_node_as_black() {
    let mut tree = Tree::new(0, 8);
    assert!(tree.is_black(EMPTY_REF));
    tree.insert(1);
    tree.insert(2);
    assert!(tree.is_black(tree.root));
    assert!(!tree.is_black(tree.node(tree.root).right));
    tree.mut_node(tree.node(tree.root).right).color = Color::Black;
    assert!(tree.is_black(tree.node(tree.root).right));
}
