use i_tree::ord::list::SortedList;
use i_tree::ord::sort::SortedCollection;
use rand::prelude::SliceRandom;
use std::cmp::Ordering;

#[test]
fn sorted_list_keeps_the_keys_in_order() {
    let mut list = SortedList::new(4);
    assert!(list.is_empty());
    for key in [5, 1, 9, 3, 7] {
        list.insert(key, 10 * key);
    }
    assert!(!list.is_empty());
    for key in [1, 3, 5, 7, 9] {
        assert_eq!(list.get_value(key), Some(10 * key));
    }
    for key in [0, 2, 4, 6, 8, 10] {
        assert_eq!(list.get_value(key), None);
    }
}

#[test]
fn sorted_list_first_less_takes_the_key_or_the_one_below() {
    let mut list = SortedList::new(4);
    assert_eq!(list.first_less(3), None);
    for key in [20, 10, 30] {
        list.insert(key, key + 1);
    }
    assert_eq!(list.first_less(5), None);
    assert_eq!(list.first_less(10), Some(11));
    assert_eq!(list.first_less(15), Some(11));
    assert_eq!(list.first_less(20), Some(21));
    assert_eq!(list.first_less(29), Some(21));
    assert_eq!(list.first_less(30), Some(31));
    assert_eq!(list.first_less(1000), Some(31));
}

#[test]
fn sorted_list_first_less_by_follows_the_closure() {
    let mut list = SortedList::new(4);
    assert_eq!(list.first_less_by(|key: i32| key.cmp(&3)), None);
    for key in [20, 10, 30] {
        list.insert(key, key + 1);
    }
    assert_eq!(list.first_less_by(|key: i32| key.cmp(&5)), None);
    assert_eq!(list.first_less_by(|key: i32| key.cmp(&10)), Some(11));
    assert_eq!(list.first_less_by(|key: i32| key.cmp(&25)), Some(21));
    assert_eq!(list.first_less_by(|_key: i32| Ordering::Less), Some(31));
    assert_eq!(list.first_less_by(|_key: i32| Ordering::Greater), None);
}

#[test]
fn sorted_list_delete_takes_one_entry_out() {
    let mut list = SortedList::new(4);
    for key in [2, 1, 3] {
        list.insert(key, key);
    }
    list.delete(5);
    assert_eq!(list.get_value(2), Some(2));
    list.delete(2);
    assert_eq!(list.get_value(2), None);
    assert_eq!(list.get_value(1), Some(1));
    assert_eq!(list.get_value(3), Some(3));
    assert_eq!(list.first_less(2), Some(1));
    // an equal key stays beside the new one
    list.insert(3, 33);
    list.delete(3);
    assert!(list.get_value(3).is_some());
    list.delete(3);
    assert_eq!(list.get_value(3), None);
    list.clear();
    assert!(list.is_empty());
    assert_eq!(list.get_value(1), None);
    list.insert(4, 40);
    assert_eq!(list.get_value(4), Some(40));
}

#[test]
fn sorted_list_agrees_with_a_plain_scan() {
    let n = 100;
    let template: Vec<i32> = (1..n).collect();
    let mut rng = rand::thread_rng();
    for _ in 0..100 {
        let mut array: Vec<i32> = template.clone();
        array.shuffle(&mut rng);
        let mut list = SortedList::new(array.len());
        let mut seen: Vec<i32> = Vec::new();
        while let Some(val) = array.pop() {
            list.insert(val, val);
            seen.push(val);
            for i in 0..n {
                let below = seen.iter().filter(|&&k| k <= i).max().copied();
                assert_eq!(list.first_less(i), below);
                assert_eq!(list.get_value(i), if seen.contains(&i) { Some(i) } else { None });
            }
        }
    }
}
