use i_tree::node::{Color, EMPTY_REF};
use i_tree::tree::Tree;
use rand::Rng;
use std::cmp::Ordering;
use std::collections::{HashMap, HashSet};

#[derive(Debug, PartialEq, Clone)]
struct TimeIntervalValue {
    value: i32,
    start: i32,
    end: i32,
}

impl PartialOrd<Self> for TimeIntervalValue {
    fn partial_cmp(&self, other: &Self) -> Option<Ordering> {
        if self.value < other.value {
            Some(Ordering::Less)
        } else {
            Some(Ordering::Greater)
        }
    }
}

impl Eq for TimeIntervalValue {}

impl Ord for TimeIntervalValue {
    fn cmp(&self, other: &Self) -> std::cmp::Ordering {
        if self.value < other.value {
            Ordering::Less
        } else {
            Ordering::Greater
        }
    }
}

#[derive(Debug, PartialEq, Eq, Hash, Clone)]
struct TimeValue {
    value: i32,
    time: i32,
}

struct DirectScan {
    buffer: Vec<TimeIntervalValue>,
}

impl DirectScan {
    fn new() -> Self {
        DirectScan { buffer: Vec::new() }
    }

    fn insert(&mut self, item: TimeIntervalValue) {
        self.buffer.push(item);
    }

    fn find_equal_or_lower(&mut self, t: &TimeValue) -> i32 {
        let mut i = 0;
        let mut result = i32::MIN;
        while i < self.buffer.len() {
            if self.buffer[i].end <= t.time {
                self.buffer.smart_remove(i);
            } else {
                let value = self.buffer[i].value;
                if value == t.value {
                    return value;
                } else if value < t.value {
                    result = value.max(result);
                }

                i += 1
            }
        }

        result
    }
}

trait SmartRemove {
    fn smart_remove(&mut self, index: usize);
}

impl<T> SmartRemove for Vec<T> {
    fn smart_remove(&mut self, index: usize) {
        if self.len() >= index {
            self.swap_remove(index);
        } else {
            _ = self.pop()
        }
    }
}

struct DirectTimeSolver;

impl DirectTimeSolver {
    fn run(items: &[TimeIntervalValue], times: &[TimeValue]) -> Vec<i32> {
        let mut scan_list = DirectScan::new();

        let mut result = Vec::with_capacity(items.len());
        let mut i = 0;
        for t in times {
            while i < items.len() && items[i].start <= t.time {
                if items[i].end > t.time {
                    scan_list.insert(items[i].clone());
                }
                i += 1
            }

            result.push(scan_list.find_equal_or_lower(t))
        }

        result
    }
}

struct TreeTimeScan {
    tree: Tree<TimeIntervalValue>,
}

impl TreeTimeScan {
    fn new() -> Self {
        let tree = Tree::new(
            TimeIntervalValue {
                value: 0,
                start: 0,
                end: 0,
            },
            16,
        );

        Self { tree }
    }

    fn insert(&mut self, item: TimeIntervalValue, stop: i32) {
        let mut index = self.tree.root;
        let mut p_index = EMPTY_REF;
        let mut is_left = false;

        while index != EMPTY_REF {
            let node = self.tree.node(index);
            p_index = index;
            if node.value.end <= stop {
                index = self.tree.delete_index(index);
                p_index = EMPTY_REF;
            } else {
                is_left = item < node.value;
                if is_left {
                    index = node.left;
                } else {
                    index = node.right;
                }
            }
        }

        let new_index = self.tree.store.get_free_index();

        let new_node = self.tree.mut_node(new_index);
        new_node.left = EMPTY_REF;
        new_node.right = EMPTY_REF;
        new_node.color = Color::Red;
        new_node.value = item;
        new_node.parent = p_index;

        if p_index == EMPTY_REF {
            new_node.parent = EMPTY_REF;
            self.tree.root = new_index;
        } else {
            new_node.parent = p_index;

            let parent = self.tree.mut_node(p_index);
            if is_left {
                parent.left = new_index;
            } else {
                parent.right = new_index;
            }

            if parent.color == Color::Red {
                self.tree.fix_red_black_properties_after_insert(new_index, p_index);
            }
        }
    }

    fn find_equal_or_lower(&mut self, t: &TimeValue) -> i32 {
        let index = self.find_equal_or_lower_index(t);
        if index != EMPTY_REF {
            self.tree.node(index).value.value
        } else {
            i32::MIN
        }
    }

    fn find_equal_or_lower_index(&mut self, t: &TimeValue) -> u32 {
        let mut index = self.tree.root;
        let mut result = EMPTY_REF;
        while index != EMPTY_REF {
            let node = self.tree.node(index);
            if node.value.end <= t.time {
                index = self.tree.delete_index(index);
            } else {
                if node.value.value == t.value {
                    return index;
                } else if node.value.value < t.value {
                    result = index;
                    index = node.right;
                } else {
                    index = node.left;
                }
            }
        }

        return result;
    }
}

struct TreeTimeSolver;

impl TreeTimeSolver {
    fn run(items: &[TimeIntervalValue], times: &[TimeValue]) -> Vec<i32> {
        let mut scan_list = TreeTimeScan::new();

        let mut result = Vec::with_capacity(items.len());

        let mut i = 0;
        for t in times {
            while i < items.len() && items[i].start <= t.time {
                if items[i].end > t.time {
                    scan_list.insert(items[i].clone(), t.time);
                }
                i += 1
            }

            result.push(scan_list.find_equal_or_lower(t))
        }

        result
    }
}

struct TimeValueGenerator;

impl TimeValueGenerator {
    fn random_time_values(
        range: &std::ops::Range<i32>,
        time: &std::ops::Range<i32>,
        count: usize,
    ) -> Vec<TimeValue> {
        let mut result = Vec::with_capacity(count);

        let mut rng = rand::thread_rng();

        for _ in 0..count {
            let value = rng.gen_range(range.clone());
            let t = rng.gen_range(time.clone());
            result.push(TimeValue { value, time: t })
        }

        result
    }

    fn random_time_ranges(
        range: &std::ops::Range<i32>,
        time: &std::ops::Range<i32>,
        count: usize,
    ) -> Vec<TimeIntervalValue> {
        let mut result = Vec::with_capacity(count);
        let mut rng = rand::thread_rng();
        for _ in 0..count {
            let value = rng.gen_range(range.clone());
            let t0 = rng.gen_range(time.clone());
            let t1 = rng.gen_range(time.clone());

            let start: i32;
            let end: i32;
            if t0 == t1 {
                start = t0;
                end = t0 + 1;
            } else if t0 < t1 {
                start = t0;
                end = t1;
            } else {
                start = t1;
                end = t0;
            }

            result.push(TimeIntervalValue { value, start, end })
        }

        result
    }
}

#[test]
fn time_tests_test_00() {
    let items = [
        TimeIntervalValue { value: 2, start: 0, end: 4 },
        TimeIntervalValue { value: 6, start: 0, end: 4 },
        TimeIntervalValue { value: 1, start: 0, end: 5 },
    ];

    let times = [
        TimeValue { value: 1, time: 2 },
        TimeValue { value: 5, time: 2 },
        TimeValue { value: 7, time: 4 },
    ];

    let result0 = DirectTimeSolver::run(&items, &times);
    let result1 = TreeTimeSolver::run(&items, &times);

    assert_eq!(result0, result1);
}

#[test]
fn time_tests_test_01() {
    let items = [
        TimeIntervalValue { value: 5, start: 1, end: 6 },
        TimeIntervalValue { value: 9, start: 2, end: 7 },
        TimeIntervalValue { value: 6, start: 3, end: 4 },
        TimeIntervalValue { value: 0, start: 3, end: 8 },
    ];

    let times = [TimeValue { value: 3, time: 3 }, TimeValue { value: 0, time: 6 }];

    let result0 = DirectTimeSolver::run(&items, &times);
    let result1 = TreeTimeSolver::run(&items, &times);

    assert_eq!(result0, result1);
}

#[test]
fn time_tests_test_02() {
    let items = [
        TimeIntervalValue { value: 5, start: 1, end: 7 },
        TimeIntervalValue { value: 7, start: 2, end: 6 },
        TimeIntervalValue { value: 0, start: 3, end: 6 },
        TimeIntervalValue { value: 3, start: 3, end: 5 },
        TimeIntervalValue { value: 0, start: 4, end: 5 },
    ];

    let times = [
        TimeValue { value: 7, time: 2 },
        TimeValue { value: 6, time: 4 },
        TimeValue { value: 6, time: 5 },
        TimeValue { value: 0, time: 5 },
        TimeValue { value: 3, time: 7 },
        TimeValue { value: 7, time: 7 },
    ];

    let result0 = DirectTimeSolver::run(&items, &times);
    let result1 = TreeTimeSolver::run(&items, &times);

    assert_eq!(result0, result1);
}

#[test]
fn time_tests_test_single_random() {
    let data = random_data(0..8, 0..8, 10);
    let result0 = DirectTimeSolver::run(&data.0, &data.1);
    let result1 = TreeTimeSolver::run(&data.0, &data.1);

    assert_eq!(result0, result1);
}

#[test]
fn time_tests_test_small_random() {
    for _ in 0..100000 {
        let data = random_data(0..8, 0..8, 3);
        let result0 = DirectTimeSolver::run(&data.0, &data.1);
        let result1 = TreeTimeSolver::run(&data.0, &data.1);

        assert_eq!(result0, result1);
    }
}

#[test]
fn test_big_random() {
    for _ in 0..10000 {
        let data = random_data(0..100, 0..100, 100);
        let result0 = DirectTimeSolver::run(&data.0, &data.1);
        let result1 = TreeTimeSolver::run(&data.0, &data.1);

        assert_eq!(result0, result1);
    }
}

fn random_data(
    range: std::ops::Range<i32>,
    time: std::ops::Range<i32>,
    count: usize,
) -> (Vec<TimeIntervalValue>, Vec<TimeValue>) {
    let r_values = TimeValueGenerator::random_time_ranges(&range, &time, count);
    let t_values = TimeValueGenerator::random_time_values(&range, &time, count);

    let mut map: HashMap<i32, Vec<TimeIntervalValue>> = HashMap::new();

    for r_value in r_values {
        map.entry(r_value.value).or_insert_with(Vec::new).push(r_value);
    }

    let mut ranges = Vec::new();
    for array in map.values() {
        let mut t = -1;
        for a in array {
            if a.start < t {
                ranges.push(a.clone());
                t = a.end;
            }
        }
    }

    let times: HashSet<_> = t_values.into_iter().collect();
    let mut times: Vec<_> = times.into_iter().collect();
    times.sort_by(|a, b| a.time.cmp(&b.time));

    (ranges, times)
}
