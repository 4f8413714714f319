use i_float::int::point::IntPoint;
use i_float::triangle::Triangle;
use i_tree::node::{Color, EMPTY_REF};
use i_tree::tree::Tree;
use rand::Rng;
use std::collections::HashSet;

type Point = IntPoint<i32>;

#[derive(Debug, PartialEq, Clone)]
struct Segment {
    a: Point,
    b: Point,
    is_vertical: bool,
}

impl Segment {
    fn new(a: Point, b: Point) -> Self {
        assert!(a.x <= b.x);
        Segment { a, b, is_vertical: a.x == b.x }
    }

    fn is_under(&self, p: &Point) -> bool {
        assert!(self.a.x <= p.x && p.x <= self.b.x);
        assert!(p != &self.a && p != &self.b);
        Triangle::is_clockwise(self.a, p.clone(), self.b)
    }

    fn is_under_segment(&self, other: &Segment) -> bool {
        if self.a == other.a {
            Triangle::is_clockwise(self.a, other.b, self.b)
        } else if self.a.x < other.a.x {
            Triangle::is_clockwise(self.a, other.a, self.b)
        } else {
            Triangle::is_clockwise(other.a, other.b, self.a)
        }
    }
}

#[derive(Debug, PartialEq, Clone)]
struct IdSegment {
    index: usize,
    segment: Segment,
}

impl PartialOrd for IdSegment {
    fn partial_cmp(&self, other: &Self) -> Option<std::cmp::Ordering> {
        if self.segment.is_under_segment(&other.segment) {
            Some(std::cmp::Ordering::Less)
        } else {
            Some(std::cmp::Ordering::Greater)
        }
    }
}

impl Eq for IdSegment {}

impl Ord for IdSegment {
    fn cmp(&self, other: &Self) -> std::cmp::Ordering {
        self.partial_cmp(other).unwrap()
    }
}

struct DirectScan {
    buffer: Vec<IdSegment>,
}

impl DirectScan {
    fn new() -> Self {
        DirectScan { buffer: Vec::new() }
    }

    fn insert(&mut self, item: IdSegment) {
        self.buffer.push(item);
    }

    fn find_under(&mut self, p: &Point, stop: i32) -> Option<IdSegment> {
        let mut i = 0;
        let mut result: Option<IdSegment> = None;
        while i < self.buffer.len() {
            if self.buffer[i].segment.b.x <= stop {
                self.buffer.smart_remove(i)
            } else {
                let segment = &self.buffer[i].segment;
                if segment.is_under(&p) {
                    if let Some(best_seg) = &result {
                        if best_seg.segment.is_under_segment(segment) {
                            result = Some(self.buffer[i].clone());
                        }
                    } else {
                        result = Some(self.buffer[i].clone());
                    }
                }

                i += 1
            }
        }

        result
    }
}

trait SmartRemove {
    fn smart_remove(&mut self, index: usize);
}

impl<T> SmartRemove for Vec<T> {
    fn smart_remove(&mut self, index: usize) {
        if self.len() >= index {
            self.swap_remove(index);
        } else {
            _ = self.pop()
        }
    }
}

struct DirectPointSolver;

impl DirectPointSolver {
    fn run(items: &Vec<IdSegment>, points: &Vec<Point>) -> Vec<usize> {
        let mut scan_list = DirectScan::new();

        let mut result = Vec::with_capacity(items.len());

        let mut i = 0;
        for p in points {
            while i < items.len() && items[i].segment.a.x <= p.x {
                if !items[i].segment.is_vertical && items[i].segment.b.x > p.x {
                    scan_list.insert(items[i].clone())
                }
                i += 1
            }

            if let Some(seg) = scan_list.find_under(p, p.x) {
                result.push(seg.index);
            } else {
                result.push(usize::MAX);
            }
        }

        result
    }
}

struct TreeScan {
    tree: Tree<IdSegment>,
}

impl TreeScan {
    fn insert(&mut self, item: IdSegment, stop: i32) {
        let mut index = self.tree.root;
        let mut p_index = EMPTY_REF;
        let mut is_left = false;

        while index != EMPTY_REF {
            let node = self.tree.node(index);
            p_index = index;
            if node.value.segment.b.x <= stop {
                let n_parent = node.parent;
                _ = self.tree.delete_index(index);
                if n_parent != EMPTY_REF {
                    index = n_parent;
                } else {
                    index = self.tree.root;
                    p_index = EMPTY_REF;
                }
            } else {
                is_left = item < node.value;
                if is_left {
                    index = node.left;
                } else {
                    index = node.right;
                }
            }
        }

        let new_index = self.tree.store.get_free_index();
        let new_node = self.tree.mut_node(new_index);
        new_node.left = EMPTY_REF;
        new_node.right = EMPTY_REF;
        new_node.color = Color::Red;
        new_node.value = item;
        new_node.parent = p_index;

        if p_index == EMPTY_REF {
            self.tree.root = new_index;
        } else {
            if is_left {
                self.tree.mut_node(p_index).left = new_index;
            } else {
                self.tree.mut_node(p_index).right = new_index;
            }

            if self.tree.node(p_index).color == Color::Red {
                self.tree.fix_red_black_properties_after_insert(new_index, p_index);
            }
        }
    }

    fn find_under(&mut self, p: &Point, stop: i32) -> Option<IdSegment> {
        let mut index = self.tree.root;
        let mut result: u32 = EMPTY_REF;
        while index != EMPTY_REF {
            let node = self.tree.node(index);
            if node.value.segment.b.x <= stop {
                let n_parent = node.parent;
                _ = self.tree.delete_index(index);
                if n_parent != EMPTY_REF {
                    index = n_parent;
                } else {
                    index = self.tree.root;
                }
            } else {
                if node.value.segment.is_under(p) {
                    result = index;
                    index = node.right;
                } else {
                    index = node.left;
                }
            }
        }

        if result == EMPTY_REF {
            None
        } else {
            Some(self.tree.node(result).value.clone())
        }
    }
}

struct TreePointSolver;

impl TreePointSolver {
    fn run(items: &Vec<IdSegment>, points: &Vec<Point>) -> Vec<usize> {
        let mut scan_list = TreeScan {
            tree: Tree::new(
                IdSegment { index: 0, segment: Segment::new(Point::new(0, 0), Point::new(0, 0)) },
                points.len(),
            ),
        };

        let mut result = Vec::with_capacity(items.len());

        let mut i = 0;
        for p in points.iter() {
            while i < items.len() && items[i].segment.a.x <= p.x {
                if !items[i].segment.is_vertical && items[i].segment.b.x > p.x {
                    scan_list.insert(items[i].clone(), p.x);
                }
                i += 1;
            }

            if let Some(seg) = scan_list.find_under(p, p.x) {
                result.push(seg.index);
            } else {
                result.push(usize::MAX);
            }
        }

        result
    }
}

enum CrossType {
    Pure,
    Overlap,
    SameEnd,
    NotCross,
    Equal,
}

struct RandomEdge {
    a: Point,
    b: Point,
}

impl RandomEdge {
    fn sqr_length(&self) -> i64 {
        let dx = (self.a.x - self.b.x) as i64;
        let dy = (self.a.y - self.b.y) as i64;
        dx * dx + dy * dy
    }
}

struct CrossSolver;

impl CrossSolver {
    fn is_cross_edge(e0: &RandomEdge, e1: &RandomEdge) -> CrossType {
        Self::is_cross(e0.a, e0.b, e1.a, e1.b)
    }

    fn is_cross(a0: Point, b0: Point, a1: Point, b1: Point) -> CrossType {
        // box cross

        // all x from 1 is less all x from 0
        let boundary_test = a1.x < a0.x && b1.x < a0.x && a1.x < b0.x && b1.x < b0.x
            // all x from 0 is less all x from 1
            || a0.x < a1.x && b0.x < a1.x && a0.x < b1.x && b0.x < b1.x
            // all y from 1 is less all y from 0
            || a1.y < a0.y && b1.y < a0.y && a1.y < b0.y && b1.y < b0.y
            // all y from 0 is less all y from 1
            || a0.y < a1.y && b0.y < a1.y && a0.y < b1.y && b0.y < b1.y;

        if boundary_test {
            return CrossType::NotCross;
        }

        // cross

        let a0b0a1 = Triangle::clock_direction(a0, b0, a1);
        let a0b0b1 = Triangle::clock_direction(a0, b0, b1);

        let a1b1a0 = Triangle::clock_direction(a1, b1, a0);
        let a1b1b0 = Triangle::clock_direction(a1, b1, b0);

        let is_end0 = a0 == a1 || a0 == b1;
        let is_end1 = b0 == a1 || b0 == b1;

        if is_end0 && is_end1 {
            return CrossType::Equal;
        }

        let is_collinear = a0b0a1 == 0 && a0b0b1 == 0 && a1b1a0 == 0 && a1b1b0 == 0;

        if (is_end0 || is_end1) && is_collinear {
            let dot_product = if is_end0 {
                let e = if a0 == a1 { b1 } else { a1 };
                (a0 - b0).dot_product(a0 - e)
            } else {
                let e = if b0 == a1 { b1 } else { a1 };
                (b0 - a0).dot_product(b0 - e)
            };

            return if dot_product < 0 { CrossType::SameEnd } else { CrossType::Overlap };
        } else if is_collinear {
            return CrossType::Overlap;
        } else if is_end0 || is_end1 {
            return CrossType::SameEnd;
        }

        let not_same0 = a0b0a1 != a0b0b1;
        let not_same1 = a1b1a0 != a1b1b0;

        if not_same0 && not_same1 {
            CrossType::Pure
        } else {
            CrossType::NotCross
        }
    }

    fn random_segments(
        range: std::ops::Range<i32>,
        length: std::ops::Range<i32>,
        count: usize,
    ) -> Vec<RandomEdge> {
        let mut result = Vec::with_capacity(count);

        let min_sqr_length = (length.start as i64) * (length.start as i64);
        let max_sqr_length = (length.end as i64) * (length.end as i64);
        let sqr_length = min_sqr_length..max_sqr_length;

        for _ in 0..count {
            let mut not_find = true;
            let mut e = Self::random_edge(range.clone(), sqr_length.clone());
            while not_find {
                not_find = false;
                'outer: for ei in result.iter() {
                    match Self::is_cross_edge(&e, ei) {
                        CrossType::Pure | CrossType::Overlap | CrossType::Equal => {
                            not_find = true;
                            e = Self::random_edge(range.clone(), sqr_length.clone());
                            break 'outer;
                        }
                        _ => {
                            not_find = false;
                        }
                    }
                }
            }

            result.push(e);
        }

        result
    }

    fn random_edge(
        range: std::ops::Range<i32>,
        sqr_length_range: std::ops::Range<i64>,
    ) -> RandomEdge {
        let mut rng = rand::thread_rng();

        let x0 = rng.gen_range(range.clone());
        let y0 = rng.gen_range(range.clone());
        let mut x1 = rng.gen_range(range.clone());
        let mut y1 = rng.gen_range(range.clone());

        let mut edge = RandomEdge { a: Point::new(x0, y0), b: Point::new(x1, y1) };

        let mut sqr_length = edge.sqr_length();

        while sqr_length_range.contains(&sqr_length) {
            x1 = rng.gen_range(range.clone());
            y1 = rng.gen_range(range.clone());
            edge = RandomEdge { a: Point::new(x0, y0), b: Point::new(x1, y1) };
            sqr_length = edge.sqr_length()
        }

        edge
    }
}

#[test]
fn edge_tests_test_00() {
    let edges = vec![
        IdSegment { index: 1, segment: Segment::new(Point { x: 3, y: 3 }, Point { x: 4, y: 2 }) },
        IdSegment { index: 0, segment: Segment::new(Point { x: 4, y: 1 }, Point { x: 6, y: 7 }) },
        IdSegment { index: 2, segment: Segment::new(Point { x: 5, y: 1 }, Point { x: 6, y: 0 }) },
    ];

    let points = vec![Point { x: 3, y: 7 }, Point { x: 5, y: 7 }];
    let result0 = DirectPointSolver::run(&edges, &points);
    let result1 = TreePointSolver::run(&edges, &points);

    assert_eq!(result0, result1);
}

#[test]
fn edge_tests_test_01() {
    let edges = vec![
        IdSegment { index: 0, segment: Segment::new(Point { x: 1, y: 5 }, Point { x: 1, y: 6 }) },
        IdSegment { index: 1, segment: Segment::new(Point { x: 1, y: 5 }, Point { x: 6, y: 0 }) },
        IdSegment { index: 2, segment: Segment::new(Point { x: 1, y: 3 }, Point { x: 2, y: 2 }) },
        IdSegment { index: 3, segment: Segment::new(Point { x: 4, y: 4 }, Point { x: 5, y: 5 }) },
    ];

    let points = vec![Point { x: 1, y: 7 }];
    let result0 = DirectPointSolver::run(&edges, &points);
    let result1 = TreePointSolver::run(&edges, &points);

    assert_eq!(result0, result1);
}

#[test]
fn edge_tests_test_02() {
    let edges = vec![
        IdSegment { index: 3, segment: Segment::new(Point { x: 0, y: 3 }, Point { x: 7, y: 6 }) },
        IdSegment { index: 5, segment: Segment::new(Point { x: 0, y: 5 }, Point { x: 0, y: 5 }) },
        IdSegment { index: 2, segment: Segment::new(Point { x: 1, y: 0 }, Point { x: 7, y: 5 }) },
        IdSegment { index: 4, segment: Segment::new(Point { x: 1, y: 4 }, Point { x: 2, y: 4 }) },
        IdSegment { index: 7, segment: Segment::new(Point { x: 1, y: 4 }, Point { x: 2, y: 5 }) },
        IdSegment { index: 6, segment: Segment::new(Point { x: 2, y: 2 }, Point { x: 2, y: 2 }) },
        IdSegment { index: 0, segment: Segment::new(Point { x: 3, y: 3 }, Point { x: 4, y: 4 }) },
        IdSegment { index: 1, segment: Segment::new(Point { x: 3, y: 3 }, Point { x: 4, y: 3 }) },
    ];

    let points = vec![
        Point { x: 2, y: 1 },
        Point { x: 3, y: 1 },
        Point { x: 6, y: 5 },
        Point { x: 6, y: 4 },
        Point { x: 6, y: 0 },
    ];
    let result0 = DirectPointSolver::run(&edges, &points);
    let result1 = TreePointSolver::run(&edges, &points);

    assert_eq!(result0, result1);
}

#[test]
fn edge_tests_test_single_random() {
    let edges = random_edges(0..10, 2..6, 20);
    let points = random_points(0..10, 20, &edges);

    let result0 = DirectPointSolver::run(&edges, &points);
    let result1 = TreePointSolver::run(&edges, &points);

    assert_eq!(result0, result1, "Edges: {:?}\nPoints: {:?}", edges, points);
}

#[test]
fn edge_tests_test_small_random() {
    for _ in 0..10000 {
        let edges = random_edges(0..8, 2..6, 8);
        let points = random_points(0..8, 5, &edges);

        let result0 = DirectPointSolver::run(&edges, &points);
        let result1 = TreePointSolver::run(&edges, &points);

        let is_equal = result0 == result1;
        if !is_equal {
            assert_eq!(result0, result1, "Edges: {:?}\nPoints: {:?}", edges, points);
        }
    }
}

fn random_edges(
    range: std::ops::Range<i32>,
    length: std::ops::Range<i32>,
    count: usize,
) -> Vec<IdSegment> {
    let list = CrossSolver::random_segments(range, length, count);
    let mut result = Vec::with_capacity(list.len());

    for i in 0..list.len() {
        let e = &list[i];
        let segment = if e.a.x <= e.b.x { Segment::new(e.a, e.b) } else { Segment::new(e.b, e.a) };
        result.push(IdSegment { index: i, segment });
    }

    result.sort_by(|s0, s1| s0.segment.a.x.cmp(&s1.segment.a.x));

    result
}

fn random_points(range: std::ops::Range<i32>, count: usize, exclude: &Vec<IdSegment>) -> Vec<Point> {
    let mut p_set: HashSet<Point> = HashSet::with_capacity(2 * exclude.len());
    for e in exclude.iter() {
        p_set.insert(e.segment.a.clone());
        p_set.insert(e.segment.b.clone());
    }

    let mut rng = rand::thread_rng();
    let mut result = Vec::with_capacity(count);

    while result.len() < count {
        let p = Point { x: rng.gen_range(range.clone()), y: rng.gen_range(range.clone()) };
        if !p_set.contains(&p) {
            p_set.insert(p);
            result.push(p);
        }
    }

    result.sort_by(|a, b| a.x.cmp(&b.x));
    result
}
