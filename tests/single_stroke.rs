use maze_gen::random::{bit_of_draw, random_bool};
use maze_gen::shape::Point;
use maze_gen::single_stroke::{single_stroke_from_tree, single_stroke_maze, Offset};
use std::collections::{HashMap, HashSet, VecDeque};

fn p(x: usize, y: usize) -> Point {
    Point::new(x, y)
}

fn is_unit(a: &Point, b: &Point) -> bool {
    (a.x == b.x && (a.y + 1 == b.y || b.y + 1 == a.y)) || (a.y == b.y && (a.x + 1 == b.x || b.x + 1 == a.x))
}

fn check_stroke(width: usize, height: usize) {
    let edges = single_stroke_maze(width, height);
    assert!(!edges.is_empty());
    let mut points = HashSet::new();
    for (a, b) in &edges {
        assert!(is_unit(a, b));
        assert!(a.x <= height && a.y <= width);
        assert!(b.x <= height && b.y <= width);
        points.insert((a.x, a.y));
        points.insert((b.x, b.y));
    }
    assert_eq!((width + 1) * (height + 1), points.len());
}

#[test]
fn one_cell_single_stroke_is_empty() {
    assert!(single_stroke_maze(1, 1).is_empty());
}

#[test]
fn rejected_single_stroke_sizes_are_empty() {
    assert!(single_stroke_maze(3, 3).is_empty());
    assert!(single_stroke_maze(5, 7).is_empty());
    assert!(single_stroke_maze(1, 4).is_empty());
    assert!(single_stroke_maze(0, 6).is_empty());
}

#[test]
fn two_by_two_is_all_fill() {
    let edges = single_stroke_maze(2, 2);
    assert_eq!(8, edges.len());
    assert_eq!((p(0, 0), p(0, 1)), edges[0]);
    assert_eq!((p(0, 0), p(1, 0)), edges[1]);
    assert_eq!((p(0, 1), p(0, 2)), edges[2]);
    assert_eq!((p(0, 1), p(1, 1)), edges[3]);
}

#[test]
fn three_by_two_has_cap_fill_and_join() {
    let edges = single_stroke_maze(3, 2);
    assert_eq!((p(1, 1), p(1, 2)), edges[0]);
    assert_eq!(11, edges.len());
    for (_, b) in &edges[1..10] {
        assert!(*b != p(1, 1) && *b != p(1, 2));
    }
    assert_eq!((p(0, 1), p(1, 1)), edges[10]);
}

#[test]
fn single_stroke_touches_every_point() {
    for &(w, h) in &[(2, 2), (3, 2), (4, 5), (10, 7), (21, 10), (30, 31), (8, 8)] {
        check_stroke(w, h);
    }
}

fn is_connected(edges: &[(Point, Point)]) -> bool {
    let mut adjacent: HashMap<(usize, usize), Vec<(usize, usize)>> = HashMap::new();
    for (a, b) in edges {
        adjacent.entry((a.x, a.y)).or_default().push((b.x, b.y));
        adjacent.entry((b.x, b.y)).or_default().push((a.x, a.y));
    }
    let start = match adjacent.keys().next() {
        Some(k) => *k,
        None => return true,
    };
    let mut seen: HashSet<(usize, usize)> = HashSet::new();
    let mut queue = VecDeque::new();
    seen.insert(start);
    queue.push_back(start);
    while let Some(v) = queue.pop_front() {
        for n in &adjacent[&v] {
            if seen.insert(*n) {
                queue.push_back(*n);
            }
        }
    }
    seen.len() == adjacent.len()
}

#[test]
fn single_stroke_is_one_connected_piece() {
    for &(w, h) in &[(2, 2), (3, 2), (4, 5), (10, 7), (12, 9), (21, 10), (30, 31), (8, 8)] {
        assert!(is_connected(&single_stroke_maze(w, h)));
    }
}

#[test]
fn stroke_from_fixed_tree_zero_offset() {
    let tree = vec![(0, 2)];
    let edges = single_stroke_from_tree(4, 3, &tree, Offset::Zero);
    assert_eq!(
        vec![(p(1, 1), p(1, 2)), (p(1, 2), p(1, 3)), (p(1, 1), p(2, 1)), (p(1, 3), p(2, 3))],
        edges[..4].to_vec()
    );
    assert_eq!((p(0, 0), p(0, 1)), edges[4]);
    assert!(is_connected(&edges));
}

#[test]
fn stroke_from_fixed_tree_one_offset() {
    let tree = vec![(0, 2)];
    let edges = single_stroke_from_tree(4, 3, &tree, Offset::One);
    assert_eq!(
        vec![(p(2, 1), p(2, 2)), (p(2, 2), p(2, 3)), (p(1, 1), p(2, 1)), (p(1, 3), p(2, 3))],
        edges[..4].to_vec()
    );
}

#[test]
fn stroke_from_fixed_tree_down() {
    let tree = vec![(0, 2)];
    let edges = single_stroke_from_tree(2, 4, &tree, Offset::One);
    assert_eq!(vec![(p(1, 1), p(2, 1)), (p(2, 1), p(3, 1))], edges[..2].to_vec());
    assert_eq!((p(0, 0), p(0, 1)), edges[2]);
}

#[test]
fn bit_of_draw_takes_lowest_bit() {
    assert!(bit_of_draw(Some(1)));
    assert!(bit_of_draw(Some(255)));
    assert!(!bit_of_draw(Some(0)));
    assert!(!bit_of_draw(Some(128)));
    assert!(!bit_of_draw(None));
}

#[test]
fn random_bool_gives_both_values() {
    let mut seen_true = false;
    let mut seen_false = false;
    for _ in 0..200 {
        if random_bool() {
            seen_true = true;
        } else {
            seen_false = true;
        }
    }
    assert!(seen_true && seen_false);
}
