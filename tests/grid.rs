use maze_gen::grid::{grid_edges, index_1d_to_2d, index_2d_to_1d};
use std::collections::HashSet;

fn expected_count(width: usize, height: usize, step: usize) -> usize {
    let w = (width - 1) / step + 1;
    let h = (height - 1) / step + 1;
    w * (h - 1) + h * (w - 1)
}

#[test]
fn grid_edges_count_ten_by_twenty() {
    let edges = grid_edges(10, 20, 1);
    assert_eq!(370, edges.len());
    assert_eq!(2 * 10 * 20 - 10 - 20, edges.len());
}

#[test]
fn grid_edges_counts_with_step() {
    for &(w, h, s) in &[(10, 20, 2), (50, 100, 7), (5, 10, 7), (1000, 1000, 13), (3, 3, 1), (7, 1, 2)] {
        assert_eq!(expected_count(w, h, s), grid_edges(w, h, s).len());
    }
}

#[test]
fn grid_edges_have_no_duplicates_or_loops() {
    for &(w, h, s) in &[(10, 20, 1), (10, 20, 2), (9, 4, 3)] {
        let edges = grid_edges(w, h, s);
        let set: HashSet<(usize, usize)> = edges.iter().cloned().collect();
        assert_eq!(set.len(), edges.len());
        for &(a, b) in &edges {
            assert!(a < b);
            assert!(b < w * h);
            let (ra, ca) = (a / w, a % w);
            let (rb, cb) = (b / w, b % w);
            assert_eq!(0, ra % s);
            assert_eq!(0, ca % s);
            assert!((ra == rb && cb == ca + s) || (ca == cb && rb == ra + s));
        }
    }
}

#[test]
fn grid_edges_single_node_is_empty() {
    assert!(grid_edges(1, 1, 1).is_empty());
    assert!(grid_edges(2, 10, 12).is_empty());
    assert!(grid_edges(0, 5, 1).is_empty());
}

#[test]
fn grid_edges_order_down_then_right() {
    assert_eq!(vec![(0, 2), (0, 1), (1, 3), (2, 3)], grid_edges(2, 2, 1));
}

#[test]
fn index_conversions() {
    assert_eq!(23, index_2d_to_1d(2, 3, 10));
    assert_eq!((2, 3), index_1d_to_2d(23, 10));
    assert_eq!((0, 0), index_1d_to_2d(0, 7));
    assert_eq!((4, 6), index_1d_to_2d(34, 7));
}
