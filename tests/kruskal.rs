use maze_gen::random::seed_from_bytes;
use maze_gen::kruskal::{extract_maze_edges_by_kruskal, kruskal, KruskalResultEdge};
use maze_gen::maze::generate_random_maze;
use std::collections::HashSet;

#[test]
fn create_minimum_spanning_tree() {
    let node_size: usize = 5;
    let mut edges: Vec<(usize, usize)> = Vec::new();

    for i in 0..node_size {
        for j in i..node_size {
            edges.push((i, j));
        }
    }
    let unused_edges = kruskal(node_size, edges.clone(), KruskalResultEdge::Used);

    let mut set: HashSet<(usize, usize)> = HashSet::new();
    unused_edges.into_iter().for_each(|x| {
        set.insert(x);
    });
    let mut contains_integer: HashSet<usize> = HashSet::new();
    for (x, y) in edges {
        if set.contains(&(x, y)) {
            continue;
        }
        contains_integer.insert(x);
        contains_integer.insert(y);
    }

    assert_eq!(node_size, contains_integer.len());
}

#[test]
fn return_just_right_unused_edges() {
    let node_size: usize = 5;
    let mut edges: Vec<(usize, usize)> = Vec::new();

    for i in 0..node_size {
        for j in i..node_size {
            edges.push((i, j));
        }
    }

    let unused_edges = kruskal(node_size, edges.clone(), KruskalResultEdge::Unused);

    assert_eq!(edges.len(), unused_edges.len() + node_size - 1);
}

#[test]
fn kruskal_classifies_in_order() {
    let edges = vec![(0, 1), (1, 2), (0, 2), (2, 3), (1, 3)];
    assert_eq!(vec![(0, 1), (1, 2), (2, 3)], kruskal(4, edges.clone(), KruskalResultEdge::Used));
    assert_eq!(vec![(0, 2), (1, 3)], kruskal(4, edges, KruskalResultEdge::Unused));
}

fn nodes_of_used(width: usize, height: usize, step: usize) -> HashSet<usize> {
    let used = extract_maze_edges_by_kruskal(width, height, step, KruskalResultEdge::Used);
    let mut nodes = HashSet::new();
    for (a, b) in used {
        nodes.insert(a);
        nodes.insert(b);
    }
    nodes
}

fn nodes_off_unused(width: usize, height: usize, step: usize) -> HashSet<usize> {
    let unused = extract_maze_edges_by_kruskal(width, height, step, KruskalResultEdge::Unused);
    let set: HashSet<(usize, usize)> = unused.into_iter().collect();
    let mut nodes = HashSet::new();
    for i in (0..height).step_by(step) {
        for j in (0..width).step_by(step) {
            let vertical = (i * width + j, (i + step) * width + j);
            let horizontal = (i * width + j, i * width + j + step);
            if i + step < height && !set.contains(&vertical) {
                nodes.insert(i * width + j);
                nodes.insert((i + step) * width + j);
            }
            if j + step < width && !set.contains(&horizontal) {
                nodes.insert(i * width + j);
                nodes.insert(i * width + j + step);
            }
        }
    }
    nodes
}

#[test]
fn spanning_tree_covers_sampled_nodes() {
    for &(w, h, s) in &[(10, 20, 1), (10, 20, 2), (1000, 1000, 13), (50, 100, 7), (5, 10, 7)] {
        let expected = ((w - 1) / s + 1) * ((h - 1) / s + 1);
        assert_eq!(expected, nodes_of_used(w, h, s).len());
        assert_eq!(expected, nodes_off_unused(w, h, s).len());
    }
}

#[test]
fn degenerate_input_gives_no_edges() {
    for &(w, h, s) in &[(1, 1, 1), (2, 10, 12), (100, 100, 101)] {
        assert!(extract_maze_edges_by_kruskal(w, h, s, KruskalResultEdge::Used).is_empty());
        assert!(extract_maze_edges_by_kruskal(w, h, s, KruskalResultEdge::Unused).is_empty());
    }
}

#[test]
fn ten_by_twenty_counts() {
    let used = extract_maze_edges_by_kruskal(10, 20, 1, KruskalResultEdge::Used);
    let unused = extract_maze_edges_by_kruskal(10, 20, 1, KruskalResultEdge::Unused);
    assert_eq!(199, used.len());
    assert_eq!(171, unused.len());
    assert_eq!(370, used.len() + unused.len());
}

#[test]
fn thousand_square_step_thirteen_counts() {
    let used = extract_maze_edges_by_kruskal(1000, 1000, 13, KruskalResultEdge::Used);
    assert_eq!(77 * 77 - 1, used.len());
    assert_eq!(5928, used.len());
}

#[test]
fn random_maze_of_one_cell_is_empty() {
    assert!(generate_random_maze(1, 1).is_empty());
}

#[test]
fn random_maze_wall_count() {
    assert_eq!(171, generate_random_maze(10, 20).len());
}

#[test]
fn shuffled_edges_vary_between_calls() {
    let first = extract_maze_edges_by_kruskal(10, 20, 1, KruskalResultEdge::Used);
    let mut differs = false;
    for _ in 0..5 {
        if extract_maze_edges_by_kruskal(10, 20, 1, KruskalResultEdge::Used) != first {
            differs = true;
        }
    }
    assert!(differs);
}

#[test]
fn seed_reads_bytes_little_endian() {
    assert_eq!(1, seed_from_bytes(&vec![1, 0, 0, 0, 0, 0, 0, 0]));
    assert_eq!(256, seed_from_bytes(&vec![0, 1, 0, 0, 0, 0, 0, 0]));
    assert_eq!(u64::MAX, seed_from_bytes(&vec![0xff; 8]));
    let bytes = [3u8, 1, 4, 1, 5, 9, 2, 6];
    assert_eq!(u64::from_le_bytes(bytes), seed_from_bytes(&bytes.to_vec()));
}
