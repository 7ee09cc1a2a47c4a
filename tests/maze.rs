use maze_gen::maze::{
    expand_walls, extract_grid_boundary, random_maze_size_ok, random_maze_walls,
    single_stroke_size_ok,
};
use maze_gen::shape::Point;

fn p(x: usize, y: usize) -> Point {
    Point::new(x, y)
}

#[test]
fn boundary_between_cells() {
    let cells = vec![(p(0, 0), p(0, 1)), (p(0, 0), p(1, 0)), (p(2, 3), p(2, 4)), (p(1, 1), p(2, 2))];
    let walls = extract_grid_boundary(&cells);
    assert_eq!(
        vec![(p(0, 1), p(1, 1)), (p(1, 0), p(1, 1)), (p(2, 4), p(3, 4)), (p(1, 1), p(2, 2))],
        walls
    );
}

#[test]
fn random_maze_walls_count_and_shape() {
    let walls = random_maze_walls(10, 20);
    assert_eq!(171, walls.len());
    for (a, b) in &walls {
        assert!(a.x <= 20 && b.x <= 20 && a.y <= 10 && b.y <= 10);
        assert!((a.x == b.x && a.y + 1 == b.y) || (a.y == b.y && a.x + 1 == b.x));
    }
}

#[test]
fn random_maze_walls_of_one_cell_is_empty() {
    assert!(random_maze_walls(1, 1).is_empty());
}

#[test]
fn size_checks() {
    assert!(!random_maze_size_ok(0, 4));
    assert!(!random_maze_size_ok(4, 0));
    assert!(random_maze_size_ok(1, 1));
    assert!(!single_stroke_size_ok(3, 3));
    assert!(!single_stroke_size_ok(2, 2));
    assert!(!single_stroke_size_ok(0, 4));
    assert!(single_stroke_size_ok(2, 4));
    assert!(single_stroke_size_ok(6, 7));
}

#[test]
fn expand_walls_accepts_any_edges() {
    let edges = vec![(p(0, 1), p(1, 1)), (p(1, 0), p(1, 1))];
    expand_walls(&edges);
}
