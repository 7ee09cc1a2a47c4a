//! The mazes as drawn: wall segments of a random maze, single-stroke sizes, and
//! the rows and columns that walls run along.
use crate::kruskal::{
    KruskalResultEdge, extract_maze_edges_by_kruskal, grid_edge_list, kruskal_result,
    lemma_result_from_edges,
};
use crate::shape::{Point, node_point};
use vstd::prelude::*;

verus! {

/// The wall between two neighbouring cells: the unit segment of the lattice that
/// separates them. A pair of cells that share no row and no column is kept as is.
pub open spec fn wall_of(from: Point, to: Point) -> (Point, Point) {
    if from.x == to.x {
        (Point { x: from.x, y: to.y }, Point { x: (to.x + 1) as usize, y: to.y })
    } else if from.y == to.y {
        (Point { x: to.x, y: from.y }, Point { x: to.x, y: (to.y + 1) as usize })
    } else {
        (from, to)
    }
}

/// The walls of the cell pairs, in order.
pub open spec fn walls(pairs: Seq<(Point, Point)>) -> Seq<(Point, Point)> {
    Seq::new(pairs.len(), |k: int| wall_of(pairs[k].0, pairs[k].1))
}

/// The cells that the node pairs of a grid `width` cells wide join, as points.
pub open spec fn cell_pairs(edges: Seq<(usize, usize)>, width: int) -> Seq<(Point, Point)> {
    Seq::new(edges.len(), |k: int| (node_point(edges[k].0, width), node_point(edges[k].1, width)))
}

/// `s` is strictly increasing.
pub open spec fn strictly_sorted(s: Seq<usize>) -> bool {
    forall|i: int, j: int| 0 <= i < j < s.len() ==> s[i] < s[j]
}

/// Some segment running along a row lies on row `v`.
pub open spec fn has_row_segment(edges: Seq<(Point, Point)>, v: usize) -> bool {
    exists|k: int| 0 <= k < edges.len() && #[trigger] edges[k].0.x == edges[k].1.x && edges[k].0.x == v
}

/// Some segment running along a column lies on column `v`.
pub open spec fn has_column_segment(edges: Seq<(Point, Point)>, v: usize) -> bool {
    exists|k: int| 0 <= k < edges.len() && #[trigger] edges[k].0.y == edges[k].1.y && edges[k].0.y == v
}

fn grid_to_edge(from: &Point, to: &Point) -> (r: (Point, Point))
    requires
        to.x < usize::MAX,
        to.y < usize::MAX,
    ensures
        r == wall_of(*from, *to),
{
    if from.x == to.x {
        return (Point::new(from.x, to.y), Point::new(to.x + 1, to.y));
    }
    if from.y == to.y {
        return (Point::new(to.x, from.y), Point::new(to.x, to.y + 1));
    }
    (*from, *to)
}

/// The wall segment between each pair of neighbouring cells.
pub fn extract_grid_boundary(vertexes: &Vec<(Point, Point)>) -> (r: Vec<(Point, Point)>)
    requires
        forall|k: int|
            0 <= k < vertexes@.len() ==> #[trigger] vertexes@[k].1.x < usize::MAX
                && vertexes@[k].1.y < usize::MAX,
    ensures
        r@ == walls(vertexes@),
{
    let mut lines: Vec<(Point, Point)> = Vec::new();
    let mut k: usize = 0;
    while k < vertexes.len()
        invariant
            k <= vertexes@.len(),
            forall|j: int|
                0 <= j < vertexes@.len() ==> #[trigger] vertexes@[j].1.x < usize::MAX
                    && vertexes@[j].1.y < usize::MAX,
            lines@ =~= walls(vertexes@.subrange(0, k as int)),
        decreases vertexes@.len() - k,
    {
        proof {
            assert(vertexes@[k as int].1.x < usize::MAX);
        }
        let (from, to) = &vertexes[k];
        lines.push(grid_to_edge(from, to));
        k = k + 1;
    }
    proof {
        assert(vertexes@.subrange(0, vertexes@.len() as int) =~= vertexes@);
    }
    lines
}

/// The number of elements of `v` below `x`, where `v` is increasing.
fn sorted_position(v: &Vec<usize>, x: usize) -> (i: usize)
    requires
        strictly_sorted(v@),
    ensures
        i <= v@.len(),
        forall|j: int| 0 <= j < i ==> v@[j] < x,
        i < v@.len() ==> v@[i as int] >= x,
{
    let mut i: usize = 0;
    while i < v.len() && v[i] < x
        invariant
            i <= v@.len(),
            forall|j: int| 0 <= j < i ==> v@[j] < x,
        decreases v@.len() - i,
    {
        i = i + 1;
    }
    i
}

/// `v` with `x` inserted in order, unless it is there already.
fn insert_sorted(v: Vec<usize>, x: usize) -> (r: Vec<usize>)
    requires
        strictly_sorted(v@),
    ensures
        strictly_sorted(r@),
        forall|y: usize| #[trigger] r@.contains(y) <==> (v@.contains(y) || y == x),
{
    let i = sorted_position(&v, x);
    if i < v.len() && v[i] == x {
        proof {
            assert forall|y: usize| v@.contains(y) <==> (v@.contains(y) || y == x) by {
                if y == x {
                    assert(v@[i as int] == y);
                }
            }
        }
        return v;
    }
    let mut r = v;
    let ghost before = r@;
    r.insert(i, x);
    proof {
        assert(before == v@);
        assert forall|y: usize| #[trigger] r@.contains(y) <==> (before.contains(y) || y == x) by {
            if r@.contains(y) {
                let j = choose|j: int| 0 <= j < r@.len() && r@[j] == y;
                if j < i {
                    assert(before[j] == y);
                } else if j > i {
                    assert(before[j - 1] == y);
                }
            }
            if before.contains(y) {
                let j = choose|j: int| 0 <= j < before.len() && before[j] == y;
                if j < i {
                    assert(r@[j] == y);
                } else {
                    assert(r@[j + 1] == y);
                }
            }
            if y == x {
                assert(r@[i as int] == y);
            }
        }
    }
    r
}

/// The rows that segments along a row lie on and the columns that segments along a
/// column lie on, each in increasing order without repeats.
fn fetch_vertical_and_horizontal_edge_index(edges: &Vec<(Point, Point)>) -> (r: (
    Vec<usize>,
    Vec<usize>,
))
    ensures
        strictly_sorted(r.0@),
        strictly_sorted(r.1@),
        forall|v: usize| r.0@.contains(v) <==> has_row_segment(edges@, v),
        forall|v: usize| r.1@.contains(v) <==> has_column_segment(edges@, v),
{
    let mut vertical_index: Vec<usize> = Vec::new();
    let mut horizontal_index: Vec<usize> = Vec::new();
    let mut k: usize = 0;
    while k < edges.len()
        invariant
            k <= edges@.len(),
            strictly_sorted(vertical_index@),
            strictly_sorted(horizontal_index@),
            forall|v: usize|
                vertical_index@.contains(v) <==> has_row_segment(edges@.subrange(0, k as int), v),
            forall|v: usize|
                horizontal_index@.contains(v) <==> has_column_segment(
                    edges@.subrange(0, k as int),
                    v,
                ),
        decreases edges@.len() - k,
    {
        let (from, to) = edges[k];
        let ghost pre = edges@.subrange(0, k as int);
        let ghost post = edges@.subrange(0, k + 1);
        if from.x == to.x {
            vertical_index = insert_sorted(vertical_index, from.x);
        }
        if from.y == to.y {
            horizontal_index = insert_sorted(horizontal_index, from.y);
        }
        proof {
            assert forall|v: usize| has_row_segment(post, v) <==> (has_row_segment(pre, v) || (
            from.x == to.x && v == from.x)) by {
                if has_row_segment(pre, v) {
                    let j = choose|j: int|
                        0 <= j < pre.len() && #[trigger] pre[j].0.x == pre[j].1.x && pre[j].0.x == v;
                    assert(post[j] == pre[j]);
                }
                if has_row_segment(post, v) {
                    let j = choose|j: int|
                        0 <= j < post.len() && #[trigger] post[j].0.x == post[j].1.x && post[j].0.x
                            == v;
                    if j < k {
                        assert(pre[j] == post[j]);
                    }
                }
                if from.x == to.x && v == from.x {
                    assert(post[k as int] == (from, to));
                }
            }
            assert forall|v: usize| has_column_segment(post, v) <==> (has_column_segment(pre, v)
                || (from.y == to.y && v == from.y)) by {
                if has_column_segment(pre, v) {
                    let j = choose|j: int|
                        0 <= j < pre.len() && #[trigger] pre[j].0.y == pre[j].1.y && pre[j].0.y == v;
                    assert(post[j] == pre[j]);
                }
                if has_column_segment(post, v) {
                    let j = choose|j: int|
                        0 <= j < post.len() && #[trigger] post[j].0.y == post[j].1.y && post[j].0.y
                            == v;
                    if j < k {
                        assert(pre[j] == post[j]);
                    }
                }
                if from.y == to.y && v == from.y {
                    assert(post[k as int] == (from, to));
                }
            }
        }
        k = k + 1;
    }
    proof {
        assert(edges@.subrange(0, edges@.len() as int) =~= edges@);
    }
    (vertical_index, horizontal_index)
}

/// Collects the rows and columns that the walls run along; the widened walls
/// themselves are not drawn yet, so nothing is returned.
pub fn expand_walls(edges: &Vec<(Point, Point)>) {
    let (_vertical_index, _horizontal_index) = fetch_vertical_and_horizontal_edge_index(edges);
}

/// The edges of a `width` by `height` grid graph that a randomized Kruskal pass
/// leaves unused: the pairs of neighbouring cells with a wall between them.
pub fn generate_random_maze(width: usize, height: usize) -> (r: Vec<(usize, usize)>)
    requires
        width * height <= i32::MAX,
    ensures
        width <= 1 && height <= 1 ==> r@.len() == 0,
        !(width <= 1 && height <= 1) ==> exists|edges: Seq<(usize, usize)>|
            grid_edge_list(width as int, height as int, 1, edges) && r@ == kruskal_result(
                (width * height) as nat,
                edges,
                KruskalResultEdge::Unused,
            ),
{
    extract_maze_edges_by_kruskal(width, height, 1, KruskalResultEdge::Unused)
}

/// The wall segments of a random maze of `width` by `height` cells, in lattice
/// points, without the outer border.
pub fn random_maze_walls(width: usize, height: usize) -> (r: Vec<(Point, Point)>)
    requires
        width * height <= i32::MAX,
    ensures
        width <= 1 && height <= 1 ==> r@.len() == 0,
        !(width <= 1 && height <= 1) ==> exists|edges: Seq<(usize, usize)>|
            grid_edge_list(width as int, height as int, 1, edges) && r@ == walls(
                cell_pairs(
                    kruskal_result((width * height) as nat, edges, KruskalResultEdge::Unused),
                    width as int,
                ),
            ),
{
    let unused = generate_random_maze(width, height);
    if width == 0 {
        return Vec::new();
    }
    let ghost n = (width * height) as nat;
    proof {
        if !(width <= 1 && height <= 1) {
            let es = choose|es: Seq<(usize, usize)>|
                grid_edge_list(width as int, height as int, 1, es) && unused@ == kruskal_result(
                    n,
                    es,
                    KruskalResultEdge::Unused,
                );
            lemma_result_from_edges(n, es);
            assert forall|k: int| 0 <= k < unused@.len() implies #[trigger] unused@[k].0 < n
                && unused@[k].1 < n by {
                assert(es.contains(unused@[k]));
            }
        }
    }
    let mut cells: Vec<(Point, Point)> = Vec::new();
    let mut k: usize = 0;
    while k < unused.len()
        invariant
            width > 0,
            n == width * height,
            n <= i32::MAX,
            k <= unused@.len(),
            forall|j: int| 0 <= j < unused@.len() ==> #[trigger] unused@[j].0 < n && unused@[j].1 < n,
            cells@ =~= cell_pairs(unused@.subrange(0, k as int), width as int),
            forall|j: int|
                0 <= j < cells@.len() ==> #[trigger] cells@[j].1.x < usize::MAX && cells@[j].1.y
                    < usize::MAX,
        decreases unused@.len() - k,
    {
        let (a, b) = unused[k];
        proof {
            assert(unused@[k as int].0 < n);
        }
        cells.push((Point::from_1d_index(a, width), Point::from_1d_index(b, width)));
        k = k + 1;
    }
    proof {
        assert(unused@.subrange(0, unused@.len() as int) =~= unused@);
    }
    extract_grid_boundary(&cells)
}

/// Whether a random maze can be drawn with `row` rows and `col` columns of cells.
pub fn random_maze_size_ok(row: usize, col: usize) -> (r: bool)
    ensures
        r == (row > 0 && col > 0),
{
    !(row == 0 || col == 0)
}

/// Whether a single-stroke maze can be drawn with `row` rows and `col` columns of
/// cells: some cells, not both counts odd, and more than two cells along one side.
pub fn single_stroke_size_ok(row: usize, col: usize) -> (r: bool)
    ensures
        r == (row > 0 && col > 0 && !(row % 2 == 1 && col % 2 == 1) && !(row <= 2 && col <= 2)),
{
    if row == 0 || col == 0 {
        return false;
    }
    if row % 2 == 1 && col % 2 == 1 {
        return false;
    }
    if row <= 2 && col <= 2 {
        return false;
    }
    true
}

} // verus!
