//! Single-stroke mazes: a spanning tree over every second lattice point, aligned,
//! subdivided and capped, with the rest of the lattice filled from a corner.
use crate::grid::{is_down_edge, is_grid_edge, is_right_edge, samples};
use crate::kruskal::{
    KruskalResultEdge, extract_maze_edges_by_kruskal, grid_edge_list, kruskal_result,
    lemma_result_from_edges,
};
use crate::grid::{grid_edges, lemma_cell_in_range};
use crate::random::random_bool;
use crate::spanning::{
    connected_on_endpoints, is_endpoint, lemma_grid_connected_on_endpoints, lemma_grid_endpoints,
    sampled,
};
use crate::unionfind::{UnionFind, lemma_merged_classes, lemma_merged_valid, merged, valid_roots};
use crate::kruskal::respects;
use crate::shape::{Point, node_point};
use vstd::arithmetic::div_mod::{lemma_fundamental_div_mod, lemma_fundamental_div_mod_converse};
use vstd::prelude::*;

verus! {

/// Which side of an even dimension the odd-sized skeleton keeps free.
#[derive(Clone, Copy, Debug, PartialEq, Eq, Structural)]
pub enum Offset {
    One,
    Zero,
}

/// The tree's edges as pairs of points.
pub open spec fn tree_lines(tree: Seq<(usize, usize)>, width: int) -> Seq<(Point, Point)> {
    Seq::new(tree.len(), |k: int| (node_point(tree[k].0, width), node_point(tree[k].1, width)))
}

/// `p` moved `dx` rows and `dy` columns.
pub open spec fn moved(p: Point, dx: int, dy: int) -> Point {
    Point { x: (p.x + dx) as usize, y: (p.y + dy) as usize }
}

/// Every point moved `dx` rows and `dy` columns.
pub open spec fn moved_lines(lines: Seq<(Point, Point)>, dx: int, dy: int) -> Seq<(Point, Point)> {
    Seq::new(lines.len(), |k: int| (moved(lines[k].0, dx, dy), moved(lines[k].1, dx, dy)))
}

/// The skeleton placed in a `width` by `height` box: moved one unit across an even
/// dimension under `Offset::One`, left in place under `Offset::Zero`.
pub open spec fn aligned(lines: Seq<(Point, Point)>, width: int, height: int, offset: Offset) -> Seq<
    (Point, Point),
> {
    if offset == Offset::Zero {
        lines
    } else if width % 2 == 0 {
        moved_lines(lines, 0, 1)
    } else if height % 2 == 0 {
        moved_lines(lines, 1, 0)
    } else {
        lines
    }
}

/// `p` comes before `q` in row-major order.
pub open spec fn precedes(p: Point, q: Point) -> bool {
    p.x < q.x || (p.x == q.x && p.y <= q.y)
}

/// The segment lies along a row or along a column.
pub open spec fn axis_aligned(line: (Point, Point)) -> bool {
    line.0.x == line.1.x || line.0.y == line.1.y
}

/// Number of unit steps from one end of the segment to the other.
pub open spec fn segment_length(line: (Point, Point)) -> int {
    let dx = line.1.x - line.0.x;
    let dy = line.1.y - line.0.y;
    (if dx < 0 { -dx } else { dx }) + (if dy < 0 { -dy } else { dy })
}

/// The segment has two distinct ends and splits into `step` pieces of whole units.
pub open spec fn splits_evenly(line: (Point, Point), step: int) -> bool {
    line.0 != line.1 && segment_length(line) % step == 0
}

/// Piece `t` of `step` equal pieces of the segment, from its row-major first end.
pub open spec fn piece(line: (Point, Point), t: int, step: int) -> (Point, Point) {
    let a = if precedes(line.0, line.1) { line.0 } else { line.1 };
    let b = if precedes(line.0, line.1) { line.1 } else { line.0 };
    let ux = (b.x - a.x) / step;
    let uy = (b.y - a.y) / step;
    (
        Point { x: (a.x + t * ux) as usize, y: (a.y + t * uy) as usize },
        Point { x: (a.x + (t + 1) * ux) as usize, y: (a.y + (t + 1) * uy) as usize },
    )
}

/// Each segment cut into `step` pieces, in order.
pub open spec fn divided(lines: Seq<(Point, Point)>, step: int) -> Seq<(Point, Point)> {
    Seq::new((lines.len() * step) as nat, |k: int| piece(lines[k / step], k % step, step))
}

/// Unit edges on every `step`-th row that tie the skeleton to the extra column.
pub open spec fn caps_horizontal(width: int, height: int, step: int, offset: Offset) -> Seq<
    (Point, Point),
> {
    Seq::new(
        samples(height, step) as nat,
        |t: int|
            if offset == Offset::Zero {
                (
                    Point { x: (t * step) as usize, y: (width - 2) as usize },
                    Point { x: (t * step) as usize, y: (width - 1) as usize },
                )
            } else {
                (Point { x: (t * step) as usize, y: 0 }, Point { x: (t * step) as usize, y: 1 })
            },
    )
}

/// Unit edges on every `step`-th column that tie the skeleton to the extra row.
pub open spec fn caps_vertical(width: int, height: int, step: int, offset: Offset) -> Seq<
    (Point, Point),
> {
    Seq::new(
        samples(width, step) as nat,
        |t: int|
            if offset == Offset::Zero {
                (
                    Point { x: (height - 2) as usize, y: (t * step) as usize },
                    Point { x: (height - 1) as usize, y: (t * step) as usize },
                )
            } else {
                (Point { x: 0, y: (t * step) as usize }, Point { x: 1, y: (t * step) as usize })
            },
    )
}

/// The skeleton of a single-stroke maze of `width` by `height` cells built on `tree`:
/// aligned, cut into unit edges, capped, and moved into a one-point margin.
pub open spec fn skeleton(width: int, height: int, tree: Seq<(usize, usize)>, offset: Offset) -> Seq<
    (Point, Point),
> {
    let aw = width - 1;
    let ah = height - 1;
    let gw = aw - (aw + 1) % 2;
    let lines = divided(aligned(tree_lines(tree, gw), aw, ah, offset), 2);
    let caps = if aw % 2 == 0 {
        caps_horizontal(aw, ah, 2, offset)
    } else if ah % 2 == 0 {
        caps_vertical(aw, ah, 2, offset)
    } else {
        seq![]
    };
    moved_lines(lines + caps, 1, 1)
}

/// The corner the fill starts from.
pub open spec fn corner() -> Point {
    Point { x: 0, y: 0 }
}

/// `p` lies in a lattice `width` points wide and `height` points high.
pub open spec fn in_lattice(p: Point, width: int, height: int) -> bool {
    p.x < height && p.y < width
}

/// Both ends of every edge lie in the lattice.
pub open spec fn edges_in_lattice(edges: Seq<(Point, Point)>, width: int, height: int) -> bool {
    forall|k: int|
        0 <= k < edges.len() ==> in_lattice(#[trigger] edges[k].0, width, height) && in_lattice(
            edges[k].1,
            width,
            height,
        )
}

/// From index `start` on, every edge joins two lattice neighbours.
pub open spec fn unit_edges_from(edges: Seq<(Point, Point)>, start: int, width: int, height: int) -> bool {
    forall|k: int|
        start <= k < edges.len() ==> in_lattice(#[trigger] edges[k].0, width, height) && in_lattice(
            edges[k].1,
            width,
            height,
        ) && neighbours(edges[k].0, edges[k].1)
}

/// `p` and `q` are one unit apart along a row or a column.
pub open spec fn neighbours(p: Point, q: Point) -> bool {
    (p.x == q.x && (p.y + 1 == q.y || q.y + 1 == p.y)) || (p.y == q.y && (p.x + 1 == q.x || q.x
        + 1 == p.x))
}

/// `p` is an end of one of the edges.
pub open spec fn touched(edges: Seq<(Point, Point)>, p: Point) -> bool {
    exists|k: int| 0 <= k < edges.len() && (#[trigger] edges[k].0 == p || edges[k].1 == p)
}

/// `p` is reached by `fill` grown over `base`: the corner where `base` leaves it
/// free, or the new end of a fill edge.
pub open spec fn filled(base: Seq<(Point, Point)>, fill: Seq<(Point, Point)>, p: Point) -> bool {
    (p == corner() && !touched(base, corner())) || exists|k: int|
        0 <= k < fill.len() && #[trigger] fill[k].1 == p
}

/// `fill` grows one tree from the corner through the lattice points that `base`
/// leaves free: each edge joins a reached point to a new free neighbour, and every
/// lattice neighbour of a reached point is reached or lies on `base`.
pub open spec fn fills_from_corner(
    base: Seq<(Point, Point)>,
    fill: Seq<(Point, Point)>,
    width: int,
    height: int,
) -> bool {
    &&& forall|k: int|
        0 <= k < fill.len() ==> neighbours(#[trigger] fill[k].0, fill[k].1) && in_lattice(
            fill[k].1,
            width,
            height,
        ) && !touched(base, fill[k].1) && fill[k].1 != corner()
    &&& forall|k: int|
        0 <= k < fill.len() ==> (#[trigger] fill[k].0 == corner() && !touched(base, corner()))
            || exists|j: int| 0 <= j < k && fill[j].1 == fill[k].0
    &&& forall|j: int, k: int| 0 <= j < k < fill.len() ==> #[trigger] fill[j].1 != #[trigger] fill[k].1
    &&& forall|p: Point, q: Point|
        #[trigger] filled(base, fill, p) && in_lattice(q, width, height) && #[trigger] neighbours(
            p,
            q,
        ) ==> touched(base, q) || filled(base, fill, q)
}

/// The neighbour of `v` in direction `d` (right, down, left, up), if it lies in
/// the lattice.
pub open spec fn neighbour_at(v: Point, d: int, width: int, height: int) -> Option<Point> {
    if d == 0 {
        if v.y + 1 < width {
            Some(Point { x: v.x, y: (v.y + 1) as usize })
        } else {
            None
        }
    } else if d == 1 {
        if v.x + 1 < height {
            Some(Point { x: (v.x + 1) as usize, y: v.y })
        } else {
            None
        }
    } else if d == 2 {
        if v.y > 0 {
            Some(Point { x: v.x, y: (v.y - 1) as usize })
        } else {
            None
        }
    } else {
        if v.x > 0 {
            Some(Point { x: (v.x - 1) as usize, y: v.y })
        } else {
            None
        }
    }
}

spec fn flat(p: Point, width: int) -> int {
    p.x * width + p.y
}

spec fn count_free(s: Seq<bool>) -> nat
    decreases s.len(),
{
    if s.len() == 0 {
        0
    } else {
        count_free(s.drop_last()) + if s.last() { 0nat } else { 1nat }
    }
}

proof fn lemma_count_free_mark(s: Seq<bool>, i: int)
    requires
        0 <= i < s.len(),
        !s[i],
    ensures
        count_free(s.update(i, true)) + 1 == count_free(s),
    decreases s.len(),
{
    if i < s.len() - 1 {
        assert(s.update(i, true).drop_last() =~= s.drop_last().update(i, true));
        lemma_count_free_mark(s.drop_last(), i);
    } else {
        assert(s.update(i, true).drop_last() =~= s.drop_last());
    }
}

proof fn lemma_flat(p: Point, q: Point, width: int, height: int)
    requires
        in_lattice(p, width, height),
        in_lattice(q, width, height),
    ensures
        0 <= flat(p, width) < width * height,
        flat(p, width) == flat(q, width) ==> p == q,
{
    crate::grid::lemma_cell_in_range(width, height, p.x as int, p.y as int);
    if flat(p, width) == flat(q, width) {
        lemma_fundamental_div_mod_converse(flat(p, width), width, p.x as int, p.y as int);
        lemma_fundamental_div_mod_converse(flat(p, width), width, q.x as int, q.y as int);
    }
}

fn neighbour(v: Point, d: usize, width: usize, height: usize) -> (r: Option<Point>)
    requires
        in_lattice(v, width as int, height as int),
        d < 4,
    ensures
        r == neighbour_at(v, d as int, width as int, height as int),
{
    if d == 0 {
        if v.y + 1 < width {
            Some(Point::new(v.x, v.y + 1))
        } else {
            None
        }
    } else if d == 1 {
        if v.x + 1 < height {
            Some(Point::new(v.x + 1, v.y))
        } else {
            None
        }
    } else if d == 2 {
        if v.y > 0 {
            Some(Point::new(v.x, v.y - 1))
        } else {
            None
        }
    } else {
        if v.x > 0 {
            Some(Point::new(v.x - 1, v.y))
        } else {
            None
        }
    }
}

/// What the fill keeps true: the marks are exactly the points on `base` or in the
/// queue, the queue is the corner followed by the new ends of the fill edges, and
/// the fill edges so far grow a tree.
spec fn fill_state(
    base: Seq<(Point, Point)>,
    edges: Seq<(Point, Point)>,
    used: Seq<bool>,
    queue: Seq<Point>,
    width: int,
    height: int,
) -> bool {
    let fill = edges.subrange(base.len() as int, edges.len() as int);
    &&& used.len() == width * height
    &&& base.len() <= edges.len()
    &&& edges.subrange(0, base.len() as int) == base
    &&& if touched(base, corner()) {
        queue.len() == 0 && fill.len() == 0
    } else {
        queue.len() == fill.len() + 1 && queue[0] == corner() && forall|k: int|
            0 <= k < fill.len() ==> #[trigger] fill[k].1 == queue[k + 1]
    }
    &&& forall|j: int| 0 <= j < queue.len() ==> in_lattice(#[trigger] queue[j], width, height)
    &&& forall|p: Point|
        in_lattice(p, width, height) ==> (used[#[trigger] flat(p, width)] <==> (touched(base, p)
            || queue.contains(p)))
    &&& forall|k: int|
        0 <= k < fill.len() ==> neighbours(#[trigger] fill[k].0, fill[k].1) && in_lattice(
            fill[k].1,
            width,
            height,
        ) && !touched(base, fill[k].1) && fill[k].1 != corner()
    &&& forall|k: int|
        0 <= k < fill.len() ==> (#[trigger] fill[k].0 == corner() && !touched(base, corner()))
            || exists|j: int| 0 <= j < k && fill[j].1 == fill[k].0
    &&& forall|j: int, k: int| 0 <= j < k < fill.len() ==> #[trigger] fill[j].1 != #[trigger] fill[k].1
}

proof fn lemma_fill_push(
    base: Seq<(Point, Point)>,
    edges: Seq<(Point, Point)>,
    used: Seq<bool>,
    queue: Seq<Point>,
    width: int,
    height: int,
    head: int,
    nv: Point,
)
    requires
        fill_state(base, edges, used, queue, width, height),
        0 <= head < queue.len(),
        in_lattice(nv, width, height),
        neighbours(queue[head], nv),
        !used[flat(nv, width)],
    ensures
        fill_state(
            base,
            edges.push((queue[head], nv)),
            used.update(flat(nv, width), true),
            queue.push(nv),
            width,
            height,
        ),
{
    let v = queue[head];
    let e = (v, nv);
    let bl = base.len() as int;
    let fill = edges.subrange(bl, edges.len() as int);
    let edges2 = edges.push(e);
    let fill2 = edges2.subrange(bl, edges2.len() as int);
    let used2 = used.update(flat(nv, width), true);
    let queue2 = queue.push(nv);
    assert(fill2 =~= fill.push(e));
    assert(edges2.subrange(0, bl) =~= edges.subrange(0, bl));
    assert(!touched(base, corner()));
    lemma_flat(nv, nv, width, height);
    assert(!queue.contains(nv));
    assert(!touched(base, nv));
    assert(queue.contains(corner())) by {
        assert(queue[0] == corner());
    }
    lemma_flat(corner(), nv, width, height);
    assert(nv != corner());
    assert forall|k: int| 0 <= k < fill2.len() implies #[trigger] fill2[k].1 == queue2[k + 1] by {
        if k < fill.len() {
            assert(fill2[k] == fill[k]);
        }
    }
    assert forall|j: int| 0 <= j < queue2.len() implies in_lattice(
        #[trigger] queue2[j],
        width,
        height,
    ) by {
        if j < queue.len() {
            assert(queue2[j] == queue[j]);
        }
    }
    assert forall|p: Point| in_lattice(p, width, height) implies (used2[#[trigger] flat(p, width)]
        <==> (touched(base, p) || queue2.contains(p))) by {
        lemma_flat(p, nv, width, height);
        lemma_flat(p, p, width, height);
        if queue.contains(p) {
            let j = choose|j: int| 0 <= j < queue.len() && queue[j] == p;
            assert(queue2[j] == p);
        }
        if queue2.contains(p) && p != nv {
            let j = choose|j: int| 0 <= j < queue2.len() && queue2[j] == p;
            assert(j < queue.len());
            assert(queue[j] == p);
        }
        if p == nv {
            assert(queue2[queue.len() as int] == p);
        }
    }
    assert forall|k: int| 0 <= k < fill2.len() implies neighbours(
        #[trigger] fill2[k].0,
        fill2[k].1,
    ) && in_lattice(fill2[k].1, width, height) && !touched(base, fill2[k].1) && fill2[k].1
        != corner() by {
        if k < fill.len() {
            assert(fill2[k] == fill[k]);
        }
    }
    assert forall|k: int| 0 <= k < fill2.len() implies (#[trigger] fill2[k].0 == corner()
        && !touched(base, corner())) || exists|j: int| 0 <= j < k && fill2[j].1 == fill2[k].0 by {
        if k < fill.len() {
            assert(fill2[k] == fill[k]);
            if !(fill[k].0 == corner() && !touched(base, corner())) {
                let j = choose|j: int| 0 <= j < k && fill[j].1 == fill[k].0;
                assert(fill2[j] == fill[j]);
            }
        } else {
            if head > 0 {
                assert(fill[head - 1].1 == queue[head]);
                assert(fill2[head - 1] == fill[head - 1]);
            }
        }
    }
    assert forall|j: int, k: int| 0 <= j < k < fill2.len() implies #[trigger] fill2[j].1
        != #[trigger] fill2[k].1 by {
        assert(fill2[j] == fill[j]);
        if k < fill.len() {
            assert(fill2[k] == fill[k]);
        } else {
            assert(fill[j].1 == queue[j + 1]);
        }
    }
}

/// Grows a tree from the corner of a `width` by `height` lattice through the points
/// that `edges` leaves free, breadth first, neighbours taken right, down, left and
/// up, and appends its edges.
fn fill_from_corner(edges: &mut Vec<(Point, Point)>, width: usize, height: usize)
    requires
        width >= 1,
        height >= 1,
        width * height <= usize::MAX,
        forall|k: int|
            0 <= k < old(edges)@.len() ==> in_lattice(
                #[trigger] old(edges)@[k].0,
                width as int,
                height as int,
            ) && in_lattice(old(edges)@[k].1, width as int, height as int),
    ensures
        old(edges)@.len() <= final(edges)@.len(),
        final(edges)@.subrange(0, old(edges)@.len() as int) == old(edges)@,
        fills_from_corner(
            old(edges)@,
            final(edges)@.subrange(old(edges)@.len() as int, final(edges)@.len() as int),
            width as int,
            height as int,
        ),
{
    let ghost base = edges@;
    let ghost w = width as int;
    let ghost h = height as int;
    let size = width * height;
    let mut used: Vec<bool> = vec![false; size];
    proof {
        assert forall|p: Point| in_lattice(p, w, h) implies (used@[#[trigger] flat(p, w)]
            <==> touched(base.subrange(0, 0), p)) by {
            lemma_flat(p, p, w, h);
        }
    }
    let mut k: usize = 0;
    while k < edges.len()
        invariant
            edges@ == base,
            w == width,
            h == height,
            k <= base.len(),
            size == w * h,
            used@.len() == size,
            forall|j: int|
                0 <= j < base.len() ==> in_lattice(#[trigger] base[j].0, w, h) && in_lattice(
                    base[j].1,
                    w,
                    h,
                ),
            forall|p: Point|
                in_lattice(p, w, h) ==> (used@[#[trigger] flat(p, w)] <==> touched(
                    base.subrange(0, k as int),
                    p,
                )),
        decreases base.len() - k,
    {
        let (a, b) = edges[k];
        proof {
            assert(base[k as int].0 == a);
            lemma_flat(a, a, w, h);
            lemma_flat(b, b, w, h);
        }
        let ia = a.flatten(width);
        used[ia] = true;
        let ib = b.flatten(width);
        used[ib] = true;
        proof {
            let pre = base.subrange(0, k as int);
            let post = base.subrange(0, k + 1);
            assert forall|p: Point| in_lattice(p, w, h) implies (used@[#[trigger] flat(p, w)]
                <==> touched(post, p)) by {
                lemma_flat(p, a, w, h);
                lemma_flat(p, b, w, h);
                lemma_flat(p, p, w, h);
                if touched(pre, p) {
                    let j = choose|j: int| 0 <= j < pre.len() && (pre[j].0 == p || pre[j].1 == p);
                    assert(post[j] == pre[j]);
                }
                if touched(post, p) {
                    let j = choose|j: int|
                        0 <= j < post.len() && (post[j].0 == p || post[j].1 == p);
                    if j < k {
                        assert(pre[j] == post[j]);
                    }
                }
                if p == a || p == b {
                    assert(post[k as int] == (a, b));
                }
            }
        }
        k = k + 1;
    }
    proof {
        assert(base.subrange(0, base.len() as int) =~= base);
        lemma_flat(corner(), corner(), w, h);
        assert(0 * w == 0) by (nonlinear_arith);
        assert(flat(corner(), w) == 0);
    }
    let mut queue: Vec<Point> = Vec::new();
    if !used[0] {
        used[0] = true;
        queue.push(Point::new(0, 0));
    }
    proof {
        assert(edges@.subrange(base.len() as int, edges@.len() as int).len() == 0);
        assert(edges@.subrange(0, base.len() as int) =~= base);
        assert forall|p: Point| in_lattice(p, w, h) implies (used@[#[trigger] flat(p, w)] <==> (
        touched(base, p) || queue@.contains(p))) by {
            lemma_flat(p, corner(), w, h);
            lemma_flat(p, p, w, h);
            if queue@.contains(p) {
                assert(queue@[0] == p);
            }
            if p == corner() && !touched(base, p) {
                assert(queue@[0] == p);
            }
        }
        assert(fill_state(base, edges@, used@, queue@, w, h));
    }
    let mut head: usize = 0;
    while head < queue.len()
        invariant
            w == width,
            h == height,
            width >= 1,
            height >= 1,
            width * height <= usize::MAX,
            fill_state(base, edges@, used@, queue@, w, h),
            head <= queue@.len(),
            forall|j: int, q: Point|
                0 <= j < head && in_lattice(q, w, h) && #[trigger] neighbours(queue@[j], q)
                    ==> used@[flat(q, w)],
        decreases 2 * count_free(used@) + queue@.len() - head,
    {
        let v = queue[head];
        let ghost measure = 2 * count_free(used@) + queue@.len();
        let mut d: usize = 0;
        while d < 4
            invariant
                w == width,
                h == height,
                width * height <= usize::MAX,
                fill_state(base, edges@, used@, queue@, w, h),
                head < queue@.len(),
                v == queue@[head as int],
                forall|j: int, q: Point|
                    0 <= j < head && in_lattice(q, w, h) && #[trigger] neighbours(queue@[j], q)
                        ==> used@[flat(q, w)],
                forall|dd: int|
                    0 <= dd < d && #[trigger] neighbour_at(v, dd, w, h) is Some ==> used@[flat(
                        neighbour_at(v, dd, w, h)->Some_0,
                        w,
                    )],
                d <= 4,
                2 * count_free(used@) + queue@.len() <= measure,
            decreases 4 - d,
        {
            proof {
                assert(in_lattice(queue@[head as int], w, h));
            }
            match neighbour(v, d, width, height) {
                Some(nv) => {
                    proof {
                        lemma_flat(nv, nv, w, h);
                    }
                    let idx = nv.flatten(width);
                    if !used[idx] {
                        proof {
                            lemma_fill_push(base, edges@, used@, queue@, w, h, head as int, nv);
                            lemma_count_free_mark(used@, idx as int);
                        }
                        used[idx] = true;
                        edges.push((v, nv));
                        queue.push(nv);
                        proof {
                            assert forall|j: int, q: Point|
                                0 <= j < head && in_lattice(q, w, h) && #[trigger] neighbours(
                                    queue@[j],
                                    q,
                                ) implies used@[flat(q, w)] by {
                                lemma_flat(q, nv, w, h);
                            }
                            assert forall|dd: int|
                                0 <= dd < d + 1 && #[trigger] neighbour_at(v, dd, w, h) is Some
                                    implies used@[flat(neighbour_at(v, dd, w, h)->Some_0, w)] by {
                                lemma_flat(neighbour_at(v, dd, w, h)->Some_0, nv, w, h);
                            }
                        }
                    }
                },
                None => {},
            }
            d = d + 1;
        }
        proof {
            assert forall|j: int, q: Point|
                0 <= j < head + 1 && in_lattice(q, w, h) && #[trigger] neighbours(queue@[j], q)
                    implies used@[flat(q, w)] by {
                if j == head {
                    if q.x == v.x && q.y == v.y + 1 {
                        assert(neighbour_at(v, 0, w, h) == Some(q));
                    } else if q.y == v.y && q.x == v.x + 1 {
                        assert(neighbour_at(v, 1, w, h) == Some(q));
                    } else if q.x == v.x {
                        assert(neighbour_at(v, 2, w, h) == Some(q));
                    } else {
                        assert(neighbour_at(v, 3, w, h) == Some(q));
                    }
                }
            }
        }
        head = head + 1;
    }
    proof {
        let fill = edges@.subrange(base.len() as int, edges@.len() as int);
        assert forall|p: Point, q: Point|
            #[trigger] filled(base, fill, p) && in_lattice(q, w, h) && #[trigger] neighbours(p, q)
                implies touched(base, q) || filled(base, fill, q) by {
            let j: int = if p == corner() && !touched(base, corner()) {
                0
            } else {
                let k = choose|k: int| 0 <= k < fill.len() && #[trigger] fill[k].1 == p;
                k + 1
            };
            assert(queue@[j] == p);
            lemma_flat(q, q, w, h);
            if !touched(base, q) {
                assert(queue@.contains(q));
                let i = choose|i: int| 0 <= i < queue@.len() && queue@[i] == q;
                if i > 0 {
                    assert(fill[i - 1].1 == q);
                }
            }
        }
    }
}

/// The point at index `i` of a lattice `width` points wide.
pub open spec fn point_at(i: int, width: int) -> Point {
    Point { x: (i / width) as usize, y: (i % width) as usize }
}

/// `f` gives both ends of every edge one value.
pub open spec fn respects_points(f: spec_fn(Point) -> int, edges: Seq<(Point, Point)>) -> bool {
    forall|k: int| 0 <= k < edges.len() ==> f(#[trigger] edges[k].0) == f(edges[k].1)
}

/// The edges join all points of the lattice into one piece: a labelling that agrees
/// across every edge gives every lattice point one label.
pub open spec fn lattice_joined(edges: Seq<(Point, Point)>, width: int, height: int) -> bool {
    forall|f: spec_fn(Point) -> int|
        #[trigger] respects_points(f, edges) ==> forall|p: Point, q: Point|
            in_lattice(p, width, height) && in_lattice(q, width, height) ==> #[trigger] f(p)
                == #[trigger] f(q)
}

/// Nodes with one representative carry one label under every labelling that agrees
/// across the edges.
spec fn classes_joined(roots: Seq<int>, edges: Seq<(Point, Point)>, width: int) -> bool {
    forall|f: spec_fn(Point) -> int|
        #[trigger] respects_points(f, edges) ==> forall|i: int, j: int|
            0 <= i < roots.len() && 0 <= j < roots.len() && roots[i] == roots[j] ==> #[trigger] f(
                point_at(i, width),
            ) == #[trigger] f(point_at(j, width))
}

proof fn lemma_point_at_flat(p: Point, width: int, height: int)
    requires
        in_lattice(p, width, height),
    ensures
        point_at(flat(p, width), width) == p,
        0 <= flat(p, width) < width * height,
{
    lemma_flat(p, p, width, height);
    lemma_fundamental_div_mod_converse(flat(p, width), width, p.x as int, p.y as int);
}

/// Merging two nodes that every agreeing labelling already labels alike keeps
/// the classes joined.
proof fn lemma_classes_merge(
    roots: Seq<int>,
    edges: Seq<(Point, Point)>,
    width: int,
    a: int,
    b: int,
)
    requires
        valid_roots(roots),
        0 <= a < roots.len(),
        0 <= b < roots.len(),
        classes_joined(roots, edges, width),
        forall|f: spec_fn(Point) -> int|
            #[trigger] respects_points(f, edges) ==> f(point_at(a, width)) == f(point_at(b, width)),
    ensures
        classes_joined(merged(roots, a, b), edges, width),
{
    let m = merged(roots, a, b);
    lemma_merged_valid(roots, a, b);
    assert forall|f: spec_fn(Point) -> int| #[trigger] respects_points(f, edges) implies forall|
        i: int,
        j: int,
    |
        0 <= i < m.len() && 0 <= j < m.len() && m[i] == m[j] ==> #[trigger] f(point_at(i, width))
            == #[trigger] f(point_at(j, width)) by {
        assert forall|i: int, j: int|
            0 <= i < m.len() && 0 <= j < m.len() && m[i] == m[j] implies #[trigger] f(
            point_at(i, width),
        ) == #[trigger] f(point_at(j, width)) by {
            lemma_merged_classes(roots, a, b, i, j);
            assert(f(point_at(a, width)) == f(point_at(b, width)));
            if roots[i] != roots[j] {
                assert(roots[i] == roots[a] ==> f(point_at(i, width)) == f(point_at(a, width)));
                assert(roots[i] == roots[b] ==> f(point_at(i, width)) == f(point_at(b, width)));
                assert(roots[j] == roots[a] ==> f(point_at(j, width)) == f(point_at(a, width)));
                assert(roots[j] == roots[b] ==> f(point_at(j, width)) == f(point_at(b, width)));
            }
        }
    }
}

/// Adds, in row-major order of the lattice's unit edges, one edge wherever the
/// edges so far leave its two ends apart, so that the whole lattice becomes one piece.
fn join_components(edges: &mut Vec<(Point, Point)>, width: usize, height: usize)
    requires
        width >= 2,
        height >= 2,
        width * height <= i32::MAX,
        edges_in_lattice(old(edges)@, width as int, height as int),
    ensures
        old(edges)@.len() <= final(edges)@.len(),
        final(edges)@.subrange(0, old(edges)@.len() as int) == old(edges)@,
        unit_edges_from(final(edges)@, old(edges)@.len() as int, width as int, height as int),
        lattice_joined(final(edges)@, width as int, height as int),
{
    let ghost w = width as int;
    let ghost h = height as int;
    let ghost base = edges@;
    let n = width * height;
    let mut uf = UnionFind::new(n);
    proof {
        uf.lemma_valid();
        assert forall|f: spec_fn(Point) -> int| #[trigger] respects_points(f, edges@) implies forall|
            i: int,
            j: int,
        |
            0 <= i < uf@.len() && 0 <= j < uf@.len() && uf@[i] == uf@[j] ==> #[trigger] f(
                point_at(i, w),
            ) == #[trigger] f(point_at(j, w)) by {}
    }
    let mut k: usize = 0;
    while k < edges.len()
        invariant
            w == width,
            h == height,
            n == w * h,
            n <= i32::MAX,
            edges@ == base,
            k <= base.len(),
            uf.wf(),
            uf@.len() == n,
            forall|j: int|
                0 <= j < base.len() ==> in_lattice(#[trigger] base[j].0, w, h) && in_lattice(
                    base[j].1,
                    w,
                    h,
                ),
            classes_joined(uf@, edges@, w),
        decreases base.len() - k,
    {
        let (a, b) = edges[k];
        proof {
            assert(in_lattice(base[k as int].0, w, h));
            lemma_point_at_flat(a, w, h);
            lemma_point_at_flat(b, w, h);
            uf.lemma_valid();
        }
        let ia = a.flatten(width);
        let ib = b.flatten(width);
        proof {
            assert forall|f: spec_fn(Point) -> int| #[trigger] respects_points(f, edges@) implies f(
                point_at(ia as int, w),
            ) == f(point_at(ib as int, w)) by {
                assert(f(edges@[k as int].0) == f(edges@[k as int].1));
            }
            lemma_classes_merge(uf@, edges@, w, ia as int, ib as int);
        }
        uf.merge(ia, ib);
        k = k + 1;
    }
    let grid = grid_edges(width, height, 1);
    let mut g: usize = 0;
    while g < grid.len()
        invariant
            w == width,
            h == height,
            n == w * h,
            n <= i32::MAX,
            width >= 2,
            height >= 2,
            g <= grid@.len(),
            base.len() <= edges@.len(),
            edges@.subrange(0, base.len() as int) == base,
            forall|j: int|
                base.len() <= j < edges@.len() ==> in_lattice(#[trigger] edges@[j].0, w, h)
                    && in_lattice(edges@[j].1, w, h) && neighbours(edges@[j].0, edges@[j].1),
            forall|j: int|
                0 <= j < grid@.len() ==> is_grid_edge(w, h, 1, #[trigger] grid@[j]) && grid@[j].0
                    < grid@[j].1 < w * h,
            uf.wf(),
            uf@.len() == n,
            classes_joined(uf@, edges@, w),
            respects(uf@, grid@.subrange(0, g as int)),
        decreases grid@.len() - g,
    {
        let (a, b) = grid[g];
        proof {
            assert(is_grid_edge(w, h, 1, grid@[g as int]));
            uf.lemma_valid();
            assert(grid@.subrange(0, g + 1).drop_last() =~= grid@.subrange(0, g as int));
        }
        let ghost before = uf@;
        let ghost old_edges = edges@;
        if !uf.same(a, b) {
            let pa = Point::from_1d_index(a, width);
            let pb = Point::from_1d_index(b, width);
            edges.push((pa, pb));
            proof {
                let e = grid@[g as int];
                let (r, c) = choose|r: int, c: int|
                    is_down_edge(w, h, 1, r, c, e) || is_right_edge(w, h, 1, r, c, e);
                lemma_fundamental_div_mod_converse(a as int, w, r, c);
                if is_down_edge(w, h, 1, r, c, e) {
                    lemma_fundamental_div_mod_converse(b as int, w, r + 1, c);
                } else {
                    lemma_fundamental_div_mod_converse(b as int, w, r, c + 1);
                }
                assert(neighbours(pa, pb));
                assert(in_lattice(pa, w, h) && in_lattice(pb, w, h));
                assert forall|j: int| base.len() <= j < edges@.len() implies in_lattice(
                    #[trigger] edges@[j].0,
                    w,
                    h,
                ) && in_lattice(edges@[j].1, w, h) && neighbours(edges@[j].0, edges@[j].1) by {
                    if j < old_edges.len() {
                        assert(edges@[j] == old_edges[j]);
                    }
                }
                assert(edges@.subrange(0, base.len() as int) =~= old_edges.subrange(
                    0,
                    base.len() as int,
                ));
                assert forall|f: spec_fn(Point) -> int| #[trigger] respects_points(
                    f,
                    edges@,
                ) implies respects_points(f, old_edges) && f(point_at(a as int, w)) == f(
                    point_at(b as int, w),
                ) by {
                    assert forall|j: int| 0 <= j < old_edges.len() implies f(
                        #[trigger] old_edges[j].0,
                    ) == f(old_edges[j].1) by {
                        assert(edges@[j] == old_edges[j]);
                    }
                    assert(f(edges@[old_edges.len() as int].0) == f(
                        edges@[old_edges.len() as int].1,
                    ));
                }
                assert(classes_joined(uf@, edges@, w));
                lemma_classes_merge(uf@, edges@, w, a as int, b as int);
            }
            uf.merge(a, b);
        }
        proof {
            assert forall|j: int| base.len() <= j < edges@.len() implies in_lattice(
                #[trigger] edges@[j].0,
                w,
                h,
            ) && in_lattice(edges@[j].1, w, h) && neighbours(edges@[j].0, edges@[j].1) by {
                if j < old_edges.len() {
                    assert(edges@[j] == old_edges[j]);
                    assert(in_lattice(old_edges[j].0, w, h));
                }
            }
            lemma_merged_valid(before, a as int, b as int);
            let pre = grid@.subrange(0, g as int);
            let post = grid@.subrange(0, g + 1);
            assert forall|j: int| 0 <= j < post.len() implies uf@[#[trigger] post[j].0 as int]
                == uf@[post[j].1 as int] by {
                if j < g {
                    assert(post[j] == pre[j]);
                    assert(before[pre[j].0 as int] == before[pre[j].1 as int]);
                }
            }
        }
        g = g + 1;
    }
    proof {
        assert(grid@.subrange(0, grid@.len() as int) =~= grid@);
        lemma_grid_connected_on_endpoints(w, h, 1, grid@);
        uf.lemma_valid();
        assert(respects(uf@, grid@));
        assert forall|f: spec_fn(Point) -> int| #[trigger] respects_points(f, edges@) implies forall|
            p: Point,
            q: Point,
        |
            in_lattice(p, w, h) && in_lattice(q, w, h) ==> #[trigger] f(p) == #[trigger] f(q) by {
            assert forall|p: Point, q: Point|
                in_lattice(p, w, h) && in_lattice(q, w, h) implies #[trigger] f(p) == #[trigger] f(
                q,
            ) by {
                lemma_point_at_flat(p, w, h);
                lemma_point_at_flat(q, w, h);
                let ip = flat(p, w);
                let iq = flat(q, w);
                lemma_grid_endpoints(w, h, 1, grid@, ip);
                lemma_grid_endpoints(w, h, 1, grid@, iq);
                lemma_fundamental_div_mod_converse(ip / w, 1, ip / w, 0);
                lemma_fundamental_div_mod_converse(ip % w, 1, ip % w, 0);
                lemma_fundamental_div_mod_converse(iq / w, 1, iq / w, 0);
                lemma_fundamental_div_mod_converse(iq % w, 1, iq % w, 0);
                assert(sampled(w, 1, ip) && sampled(w, 1, iq));
                assert(uf@[ip] == uf@[iq]);
                assert(f(point_at(ip, w)) == f(point_at(iq, w)));
            }
        }
    }
}

/// The tree's edges as pairs of points of a grid `width` cells wide.
fn to_points(tree: &Vec<(usize, usize)>, width: usize) -> (r: Vec<(Point, Point)>)
    requires
        width > 0,
    ensures
        r@ == tree_lines(tree@, width as int),
{
    let mut r: Vec<(Point, Point)> = Vec::new();
    let mut k: usize = 0;
    while k < tree.len()
        invariant
            width > 0,
            k <= tree@.len(),
            r@ =~= tree_lines(tree@.subrange(0, k as int), width as int),
        decreases tree@.len() - k,
    {
        let (a, b) = tree[k];
        r.push((Point::from_1d_index(a, width), Point::from_1d_index(b, width)));
        k = k + 1;
        proof {
            assert(tree@.subrange(0, k as int).drop_last() =~= tree@.subrange(0, k - 1));
        }
    }
    proof {
        assert(tree@.subrange(0, tree@.len() as int) =~= tree@);
    }
    r
}

/// Moves every line one column to the right under `Offset::One`.
fn shift_horizontal(edges: &mut Vec<(Point, Point)>, offset: Offset)
    requires
        forall|k: int|
            0 <= k < old(edges)@.len() ==> #[trigger] old(edges)@[k].0.y < usize::MAX
                && old(edges)@[k].1.y < usize::MAX,
    ensures
        final(edges)@ == if offset == Offset::One {
            moved_lines(old(edges)@, 0, 1)
        } else {
            old(edges)@
        },
{
    if offset == Offset::Zero {
        return;
    }
    let ghost start = edges@;
    let mut k: usize = 0;
    while k < edges.len()
        invariant
            k <= edges@.len(),
            edges@.len() == start.len(),
            forall|j: int|
                0 <= j < start.len() ==> #[trigger] start[j].0.y < usize::MAX && start[j].1.y
                    < usize::MAX,
            forall|j: int| k <= j < start.len() ==> #[trigger] edges@[j] == start[j],
            forall|j: int|
                0 <= j < k ==> #[trigger] edges@[j] == (
                moved(start[j].0, 0, 1),
                moved(start[j].1, 0, 1),
            ),
        decreases edges@.len() - k,
    {
        let (mut a, mut b) = edges[k];
        proof {
            assert(edges@[k as int] == start[k as int]);
        }
        a.shift_horizontal();
        b.shift_horizontal();
        edges[k] = (a, b);
        k = k + 1;
    }
    proof {
        assert(edges@ =~= moved_lines(start, 0, 1));
    }
}

/// Moves every line one row down under `Offset::One`.
fn shift_vertical(edges: &mut Vec<(Point, Point)>, offset: Offset)
    requires
        forall|k: int|
            0 <= k < old(edges)@.len() ==> #[trigger] old(edges)@[k].0.x < usize::MAX
                && old(edges)@[k].1.x < usize::MAX,
    ensures
        final(edges)@ == if offset == Offset::One {
            moved_lines(old(edges)@, 1, 0)
        } else {
            old(edges)@
        },
{
    if offset == Offset::Zero {
        return;
    }
    let ghost start = edges@;
    let mut k: usize = 0;
    while k < edges.len()
        invariant
            k <= edges@.len(),
            edges@.len() == start.len(),
            forall|j: int|
                0 <= j < start.len() ==> #[trigger] start[j].0.x < usize::MAX && start[j].1.x
                    < usize::MAX,
            forall|j: int| k <= j < start.len() ==> #[trigger] edges@[j] == start[j],
            forall|j: int|
                0 <= j < k ==> #[trigger] edges@[j] == (
                moved(start[j].0, 1, 0),
                moved(start[j].1, 1, 0),
            ),
        decreases edges@.len() - k,
    {
        let (mut a, mut b) = edges[k];
        proof {
            assert(edges@[k as int] == start[k as int]);
        }
        a.shift_vertical();
        b.shift_vertical();
        edges[k] = (a, b);
        k = k + 1;
    }
    proof {
        assert(edges@ =~= moved_lines(start, 1, 0));
    }
}

/// Moves every point one row down and one column right, into the margin's frame.
fn shift_into_margin(edges: &mut Vec<(Point, Point)>)
    requires
        forall|k: int|
            0 <= k < old(edges)@.len() ==> #[trigger] old(edges)@[k].0.x < usize::MAX
                && old(edges)@[k].1.x < usize::MAX && old(edges)@[k].0.y < usize::MAX
                && old(edges)@[k].1.y < usize::MAX,
    ensures
        final(edges)@ == moved_lines(old(edges)@, 1, 1),
{
    let ghost start = edges@;
    let mut k: usize = 0;
    while k < edges.len()
        invariant
            k <= edges@.len(),
            edges@.len() == start.len(),
            forall|j: int|
                0 <= j < start.len() ==> #[trigger] start[j].0.x < usize::MAX && start[j].1.x
                    < usize::MAX && start[j].0.y < usize::MAX && start[j].1.y < usize::MAX,
            forall|j: int| k <= j < start.len() ==> #[trigger] edges@[j] == start[j],
            forall|j: int|
                0 <= j < k ==> #[trigger] edges@[j] == (
                moved(start[j].0, 1, 1),
                moved(start[j].1, 1, 1),
            ),
        decreases edges@.len() - k,
    {
        let (mut a, mut b) = edges[k];
        proof {
            assert(edges@[k as int] == start[k as int]);
            assert(start[k as int].0.x < usize::MAX);
        }
        a.shift_horizontal();
        a.shift_vertical();
        b.shift_horizontal();
        b.shift_vertical();
        edges[k] = (a, b);
        k = k + 1;
    }
    proof {
        assert(edges@ =~= moved_lines(start, 1, 1));
    }
}

proof fn lemma_index_split(k: int, t: int, step: int)
    requires
        step > 0,
        0 <= t < step,
        0 <= k,
    ensures
        (k * step + t) / step == k,
        (k * step + t) % step == t,
{
    lemma_fundamental_div_mod_converse(k * step + t, step, k, t);
}

/// Cuts every segment into `step` pieces of equal length.
fn divide_edges(lines: &Vec<(Point, Point)>, step: usize) -> (r: Vec<(Point, Point)>)
    requires
        step >= 1,
        forall|k: int|
            0 <= k < lines@.len() ==> axis_aligned(#[trigger] lines@[k]) && splits_evenly(
                lines@[k],
                step as int,
            ),
    ensures
        r@ == divided(lines@, step as int),
{
    let mut edges: Vec<(Point, Point)> = Vec::new();
    let mut k: usize = 0;
    while k < lines.len()
        invariant
            step >= 1,
            k <= lines@.len(),
            forall|j: int| 0 <= j < lines@.len() ==> axis_aligned(#[trigger] lines@[j]),
            edges@.len() == k * step,
            forall|j: int|
                0 <= j < edges@.len() ==> #[trigger] edges@[j] == piece(
                    lines@[j / step as int],
                    j % step as int,
                    step as int,
                ),
        decreases lines@.len() - k,
    {
        let (start, end) = lines[k];
        let (from, to) = if start.x < end.x || (start.x == end.x && start.y <= end.y) {
            (start, end)
        } else {
            (end, start)
        };
        let ux = (to.x - from.x) / step;
        let uy = (to.y - from.y) / step;
        proof {
            lemma_fundamental_div_mod((to.x - from.x) as int, step as int);
            lemma_fundamental_div_mod((to.y - from.y) as int, step as int);
        }
        let mut t: usize = 0;
        let mut cx = from.x;
        let mut cy = from.y;
        while t < step
            invariant
                step >= 1,
                k < lines@.len(),
                lines@[k as int] == (start, end),
                ux == (to.x - from.x) / (step as int),
                uy == (to.y - from.y) / (step as int),
                from.x <= to.x,
                from.y <= to.y,
                step * ux <= to.x - from.x,
                step * uy <= to.y - from.y,
                from == (if precedes(start, end) { start } else { end }),
                to == (if precedes(start, end) { end } else { start }),
                t <= step,
                cx == from.x + t * ux,
                cy == from.y + t * uy,
                edges@.len() == k * step + t,
                forall|j: int|
                    0 <= j < edges@.len() ==> #[trigger] edges@[j] == piece(
                        lines@[j / step as int],
                        j % step as int,
                        step as int,
                    ),
            decreases step - t,
        {
            proof {
                assert((t + 1) * ux <= step * ux && (t + 1) * uy <= step * uy) by (nonlinear_arith)
                    requires
                        t + 1 <= step,
                        ux >= 0,
                        uy >= 0,
                ;
                assert((t + 1) * ux == t * ux + ux && (t + 1) * uy == t * uy + uy)
                    by (nonlinear_arith);
                lemma_index_split(k as int, t as int, step as int);
            }
            edges.push((Point::new(cx, cy), Point::new(cx + ux, cy + uy)));
            cx = cx + ux;
            cy = cy + uy;
            t = t + 1;
        }
        k = k + 1;
        proof {
            assert(edges@.len() == k * step) by (nonlinear_arith)
                requires
                    edges@.len() == (k - 1) * step + step,
            ;
        }
    }
    proof {
        assert(edges@ =~= divided(lines@, step as int));
    }
    edges
}

proof fn lemma_below_samples(len: int, step: int, t: int)
    requires
        step >= 1,
        0 <= t,
        t * step < len,
    ensures
        t < samples(len, step),
{
    lemma_fundamental_div_mod(len - 1, step);
    let q = (len - 1) / step;
    assert(t <= q) by (nonlinear_arith)
        requires
            t * step <= len - 1,
            step >= 1,
            len - 1 == step * q + (len - 1) % step,
            (len - 1) % step < step,
    ;
}

/// Appends, on every `step`-th row, the unit edge between the skeleton and the
/// extra column: the last two columns under `Offset::Zero`, the first two under
/// `Offset::One`.
fn add_end_horizontal(
    edges: &mut Vec<(Point, Point)>,
    width: usize,
    height: usize,
    step: usize,
    offset: Offset,
)
    requires
        width >= 2,
        step >= 1,
    ensures
        final(edges)@ == old(edges)@ + caps_horizontal(
            width as int,
            height as int,
            step as int,
            offset,
        ),
{
    let ghost start = edges@;
    let ghost caps = caps_horizontal(width as int, height as int, step as int, offset);
    if height == 0 {
        assert(edges@ =~= start + caps);
        return;
    }
    let mut row: usize = 0;
    let ghost mut t: int = 0;
    loop
        invariant_except_break
            row < height,
            row == t * step,
            edges@ =~= start + caps.subrange(0, t),
        invariant
            width >= 2,
            step >= 1,
            0 <= t,
            caps == caps_horizontal(width as int, height as int, step as int, offset),
        ensures
            edges@ =~= start + caps,
        decreases height - row,
    {
        proof {
            lemma_below_samples(height as int, step as int, t);
        }
        match offset {
            Offset::Zero => edges.push((Point::new(row, width - 2), Point::new(row, width - 1))),
            Offset::One => edges.push((Point::new(row, 0), Point::new(row, 1))),
        }
        proof {
            assert(edges@ =~= start + caps.subrange(0, t + 1));
        }
        if step >= height - row {
            proof {
                lemma_fundamental_div_mod_converse((height - 1) as int, step as int, t, height - 1 - row);
                assert(caps.subrange(0, t + 1) =~= caps);
            }
            break;
        }
        proof {
            assert((t + 1) * step == row + step) by (nonlinear_arith)
                requires
                    row == t * step,
            ;
        }
        row = row + step;
        proof {
            t = t + 1;
        }
    }
}

/// Appends, on every `step`-th column, the unit edge between the skeleton and the
/// extra row: the last two rows under `Offset::Zero`, the first two under
/// `Offset::One`.
fn add_end_vertical(
    edges: &mut Vec<(Point, Point)>,
    width: usize,
    height: usize,
    step: usize,
    offset: Offset,
)
    requires
        height >= 2,
        step >= 1,
    ensures
        final(edges)@ == old(edges)@ + caps_vertical(
            width as int,
            height as int,
            step as int,
            offset,
        ),
{
    let ghost start = edges@;
    let ghost caps = caps_vertical(width as int, height as int, step as int, offset);
    if width == 0 {
        assert(edges@ =~= start + caps);
        return;
    }
    let mut col: usize = 0;
    let ghost mut t: int = 0;
    loop
        invariant_except_break
            col < width,
            col == t * step,
            edges@ =~= start + caps.subrange(0, t),
        invariant
            height >= 2,
            step >= 1,
            0 <= t,
            caps == caps_vertical(width as int, height as int, step as int, offset),
        ensures
            edges@ =~= start + caps,
        decreases width - col,
    {
        proof {
            lemma_below_samples(width as int, step as int, t);
        }
        match offset {
            Offset::Zero => edges.push((Point::new(height - 2, col), Point::new(height - 1, col))),
            Offset::One => edges.push((Point::new(0, col), Point::new(1, col))),
        }
        proof {
            assert(edges@ =~= start + caps.subrange(0, t + 1));
        }
        if step >= width - col {
            proof {
                lemma_fundamental_div_mod_converse((width - 1) as int, step as int, t, width - 1 - col);
                assert(caps.subrange(0, t + 1) =~= caps);
            }
            break;
        }
        proof {
            assert((t + 1) * step == col + step) by (nonlinear_arith)
                requires
                    col == t * step,
            ;
        }
        col = col + step;
        proof {
            t = t + 1;
        }
    }
}

/// Cell counts for which no single stroke is built: under two cells across or down,
/// or both line counts `width - 1` and `height - 1` even.
pub open spec fn stroke_rejected(width: int, height: int) -> bool {
    width < 2 || height < 2 || ((width - 1) % 2 == 0 && (height - 1) % 2 == 0)
}

/// Columns of the grid that the skeleton's tree spans: `width - 1` rounded down
/// to an odd number.
pub open spec fn tree_width(width: int) -> int {
    (width - 1) - width % 2
}

/// `tree` is what a randomized Kruskal pass selects as used over the grid
/// sampled every second cell, for the skeleton of a `width` by `height` maze.
pub open spec fn stroke_tree(width: int, height: int, tree: Seq<(usize, usize)>) -> bool {
    let gw = tree_width(width);
    let gh = tree_width(height);
    if gw <= 2 && gh <= 2 {
        tree.len() == 0
    } else {
        exists|edges: Seq<(usize, usize)>|
            grid_edge_list(gw, gh, 2, edges) && tree == kruskal_result(
                (gw * gh) as nat,
                edges,
                KruskalResultEdge::Used,
            )
    }
}

/// `out` is the single-stroke maze of `width` by `height` cells built on `tree`
/// and `offset`, over the lattice of `width + 1` by `height + 1` points: the
/// skeleton, then a fill grown from the corner, then unit edges that join what was
/// still apart; the whole is one piece touching every lattice point.
pub open spec fn is_single_stroke(
    width: int,
    height: int,
    tree: Seq<(usize, usize)>,
    offset: Offset,
    out: Seq<(Point, Point)>,
) -> bool {
    let base = skeleton(width, height, tree, offset);
    let w = width + 1;
    let h = height + 1;
    &&& base.len() <= out.len()
    &&& out.subrange(0, base.len() as int) == base
    &&& exists|m: int|
        base.len() <= m <= out.len() && fills_from_corner(
            base,
            out.subrange(base.len() as int, m),
            w,
            h,
) && unit_edges_from(out, m, w, h)
    &&& lattice_joined(out, w, h)
    &&& forall|p: Point| in_lattice(p, w, h) ==> #[trigger] touched(out, p)
}

/// In a lattice of at least two points that the edges join into one piece, every
/// point is an end of some edge.
pub proof fn lemma_joined_touches(edges: Seq<(Point, Point)>, width: int, height: int, p: Point)
    requires
        width >= 2,
        height >= 1,
        lattice_joined(edges, width, height),
        in_lattice(p, width, height),
    ensures
        touched(edges, p),
{
    if !touched(edges, p) {
        let f = |q: Point| if q == p { 1int } else { 0int };
        assert forall|k: int| 0 <= k < edges.len() implies f(#[trigger] edges[k].0) == f(
            edges[k].1,
        ) by {
            assert(edges[k].0 != p && edges[k].1 != p);
        }
        assert(respects_points(f, edges));
        let q = if p.y == 0 {
            Point { x: p.x, y: 1 }
        } else {
            Point { x: p.x, y: 0 }
        };
        assert(f(p) == f(q));
    }
}

/// The segment goes two units down or two units right from its first end and ends
/// above row `rows` and left of column `cols`.
spec fn span_two(l: (Point, Point), rows: int, cols: int) -> bool {
    ((l.1.x == l.0.x + 2 && l.1.y == l.0.y) || (l.1.x == l.0.x && l.1.y == l.0.y + 2)) && l.1.x
        < rows && l.1.y < cols
}

proof fn lemma_tree_lines(tree: Seq<(usize, usize)>, gw: int, gh: int)
    requires
        gw >= 1,
        forall|k: int| 0 <= k < tree.len() ==> is_grid_edge(gw, gh, 2, #[trigger] tree[k]),
    ensures
        forall|k: int| 0 <= k < tree.len() ==> span_two(#[trigger] tree_lines(tree, gw)[k], gh, gw),
{
    assert forall|k: int| 0 <= k < tree.len() implies span_two(
        #[trigger] tree_lines(tree, gw)[k],
        gh,
        gw,
    ) by {
        let e = tree[k];
        assert(is_grid_edge(gw, gh, 2, e));
        let (r, c) = choose|r: int, c: int|
            is_down_edge(gw, gh, 2, r, c, e) || is_right_edge(gw, gh, 2, r, c, e);
        lemma_fundamental_div_mod_converse(e.0 as int, gw, r, c);
        if is_down_edge(gw, gh, 2, r, c, e) {
            lemma_fundamental_div_mod_converse(e.1 as int, gw, r + 2, c);
        } else {
            lemma_fundamental_div_mod_converse(e.1 as int, gw, r, c + 2);
        }
    }
}

/// The ends of the segment lie above row `rows` and left of column `cols`.
spec fn inside(l: (Point, Point), rows: int, cols: int) -> bool {
    l.0.x < rows && l.1.x < rows && l.0.y < cols && l.1.y < cols
}

proof fn lemma_aligned_bounds(
    lines: Seq<(Point, Point)>,
    width: int,
    height: int,
    gw: int,
    gh: int,
    offset: Offset,
)
    requires
        0 <= width <= usize::MAX,
        0 <= height <= usize::MAX,
        gw == width - (width + 1) % 2,
        gh == height - (height + 1) % 2,
        forall|k: int| 0 <= k < lines.len() ==> span_two(#[trigger] lines[k], gh, gw),
    ensures
        forall|k: int|
            0 <= k < aligned(lines, width, height, offset).len() ==> span_two(
                #[trigger] aligned(lines, width, height, offset)[k],
                height,
                width,
            ) && axis_aligned(aligned(lines, width, height, offset)[k]) && splits_evenly(
                aligned(lines, width, height, offset)[k],
                2,
            ),
{
    let al = aligned(lines, width, height, offset);
    assert forall|k: int| 0 <= k < al.len() implies span_two(#[trigger] al[k], height, width)
        && axis_aligned(al[k]) && splits_evenly(al[k], 2) by {
        assert(span_two(lines[k], gh, gw));
    }
}

proof fn lemma_divided_bounds(lines: Seq<(Point, Point)>, rows: int, cols: int)
    requires
        forall|k: int| 0 <= k < lines.len() ==> span_two(#[trigger] lines[k], rows, cols),
    ensures
        forall|k: int|
            0 <= k < divided(lines, 2).len() ==> inside(#[trigger] divided(lines, 2)[k], rows, cols),
{
    assert forall|k: int| 0 <= k < divided(lines, 2).len() implies inside(
        #[trigger] divided(lines, 2)[k],
        rows,
        cols,
    ) by {
        let l = lines[k / 2];
        assert(span_two(l, rows, cols));
        assert(divided(lines, 2)[k] == piece(l, k % 2, 2));
        assert(precedes(l.0, l.1));
        if k % 2 == 0 {
            assert(0 * ((l.1.x - l.0.x) / 2) == 0 && 0 * ((l.1.y - l.0.y) / 2) == 0);
        }
        if l.1.x == l.0.x + 2 {
            assert((l.1.x - l.0.x) / 2 == 1 && (l.1.y - l.0.y) / 2 == 0);
        } else {
            assert((l.1.x - l.0.x) / 2 == 0 && (l.1.y - l.0.y) / 2 == 1);
        }
    }
}

proof fn lemma_caps_bounds(
    lines: Seq<(Point, Point)>,
    edges: Seq<(Point, Point)>,
    width: int,
    height: int,
    offset: Offset,
    across: bool,
)
    requires
        width >= 1,
        height >= 1,
        across ==> width >= 2,
        !across ==> height >= 2,
        forall|k: int| 0 <= k < lines.len() ==> inside(#[trigger] lines[k], height, width),
        edges == lines + if across {
            caps_horizontal(width, height, 2, offset)
        } else {
            caps_vertical(width, height, 2, offset)
        },
    ensures
        forall|k: int| 0 <= k < edges.len() ==> inside(#[trigger] edges[k], height, width),
{
    assert forall|k: int| 0 <= k < edges.len() implies inside(#[trigger] edges[k], height, width) by {
        if k >= lines.len() {
            let t = k - lines.len();
            if across {
                assert(edges[k] == caps_horizontal(width, height, 2, offset)[t]);
                assert(t * 2 < height);
            } else {
                assert(edges[k] == caps_vertical(width, height, 2, offset)[t]);
                assert(t * 2 < width);
            }
        } else {
            assert(edges[k] == lines[k]);
        }
    }
}

proof fn lemma_margin_bounds(edges: Seq<(Point, Point)>, width: int, height: int)
    requires
        width + 2 <= usize::MAX,
        height + 2 <= usize::MAX,
        forall|k: int| 0 <= k < edges.len() ==> inside(#[trigger] edges[k], height, width),
    ensures
        forall|k: int|
            0 <= k < edges.len() ==> in_lattice(
                #[trigger] moved_lines(edges, 1, 1)[k].0,
                width + 2,
                height + 2,
            ) && in_lattice(moved_lines(edges, 1, 1)[k].1, width + 2, height + 2),
{
    assert forall|k: int| 0 <= k < edges.len() implies in_lattice(
        #[trigger] moved_lines(edges, 1, 1)[k].0,
        width + 2,
        height + 2,
    ) && in_lattice(moved_lines(edges, 1, 1)[k].1, width + 2, height + 2) by {
        assert(inside(edges[k], height, width));
    }
}

proof fn lemma_fill_in_lattice(base: Seq<(Point, Point)>, mid: Seq<(Point, Point)>, w: int, h: int)
    requires
        w >= 1,
        h >= 1,
        base.len() <= mid.len(),
        mid.subrange(0, base.len() as int) == base,
        forall|k: int|
            0 <= k < base.len() ==> in_lattice(#[trigger] base[k].0, w, h) && in_lattice(
                base[k].1,
                w,
                h,
            ),
        fills_from_corner(base, mid.subrange(base.len() as int, mid.len() as int), w, h),
    ensures
        edges_in_lattice(mid, w, h),
{
    let fill = mid.subrange(base.len() as int, mid.len() as int);
    assert forall|k: int| 0 <= k < mid.len() implies in_lattice(#[trigger] mid[k].0, w, h)
        && in_lattice(mid[k].1, w, h) by {
        if k >= base.len() {
            let j = k - base.len();
            assert(mid[k] == fill[j]);
            assert(neighbours(fill[j].0, fill[j].1));
            assert(in_lattice(fill[j].1, w, h));
            if fill[j].0 == corner() {
                assert(in_lattice(fill[j].0, w, h));
            } else {
                assert(exists|i: int| 0 <= i < j && fill[i].1 == fill[j].0);
                let i = choose|i: int| 0 <= i < j && fill[i].1 == fill[j].0;
                assert(neighbours(fill[i].0, fill[i].1));
                assert(in_lattice(fill[i].1, w, h));
            }
        } else {
            assert(mid[k] == base[k]);
            assert(in_lattice(base[k].0, w, h));
        }
    }
}

proof fn lemma_assembled(
    sk: Seq<(Point, Point)>,
    mid: Seq<(Point, Point)>,
    out: Seq<(Point, Point)>,
    w: int,
    h: int,
)
    requires
        w >= 2,
        h >= 1,
        sk.len() <= mid.len(),
        mid.subrange(0, sk.len() as int) == sk,
        fills_from_corner(sk, mid.subrange(sk.len() as int, mid.len() as int), w, h),
        mid.len() <= out.len(),
        out.subrange(0, mid.len() as int) == mid,
        unit_edges_from(out, mid.len() as int, w, h),
        lattice_joined(out, w, h),
    ensures
        sk.len() <= out.len(),
        out.subrange(0, sk.len() as int) == sk,
        exists|m: int|
            sk.len() <= m <= out.len() && fills_from_corner(sk, out.subrange(sk.len() as int, m), w, h)
                && unit_edges_from(out, m, w, h),
        forall|p: Point| in_lattice(p, w, h) ==> #[trigger] touched(out, p),
{
    assert(out.subrange(0, sk.len() as int) =~= mid.subrange(0, sk.len() as int));
    assert(out.subrange(sk.len() as int, mid.len() as int) =~= mid.subrange(
        sk.len() as int,
        mid.len() as int,
    ));
    let m = mid.len() as int;
    assert(sk.len() <= m <= out.len() && fills_from_corner(sk, out.subrange(sk.len() as int, m), w, h));
    assert forall|p: Point| in_lattice(p, w, h) implies #[trigger] touched(out, p) by {
        lemma_joined_touches(out, w, h, p);
    }
}

/// The single-stroke maze of `width` by `height` cells built on the spanning tree
/// `tree` over every second lattice point and on the alignment `offset`.
pub fn single_stroke_from_tree(
    width: usize,
    height: usize,
    tree: &Vec<(usize, usize)>,
    offset: Offset,
) -> (r: Vec<(Point, Point)>)
    requires
        !stroke_rejected(width as int, height as int),
        (width + 1) * (height + 1) <= i32::MAX,
        forall|k: int|
            0 <= k < tree@.len() ==> is_grid_edge(
                tree_width(width as int),
                tree_width(height as int),
                2,
                #[trigger] tree@[k],
            ),
    ensures
        is_single_stroke(width as int, height as int, tree@, offset, r@),
{
    proof {
        assert(width + 1 <= (width + 1) * (height + 1)) by (nonlinear_arith)
            requires
                height >= 2,
        ;
        assert(height + 1 <= (width + 1) * (height + 1)) by (nonlinear_arith)
            requires
                width >= 2,
        ;
    }
    let width = width - 1;
    let height = height - 1;
    let step: usize = 2;
    let grid_w = width - (width + 1) % 2;
    let ghost gh = tree_width(height + 1);
    let mut lines = to_points(tree, grid_w);
    proof {
        lemma_tree_lines(tree@, grid_w as int, gh);
    }
    let ghost lines0 = lines@;
    if width % 2 == 0 {
        shift_horizontal(&mut lines, offset);
    } else if height % 2 == 0 {
        shift_vertical(&mut lines, offset);
    }
    proof {
        lemma_aligned_bounds(lines0, width as int, height as int, grid_w as int, gh, offset);
    }
    let ghost aligned_lines = lines@;
    let mut edges = divide_edges(&lines, step);
    proof {
        lemma_divided_bounds(aligned_lines, height as int, width as int);
    }
    let ghost divided_lines = edges@;
    if width % 2 == 0 {
        add_end_horizontal(&mut edges, width, height, step, offset);
    } else if height % 2 == 0 {
        add_end_vertical(&mut edges, width, height, step, offset);
    }
    proof {
        if width % 2 == 0 {
            lemma_caps_bounds(divided_lines, edges@, width as int, height as int, offset, true);
        } else if height % 2 == 0 {
            lemma_caps_bounds(divided_lines, edges@, width as int, height as int, offset, false);
        }
    }
    let ghost capped = edges@;
    let w = width + 2;
    let h = height + 2;
    shift_into_margin(&mut edges);
    proof {
        lemma_margin_bounds(capped, width as int, height as int);
    }
    fill_from_corner(&mut edges, w, h);
    proof {
        lemma_fill_in_lattice(moved_lines(capped, 1, 1), edges@, w as int, h as int);
    }
    let ghost mid = edges@;
    join_components(&mut edges, w, h);
    proof {
        lemma_assembled(
            skeleton(width + 1, height + 1, tree@, offset),
            mid,
            edges@,
            w as int,
            h as int,
        );
    }
    edges
}

/// A single-stroke maze of `width` by `height` cells: its skeleton is a randomized
/// spanning tree over every second lattice point, aligned by a random offset; nothing
/// where the size admits no single stroke.
pub fn single_stroke_maze(width: usize, height: usize) -> (r: Vec<(Point, Point)>)
    requires
        width * height <= i32::MAX,
        (width + 1) * (height + 1) <= i32::MAX,
    ensures
        stroke_rejected(width as int, height as int) ==> r@.len() == 0,
        !stroke_rejected(width as int, height as int) ==> exists|
            tree: Seq<(usize, usize)>,
            offset: Offset,
        |
            stroke_tree(width as int, height as int, tree) && is_single_stroke(
                width as int,
                height as int,
                tree,
                offset,
                r@,
            ),
{
    if width < 2 || height < 2 {
        return Vec::new();
    }
    let lines_w = width - 1;
    let lines_h = height - 1;
    if lines_w % 2 == 0 && lines_h % 2 == 0 {
        return Vec::new();
    }
    let step: usize = 2;
    let grid_w = lines_w - (lines_w + 1) % 2;
    let grid_h = lines_h - (lines_h + 1) % 2;
    proof {
        assert(grid_w * grid_h <= width * height) by (nonlinear_arith)
            requires
                grid_w <= width,
                grid_h <= height,
        ;
    }
    let used_grid_line = extract_maze_edges_by_kruskal(
        grid_w,
        grid_h,
        step,
        KruskalResultEdge::Used,
    );
    proof {
        if !(grid_w <= 2 && grid_h <= 2) {
            let es = choose|es: Seq<(usize, usize)>|
                grid_edge_list(grid_w as int, grid_h as int, 2, es) && used_grid_line@
                    == kruskal_result((grid_w * grid_h) as nat, es, KruskalResultEdge::Used);
            lemma_result_from_edges((grid_w * grid_h) as nat, es);
            assert forall|k: int| 0 <= k < used_grid_line@.len() implies is_grid_edge(
                grid_w as int,
                grid_h as int,
                2,
                #[trigger] used_grid_line@[k],
            ) by {
                assert(es.contains(used_grid_line@[k]));
                let j = choose|j: int| 0 <= j < es.len() && es[j] == used_grid_line@[k];
                assert(is_grid_edge(grid_w as int, grid_h as int, 2, es[j]));
            }
        }
    }
    let offset = if random_bool() {
        Offset::One
    } else {
        Offset::Zero
    };
    let r = single_stroke_from_tree(width, height, &used_grid_line, offset);
    proof {
        assert(tree_width(width as int) == grid_w && tree_width(height as int) == grid_h);
        assert(stroke_tree(width as int, height as int, used_grid_line@));
    }
    r
}

} // verus!
