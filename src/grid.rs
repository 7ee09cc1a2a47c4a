//! Grid graphs: sampled nodes and their right and down neighbours.
use vstd::arithmetic::div_mod::{
    lemma_fundamental_div_mod, lemma_fundamental_div_mod_converse, lemma_mod_multiples_basic,
};
use vstd::prelude::*;

verus! {

/// Number of sampled positions `0, step, 2 * step, ...` below `len`.
pub open spec fn samples(len: int, step: int) -> int {
    if len <= 0 {
        0
    } else {
        (len - 1) / step + 1
    }
}

/// `(r, c)` is a sampled cell of the grid.
pub open spec fn grid_node(width: int, height: int, step: int, r: int, c: int) -> bool {
    0 <= r < height && 0 <= c < width && r % step == 0 && c % step == 0
}

/// `e` joins the sampled cell `(r, c)` to the one `step` rows below.
pub open spec fn is_down_edge(
    width: int,
    height: int,
    step: int,
    r: int,
    c: int,
    e: (usize, usize),
) -> bool {
    grid_node(width, height, step, r, c) && r + step < height && e.0 == r * width + c && e.1 == (r
        + step) * width + c
}

/// `e` joins the sampled cell `(r, c)` to the one `step` columns to the right.
pub open spec fn is_right_edge(
    width: int,
    height: int,
    step: int,
    r: int,
    c: int,
    e: (usize, usize),
) -> bool {
    grid_node(width, height, step, r, c) && c + step < width && e.0 == r * width + c && e.1 == r
        * width + c + step
}

/// `e` is an edge of the grid graph sampled every `step` cells.
pub open spec fn is_grid_edge(width: int, height: int, step: int, e: (usize, usize)) -> bool {
    exists|r: int, c: int|
        #![trigger is_down_edge(width, height, step, r, c, e)]
        #![trigger is_right_edge(width, height, step, r, c, e)]
        is_down_edge(width, height, step, r, c, e) || is_right_edge(width, height, step, r, c, e)
}

/// Number of edges of the sampled grid graph: down pairs plus right pairs.
pub open spec fn grid_edge_count(width: int, height: int, step: int) -> int {
    let w = samples(width, step);
    let h = samples(height, step);
    if width <= 0 || height <= 0 {
        0
    } else {
        w * (h - 1) + h * (w - 1)
    }
}

/// The edges from the cell `(r, c)`: down first, then right, each where it exists.
pub open spec fn adjacent(width: int, height: int, step: int, r: int, c: int) -> Seq<(usize, usize)> {
    let a = r * width + c;
    let down = if r + step < height {
        seq![(a as usize, ((r + step) * width + c) as usize)]
    } else {
        seq![]
    };
    let right = if c + step < width {
        seq![(a as usize, (a + step) as usize)]
    } else {
        seq![]
    };
    down + right
}

pub proof fn lemma_multiples_apart(i: int, r: int, s: int)
    requires
        s > 0,
        i % s == 0,
        r % s == 0,
        i <= r < i + s,
    ensures
        r == i,
{
    lemma_fundamental_div_mod(i, s);
    lemma_fundamental_div_mod(r, s);
    let qi = i / s;
    let qr = r / s;
    assert(qi == qr) by (nonlinear_arith)
        requires
            s > 0,
            s * qi <= s * qr,
            s * qr < s * qi + s,
    ;
}

proof fn lemma_samples_last(len: int, s: int, t: int)
    requires
        s > 0,
        t >= 0,
        t * s < len <= t * s + s,
    ensures
        samples(len, s) == t + 1,
{
    lemma_fundamental_div_mod_converse(len - 1, s, t, len - 1 - t * s);
}

pub proof fn lemma_cell_in_range(width: int, height: int, r: int, c: int)
    requires
        0 <= r < height,
        0 <= c < width,
    ensures
        0 <= r * width + c < width * height,
        r * width <= r * width + c,
{
    assert(0 <= r * width + c < width * height) by (nonlinear_arith)
        requires
            0 <= r < height,
            0 <= c < width,
    ;
}

/// The edges of the grid graph over `height` rows and `width` columns sampled every
/// `step` cells, node `(r, c)` being `r * width + c`.
pub fn grid_edges(width: usize, height: usize, step: usize) -> (edges: Vec<(usize, usize)>)
    requires
        step >= 1,
        width * height <= usize::MAX,
    ensures
        edges@.len() == grid_edge_count(width as int, height as int, step as int),
        edges@.no_duplicates(),
        forall|k: int|
            0 <= k < edges@.len() ==> is_grid_edge(
                width as int,
                height as int,
                step as int,
                #[trigger] edges@[k],
            ) && edges@[k].0 < edges@[k].1 < width * height,
        forall|r: int, c: int, e: (usize, usize)|
            #[trigger] is_down_edge(width as int, height as int, step as int, r, c, e)
                ==> edges@.contains(e),
        forall|r: int, c: int, e: (usize, usize)|
            #[trigger] is_right_edge(width as int, height as int, step as int, r, c, e)
                ==> edges@.contains(e),
{
    let mut edges: Vec<(usize, usize)> = Vec::new();
    if width == 0 || height == 0 {
        return edges;
    }
    let ghost w = width as int;
    let ghost h = height as int;
    let ghost s = step as int;
    let ghost sw = samples(w, s);
    let mut i: usize = 0;
    let ghost mut ti: int = 0;
    loop
        invariant
            step >= 1,
            w == width,
            h == height,
            s == step,
            sw == samples(w, s),
            width >= 1,
            width * height <= usize::MAX,
            0 <= ti,
            i == ti * s,
            i < height,
            edges@.len() == ti * (2 * sw - 1),
            edges@.no_duplicates(),
            forall|k: int|
                0 <= k < edges@.len() ==> is_grid_edge(w, h, s, #[trigger] edges@[k])
                    && edges@[k].0 < edges@[k].1 < width * height && edges@[k].0 < i * w,
            forall|r: int, c: int, e: (usize, usize)|
                #[trigger] is_down_edge(w, h, s, r, c, e) && r < i ==> edges@.contains(e),
            forall|r: int, c: int, e: (usize, usize)|
                #[trigger] is_right_edge(w, h, s, r, c, e) && r < i ==> edges@.contains(e),
        decreases height - i,
    {
        proof {
            lemma_mod_multiples_basic(ti, s);
        }
        let ghost base = edges@.len() as int;
        let ghost d: int = if i + s < h { 1 } else { 0 };
        let mut j: usize = 0;
        let ghost mut tj: int = 0;
        loop
            invariant_except_break
                edges@.len() == base + tj * (d + 1),
                forall|k: int| 0 <= k < edges@.len() ==> #[trigger] edges@[k].0 < i * w + j,
                forall|r: int, c: int, e: (usize, usize)|
                    #[trigger] is_down_edge(w, h, s, r, c, e) && (r < i || (r == i && c < j))
                        ==> edges@.contains(e),
                forall|r: int, c: int, e: (usize, usize)|
                    #[trigger] is_right_edge(w, h, s, r, c, e) && (r < i || (r == i && c < j))
                        ==> edges@.contains(e),
            invariant
                step >= 1,
                w == width,
                h == height,
                s == step,
                sw == samples(w, s),
                width * height <= usize::MAX,
                i == ti * s,
                (i as int) % s == 0,
                i < height,
                0 <= tj,
                j == tj * s,
                j < width,
                d == if i + s < h { 1int } else { 0int },
                edges@.no_duplicates(),
                forall|k: int|
                    0 <= k < edges@.len() ==> is_grid_edge(w, h, s, #[trigger] edges@[k])
                        && edges@[k].0 < edges@[k].1 < width * height,
            ensures
                edges@.len() == base + sw * d + sw - 1,
                forall|k: int| 0 <= k < edges@.len() ==> #[trigger] edges@[k].0 < i * w + w,
                forall|r: int, c: int, e: (usize, usize)|
                    #[trigger] is_down_edge(w, h, s, r, c, e) && r <= i ==> edges@.contains(e),
                forall|r: int, c: int, e: (usize, usize)|
                    #[trigger] is_right_edge(w, h, s, r, c, e) && r <= i ==> edges@.contains(e),
            decreases width - j,
        {
            proof {
                lemma_mod_multiples_basic(tj, s);
                lemma_cell_in_range(w, h, i as int, j as int);
            }
            let ghost before = edges@;
            add_adjacent_edge(&mut edges, i, j, width, height, step);
            let ghost a = i * w + j;
            proof {
                let added = adjacent(w, h, s, i as int, j as int);
                assert(edges@ == before + added);
                if i + s < h {
                    assert(((i + s) * w + j) < w * h) by (nonlinear_arith)
                        requires
                            i + s < h,
                            0 <= j < w,
                            0 < s,
                    ;
                    assert(a < (i + s) * w + j) by (nonlinear_arith)
                        requires
                            a == i * w + j,
                            0 < s,
                            0 < w,
                    ;
                }
                if j + s < w {
                    assert(i * w + w <= w * h) by (nonlinear_arith)
                        requires
                            i + 1 <= h,
                            w >= 0,
                    ;
                }
                if j + s < w && i + s < h {
                    assert(a + s < (i + s) * w + j) by (nonlinear_arith)
                        requires
                            a == i * w + j,
                            0 < s,
                            j + s < w,
                    ;
                }
                assert forall|k: int| 0 <= k < added.len() implies is_grid_edge(
                    w,
                    h,
                    s,
                    #[trigger] added[k],
                ) && added[k].0 == a && added[k].0 < added[k].1 < width * height by {
                    if i + s < h && k == 0 {
                        assert(is_down_edge(w, h, s, i as int, j as int, added[k]));
                    } else {
                        assert(is_right_edge(w, h, s, i as int, j as int, added[k]));
                    }
                }
                assert forall|k1: int, k2: int|
                    0 <= k1 < k2 < edges@.len() implies edges@[k1] != edges@[k2] by {
                    if k2 >= before.len() {
                        assert(edges@[k2] == added[k2 - before.len()]);
                        if k1 >= before.len() {
                            assert(edges@[k1] == added[k1 - before.len()]);
                        } else {
                            assert(edges@[k1] == before[k1]);
                        }
                    } else {
                        assert(edges@[k1] == before[k1]);
                        assert(edges@[k2] == before[k2]);
                    }
                }
                assert forall|k: int| 0 <= k < edges@.len() implies is_grid_edge(
                    w,
                    h,
                    s,
                    #[trigger] edges@[k],
                ) && edges@[k].0 < edges@[k].1 < width * height && edges@[k].0 <= a by {
                    if k >= before.len() {
                        assert(edges@[k] == added[k - before.len()]);
                    } else {
                        assert(edges@[k] == before[k]);
                    }
                }
                assert forall|r: int, c: int, e: (usize, usize)|
                    #[trigger] is_down_edge(w, h, s, r, c, e) && (r < i || (r == i && c <= j))
                        implies edges@.contains(e) by {
                    if r == i && c == j {
                        assert(edges@[before.len() as int] == e);
                    } else {
                        assert(before.contains(e));
                        let k = choose|k: int| 0 <= k < before.len() && before[k] == e;
                        assert(edges@[k] == e);
                    }
                }
                assert forall|r: int, c: int, e: (usize, usize)|
                    #[trigger] is_right_edge(w, h, s, r, c, e) && (r < i || (r == i && c <= j))
                        implies edges@.contains(e) by {
                    if r == i && c == j {
                        assert(edges@[edges@.len() - 1] == e);
                    } else {
                        assert(before.contains(e));
                        let k = choose|k: int| 0 <= k < before.len() && before[k] == e;
                        assert(edges@[k] == e);
                    }
                }
            }
            if step >= width - j {
                proof {
                    lemma_samples_last(w, s, tj);
                    assert forall|r: int, c: int, e: (usize, usize)|
                        #[trigger] is_down_edge(w, h, s, r, c, e) && r <= i implies edges@.contains(
                            e,
                        ) by {
                        if r == i && c > j {
                            lemma_multiples_apart(j as int, c, s);
                        }
                    }
                    assert forall|r: int, c: int, e: (usize, usize)|
                        #[trigger] is_right_edge(w, h, s, r, c, e) && r <= i implies edges@.contains(
                            e,
                        ) by {
                        if r == i && c > j {
                            lemma_multiples_apart(j as int, c, s);
                        }
                    }
                    assert(edges@.len() == base + sw * d + sw - 1) by (nonlinear_arith)
                        requires
                            edges@.len() == base + tj * (d + 1) + d,
                            sw == tj + 1,
                    ;
                }
                break;
            }
            proof {
                assert forall|r: int, c: int, e: (usize, usize)|
                    #[trigger] is_down_edge(w, h, s, r, c, e) && (r < i || (r == i && c < j + s))
                        implies edges@.contains(e) by {
                    if r == i && c > j {
                        lemma_multiples_apart(j as int, c, s);
                    }
                }
                assert forall|r: int, c: int, e: (usize, usize)|
                    #[trigger] is_right_edge(w, h, s, r, c, e) && (r < i || (r == i && c < j + s))
                        implies edges@.contains(e) by {
                    if r == i && c > j {
                        lemma_multiples_apart(j as int, c, s);
                    }
                }
                assert(edges@.len() == base + (tj + 1) * (d + 1)) by (nonlinear_arith)
                    requires
                        edges@.len() == base + tj * (d + 1) + d + 1,
                ;
                assert((tj + 1) * s == j + s) by (nonlinear_arith)
                    requires
                        j == tj * s,
                ;
            }
            j = j + step;
            proof {
                tj = tj + 1;
            }
        }
        if step >= height - i {
            proof {
                lemma_samples_last(h, s, ti);
                assert forall|r: int, c: int, e: (usize, usize)|
                    #[trigger] is_down_edge(w, h, s, r, c, e) implies edges@.contains(e) by {
                    if r > i {
                        lemma_multiples_apart(i as int, r, s);
                    }
                }
                assert forall|r: int, c: int, e: (usize, usize)|
                    #[trigger] is_right_edge(w, h, s, r, c, e) implies edges@.contains(e) by {
                    if r > i {
                        lemma_multiples_apart(i as int, r, s);
                    }
                }
                let sh = samples(h, s);
                assert(edges@.len() == sw * (sh - 1) + sh * (sw - 1)) by (nonlinear_arith)
                    requires
                        edges@.len() == ti * (2 * sw - 1) + sw - 1,
                        sh == ti + 1,
                ;
            }
            return edges;
        }
        proof {
            assert forall|r: int, c: int, e: (usize, usize)|
                #[trigger] is_down_edge(w, h, s, r, c, e) && r < i + s implies edges@.contains(e) by {
                if r > i {
                    lemma_multiples_apart(i as int, r, s);
                }
            }
            assert forall|r: int, c: int, e: (usize, usize)|
                #[trigger] is_right_edge(w, h, s, r, c, e) && r < i + s implies edges@.contains(
                    e,
                ) by {
                if r > i {
                    lemma_multiples_apart(i as int, r, s);
                }
            }
            assert(edges@.len() == (ti + 1) * (2 * sw - 1)) by (nonlinear_arith)
                requires
                    edges@.len() == ti * (2 * sw - 1) + sw * 1 + sw - 1,
            ;
            assert((ti + 1) * s == i + s) by (nonlinear_arith)
                requires
                    i == ti * s,
            ;
            assert forall|k: int| 0 <= k < edges@.len() implies #[trigger] edges@[k].0 < (i + s)
                * w by {
                assert(i * w + w <= (i + s) * w) by (nonlinear_arith)
                    requires
                        s >= 1,
                        w >= 1,
                ;
            }
        }
        i = i + step;
        proof {
            ti = ti + 1;
        }
    }
}

/// Index of the cell `(row, col)` in a grid `width` cells wide.
pub fn index_2d_to_1d(row: usize, col: usize, width: usize) -> (r: usize)
    requires
        row * width + col <= usize::MAX,
    ensures
        r == row * width + col,
{
    row * width + col
}

/// Row and column of the cell `idx` in a grid `width` cells wide.
pub fn index_1d_to_2d(idx: usize, width: usize) -> (r: (usize, usize))
    requires
        width > 0,
    ensures
        r.0 == idx / width,
        r.1 == idx % width,
{
    let row = idx / width;
    proof {
        lemma_fundamental_div_mod(idx as int, width as int);
        assert(row * width <= idx) by (nonlinear_arith)
            requires
                idx == width * row + idx % width,
                0 <= idx % width,
        ;
    }
    (row, idx - row * width)
}

/// Appends the edges from the cell `(row, column)` to its neighbours `step` cells
/// below and `step` cells to the right, where they lie in the grid.
fn add_adjacent_edge(
    edges: &mut Vec<(usize, usize)>,
    row: usize,
    column: usize,
    width: usize,
    height: usize,
    step: usize,
)
    requires
        step >= 1,
        row < height,
        column < width,
        width * height <= usize::MAX,
    ensures
        final(edges)@ == old(edges)@ + adjacent(
            width as int,
            height as int,
            step as int,
            row as int,
            column as int,
        ),
{
    proof {
        lemma_cell_in_range(width as int, height as int, row as int, column as int);
    }
    let ghost start = edges@;
    let a = row * width + column;
    if step < height - row {
        proof {
            assert((row + step) * width + column < width * height) by (nonlinear_arith)
                requires
                    row + step < height,
                    column < width,
            ;
        }
        edges.push((a, (row + step) * width + column));
    }
    if step < width - column {
        proof {
            assert(a + step < width * height) by (nonlinear_arith)
                requires
                    a == row * width + column,
                    column + step < width,
                    row < height,
            ;
        }
        edges.push((a, a + step));
    }
    assert(edges@ =~= start + adjacent(
        width as int,
        height as int,
        step as int,
        row as int,
        column as int,
    ));
}

} // verus!
