//! How many edges Kruskal's pass uses on a graph that is connected on the nodes
//! its edges touch, and on grid graphs sampled every `step` cells.
use crate::kruskal::{
    KruskalResultEdge, edges_in_range, kruskal_result, kruskal_run, lemma_kruskal_run,
    respects,
};
use crate::grid::{
    grid_edge_count, is_down_edge, is_grid_edge, is_right_edge, lemma_cell_in_range,
    lemma_multiples_apart, samples,
};
use crate::kruskal::{grid_edge_list, lemma_kruskal_partitions_edges};
use crate::unionfind::{class_size, count_roots, merged, relabel};
use vstd::arithmetic::div_mod::{
    lemma_fundamental_div_mod, lemma_fundamental_div_mod_converse, lemma_mod_multiples_basic,
};
use vstd::prelude::*;

verus! {

/// Node `i` is an end of some edge.
pub open spec fn is_endpoint(edges: Seq<(usize, usize)>, i: int) -> bool {
    exists|k: int| 0 <= k < edges.len() && (#[trigger] edges[k].0 == i || edges[k].1 == i)
}

/// Number of nodes below `k` that are an end of some edge.
pub open spec fn count_endpoints(edges: Seq<(usize, usize)>, k: int) -> nat
    decreases k,
{
    if k <= 0 {
        0
    } else {
        count_endpoints(edges, k - 1) + if is_endpoint(edges, k - 1) { 1nat } else { 0nat }
    }
}

/// Any labelling that agrees across every edge gives all the edges' ends one label.
pub open spec fn connected_on_endpoints(n: nat, edges: Seq<(usize, usize)>) -> bool {
    forall|labels: Seq<int>|
        labels.len() == n && #[trigger] respects(labels, edges) ==> forall|i: int, j: int|
            0 <= i < n && 0 <= j < n && is_endpoint(edges, i) && is_endpoint(edges, j)
                ==> #[trigger] labels[i] == #[trigger] labels[j]
}

proof fn lemma_endpoint_prefix(edges: Seq<(usize, usize)>, i: int)
    requires
        edges.len() > 0,
        is_endpoint(edges.drop_last(), i),
    ensures
        is_endpoint(edges, i),
{
    let init = edges.drop_last();
    let k = choose|k: int| 0 <= k < init.len() && (#[trigger] init[k].0 == i || init[k].1 == i);
    assert(edges[k] == init[k]);
}

proof fn lemma_relabel_endpoints(
    edges: Seq<(usize, usize)>,
    prev: Seq<int>,
    roots: Seq<int>,
    from: int,
    to: int,
    n: nat,
)
    requires
        prev.len() == n,
        roots == prev || roots == relabel(prev, from, to),
        is_endpoint(edges, from),
        is_endpoint(edges, to),
        forall|j: int| 0 <= j < n && !is_endpoint(edges, j) ==> #[trigger] prev[j] == j,
        forall|j: int|
            0 <= j < n && is_endpoint(edges, j) ==> is_endpoint(edges, #[trigger] prev[j]),
    ensures
        forall|j: int| 0 <= j < n && !is_endpoint(edges, j) ==> #[trigger] roots[j] == j,
        forall|j: int|
            0 <= j < n && is_endpoint(edges, j) ==> is_endpoint(edges, #[trigger] roots[j]),
{
    assert forall|j: int| 0 <= j < n && !is_endpoint(edges, j) implies #[trigger] roots[j] == j by {
        assert(prev[j] == j);
    }
    assert forall|j: int| 0 <= j < n && is_endpoint(edges, j) implies is_endpoint(
        edges,
        #[trigger] roots[j],
    ) by {
        assert(is_endpoint(edges, prev[j]));
    }
}

/// A node no edge touches stays alone, and every touched node's representative is
/// touched too.
proof fn lemma_run_endpoints(n: nat, edges: Seq<(usize, usize)>)
    requires
        edges_in_range(n, edges),
    ensures
        kruskal_run(n, edges).0.len() == n,
        forall|j: int|
            0 <= j < n && !is_endpoint(edges, j) ==> #[trigger] kruskal_run(n, edges).0[j] == j,
        forall|j: int|
            0 <= j < n && is_endpoint(edges, j) ==> is_endpoint(
                edges,
                #[trigger] kruskal_run(n, edges).0[j],
            ),
    decreases edges.len(),
{
    lemma_kruskal_run(n, edges);
    if edges.len() > 0 {
        let init = edges.drop_last();
        assert(edges_in_range(n, init)) by {
            assert forall|k: int| 0 <= k < init.len() implies #[trigger] init[k].0 < n && init[k].1
                < n by {
                assert(init[k] == edges[k]);
            }
        }
        lemma_run_endpoints(n, init);
        let prev = kruskal_run(n, init).0;
        let roots = kruskal_run(n, edges).0;
        let e = edges.last();
        assert(edges[edges.len() - 1] == e);
        let a = e.0 as int;
        let b = e.1 as int;
        assert(is_endpoint(edges, a) && is_endpoint(edges, b));
        assert forall|j: int| 0 <= j < n && !is_endpoint(edges, j) implies #[trigger] prev[j]
            == j by {
            if is_endpoint(init, j) {
                lemma_endpoint_prefix(edges, j);
            }
        }
        assert forall|j: int| 0 <= j < n && is_endpoint(edges, j) implies is_endpoint(
            edges,
            #[trigger] prev[j],
        ) by {
            if is_endpoint(init, j) {
                lemma_endpoint_prefix(edges, prev[j]);
            }
        }
        if roots == merged(prev, a, b) && prev[a] != prev[b] && class_size(prev, prev[b])
            > class_size(prev, prev[a]) {
            lemma_relabel_endpoints(edges, prev, roots, prev[a], prev[b], n);
        } else {
            lemma_relabel_endpoints(edges, prev, roots, prev[b], prev[a], n);
        }
    }
}

proof fn lemma_count_roots_endpoints(
    edges: Seq<(usize, usize)>,
    roots: Seq<int>,
    r0: int,
    k: int,
)
    requires
        0 <= k <= roots.len(),
        is_endpoint(edges, r0),
        forall|j: int| 0 <= j < roots.len() && !is_endpoint(edges, j) ==> #[trigger] roots[j] == j,
        forall|j: int| 0 <= j < roots.len() && is_endpoint(edges, j) ==> #[trigger] roots[j] == r0,
    ensures
        count_roots(roots, k) + count_endpoints(edges, k) == k + if 0 <= r0 < k {
            1nat
        } else {
            0nat
        },
    decreases k,
{
    if k > 0 {
        lemma_count_roots_endpoints(edges, roots, r0, k - 1);
    }
}

/// On a graph connected on the nodes its edges touch, Kruskal's pass uses one edge
/// fewer than there are touched nodes.
pub proof fn lemma_kruskal_spanning_endpoints(n: nat, edges: Seq<(usize, usize)>)
    requires
        edges.len() >= 1,
        edges_in_range(n, edges),
        connected_on_endpoints(n, edges),
    ensures
        kruskal_result(n, edges, KruskalResultEdge::Used).len() == count_endpoints(
            edges,
            n as int,
        ) - 1,
{
    lemma_kruskal_run(n, edges);
    lemma_run_endpoints(n, edges);
    let roots = kruskal_run(n, edges).0;
    let e0 = edges[0].0 as int;
    assert(is_endpoint(edges, e0));
    let r0 = roots[e0];
    assert(respects(roots, edges));
    assert forall|j: int| 0 <= j < n && is_endpoint(edges, j) implies #[trigger] roots[j] == r0 by {
        assert(roots[j] == roots[e0]);
    }
    lemma_count_roots_endpoints(edges, roots, r0, n as int);
}

/// Cell `i` of a grid `width` cells wide lies on a sampled row and column.
pub open spec fn sampled(width: int, step: int, i: int) -> bool {
    (i / width) % step == 0 && (i % width) % step == 0
}

/// Number of sampled cells below `k`.
pub open spec fn count_sampled(width: int, step: int, k: int) -> nat
    decreases k,
{
    if k <= 0 {
        0
    } else {
        count_sampled(width, step, k - 1) + if sampled(width, step, k - 1) { 1nat } else { 0nat }
    }
}

proof fn lemma_mod_step(r: int, s: int)
    requires
        s > 0,
        r % s == 0,
    ensures
        (r + s) % s == 0,
        r >= s ==> (r - s) % s == 0,
{
    lemma_fundamental_div_mod(r, s);
    let q = r / s;
    assert(r + s == (q + 1) * s && r - s == (q - 1) * s) by (nonlinear_arith)
        requires
            r == s * q + 0,
    ;
    lemma_fundamental_div_mod_converse(r + s, s, q + 1, 0);
    if r >= s {
        lemma_fundamental_div_mod_converse(r - s, s, q - 1, 0);
    }
}

proof fn lemma_cell_split(width: int, r: int, c: int)
    requires
        width > 0,
        r >= 0,
        0 <= c < width,
    ensures
        (r * width + c) / width == r,
        (r * width + c) % width == c,
{
    lemma_fundamental_div_mod_converse(r * width + c, width, r, c);
}

/// On a grid graph with more than one sampled cell, the cells that edges touch are
/// exactly the sampled ones.
pub proof fn lemma_grid_endpoints(width: int, height: int, step: int, edges: Seq<(usize, usize)>, i: int)
    requires
        width >= 1,
        height >= 1,
        step >= 1,
        !(width <= step && height <= step),
        width * height <= usize::MAX,
        grid_edge_list(width, height, step, edges),
        0 <= i < width * height,
    ensures
        is_endpoint(edges, i) <==> sampled(width, step, i),
{
    lemma_fundamental_div_mod(i, width);
    let r = i / width;
    let c = i % width;
    assert(r * width == width * r) by (nonlinear_arith);
    assert(0 <= r < height) by (nonlinear_arith)
        requires
            i == width * r + c,
            0 <= c < width,
            0 <= i < width * height,
    ;
    if is_endpoint(edges, i) {
        let k = choose|k: int| 0 <= k < edges.len() && (#[trigger] edges[k].0 == i || edges[k].1 == i);
        let e = edges[k];
        assert(is_grid_edge(width, height, step, e));
        let (er, ec) = choose|er: int, ec: int|
            is_down_edge(width, height, step, er, ec, e) || is_right_edge(width, height, step, er, ec, e);
        lemma_mod_step(er, step);
        lemma_mod_step(ec, step);
        if e.0 == i {
            lemma_cell_split(width, er, ec);
        } else if is_down_edge(width, height, step, er, ec, e) {
            lemma_cell_split(width, er + step, ec);
        } else {
            lemma_cell_split(width, er, ec + step);
        }
    }
    if sampled(width, step, i) {
        lemma_mod_step(r, step);
        lemma_mod_step(c, step);
        if r + step < height {
            lemma_cell_in_range(width, height, r + step, c);
            let e = (i as usize, ((r + step) * width + c) as usize);
            assert(is_down_edge(width, height, step, r, c, e));
            let k = choose|k: int| 0 <= k < edges.len() && edges[k] == e;
            assert(edges[k].0 == i);
        } else if c + step < width {
            lemma_cell_in_range(width, height, r, c + step);
            let e = (i as usize, (r * width + c + step) as usize);
            assert(is_right_edge(width, height, step, r, c, e));
            let k = choose|k: int| 0 <= k < edges.len() && edges[k] == e;
            assert(edges[k].0 == i);
        } else if r >= step {
            lemma_cell_in_range(width, height, r - step, c);
            assert((r - step + step) * width + c == i);
            let e = (((r - step) * width + c) as usize, i as usize);
            assert(is_down_edge(width, height, step, r - step, c, e));
            let k = choose|k: int| 0 <= k < edges.len() && edges[k] == e;
            assert(edges[k].1 == i);
        } else if c >= step {
            let e = ((i - step) as usize, i as usize);
            assert(is_right_edge(width, height, step, r, c - step, e));
            let k = choose|k: int| 0 <= k < edges.len() && edges[k] == e;
            assert(edges[k].1 == i);
        } else {
            lemma_multiples_apart(0, r, step);
            lemma_multiples_apart(0, c, step);
        }
    }
}

proof fn lemma_sampled_label(
    width: int,
    height: int,
    step: int,
    edges: Seq<(usize, usize)>,
    labels: Seq<int>,
    a: int,
    b: int,
)
    requires
        width >= 1,
        height >= 1,
        step >= 1,
        width * height <= usize::MAX,
        grid_edge_list(width, height, step, edges),
        labels.len() == width * height,
        respects(labels, edges),
        0 <= a,
        0 <= b,
        a * step < height,
        b * step < width,
    ensures
        labels[(a * step) * width + b * step] == labels[0],
    decreases a, b,
{
    let r = a * step;
    let c = b * step;
    lemma_mod_multiples_basic(a, step);
    lemma_mod_multiples_basic(b, step);
    if a > 0 {
        assert((a - 1) * step + step == r && (a - 1) * step >= 0) by (nonlinear_arith)
            requires
                r == a * step,
                a >= 1,
                step >= 1,
        ;
        lemma_sampled_label(width, height, step, edges, labels, a - 1, b);
        lemma_mod_multiples_basic(a - 1, step);
        let pr = (a - 1) * step;
        lemma_cell_in_range(width, height, pr, c);
        lemma_cell_in_range(width, height, r, c);
        let e = ((pr * width + c) as usize, (r * width + c) as usize);
        assert(is_down_edge(width, height, step, pr, c, e));
        let k = choose|k: int| 0 <= k < edges.len() && edges[k] == e;
        assert(labels[edges[k].0 as int] == labels[edges[k].1 as int]);
    } else if b > 0 {
        assert((b - 1) * step + step == c && (b - 1) * step >= 0) by (nonlinear_arith)
            requires
                c == b * step,
                b >= 1,
                step >= 1,
        ;
        assert(0 * step == 0 && 0 * width == 0) by (nonlinear_arith);
        lemma_sampled_label(width, height, step, edges, labels, 0, b - 1);
        lemma_mod_multiples_basic(b - 1, step);
        let pc = (b - 1) * step;
        lemma_cell_in_range(width, height, 0, c);
        let e = (pc as usize, c as usize);
        assert(is_right_edge(width, height, step, 0, pc, e));
        let k = choose|k: int| 0 <= k < edges.len() && edges[k] == e;
        assert(labels[edges[k].0 as int] == labels[edges[k].1 as int]);
    } else {
        assert(0 * step == 0 && 0 * width == 0) by (nonlinear_arith);
    }
}

/// A grid graph with more than one sampled cell is connected on its sampled cells.
pub proof fn lemma_grid_connected_on_endpoints(
    width: int,
    height: int,
    step: int,
    edges: Seq<(usize, usize)>,
)
    requires
        width >= 1,
        height >= 1,
        step >= 1,
        !(width <= step && height <= step),
        width * height <= usize::MAX,
        grid_edge_list(width, height, step, edges),
    ensures
        connected_on_endpoints((width * height) as nat, edges),
{
    assert forall|labels: Seq<int>|
        labels.len() == width * height && #[trigger] respects(labels, edges) implies forall|
        i: int,
        j: int,
    |
        0 <= i < width * height && 0 <= j < width * height && is_endpoint(edges, i)
            && is_endpoint(edges, j) ==> #[trigger] labels[i] == #[trigger] labels[j] by {
        assert forall|i: int|
            0 <= i < width * height && is_endpoint(edges, i) implies labels[i] == labels[0] by {
            lemma_grid_endpoints(width, height, step, edges, i);
            lemma_fundamental_div_mod(i, width);
            let r = i / width;
            let c = i % width;
            assert(0 <= r < height) by (nonlinear_arith)
                requires
                    i == width * r + c,
                    0 <= c < width,
                    0 <= i < width * height,
            ;
            lemma_fundamental_div_mod(r, step);
            lemma_fundamental_div_mod(c, step);
            let a = r / step;
            let b = c / step;
            assert(a * step == r && b * step == c && a >= 0 && b >= 0) by (nonlinear_arith)
                requires
                    r == step * a + 0,
                    c == step * b + 0,
                    r >= 0,
                    c >= 0,
                    step >= 1,
            ;
            assert(r * width == width * r) by (nonlinear_arith);
            lemma_sampled_label(width, height, step, edges, labels, a, b);
        }
    }
}

proof fn lemma_samples_step(c: int, s: int)
    requires
        s >= 1,
        c >= 1,
    ensures
        samples(c, s) == samples(c - 1, s) + if (c - 1) % s == 0 { 1int } else { 0int },
{
    if c == 1 {
        lemma_fundamental_div_mod_converse(0, s, 0, 0);
    } else {
        let x = c - 2;
        lemma_fundamental_div_mod(x, s);
        let q = x / s;
        let m = x % s;
        if m + 1 < s {
            lemma_fundamental_div_mod_converse(x + 1, s, q, m + 1);
        } else {
            assert(x + 1 == (q + 1) * s + 0) by (nonlinear_arith)
                requires
                    x == s * q + m,
                    m + 1 == s,
            ;
            lemma_fundamental_div_mod_converse(x + 1, s, q + 1, 0);
        }
    }
}

proof fn lemma_row_count(width: int, step: int, r: int, c: int)
    requires
        width >= 1,
        step >= 1,
        r >= 0,
        0 <= c <= width,
    ensures
        count_sampled(width, step, r * width + c) == count_sampled(width, step, r * width) + if r
            % step == 0 {
            samples(c, step)
        } else {
            0int
        },
    decreases c,
{
    if c > 0 {
        lemma_row_count(width, step, r, c - 1);
        lemma_cell_split(width, r, c - 1);
        lemma_samples_step(c, step);
        assert(r * width >= 0) by (nonlinear_arith)
            requires
                r >= 0,
                width >= 1,
        ;
    }
}

proof fn lemma_rows_count(width: int, step: int, r: int)
    requires
        width >= 1,
        step >= 1,
        r >= 0,
    ensures
        count_sampled(width, step, r * width) == samples(r, step) * samples(width, step),
    decreases r,
{
    if r == 0 {
        assert(0 * width == 0) by (nonlinear_arith);
    } else {
        lemma_rows_count(width, step, r - 1);
        lemma_row_count(width, step, r - 1, width);
        lemma_samples_step(r, step);
        let d: int = if (r - 1) % step == 0 { 1 } else { 0 };
        let sw = samples(width, step);
        assert((r - 1) * width + width == r * width) by (nonlinear_arith);
        assert((samples(r - 1, step) + d) * sw == samples(r - 1, step) * sw + d * sw)
            by (nonlinear_arith);
    }
}

proof fn lemma_count_endpoints_sampled(
    width: int,
    height: int,
    step: int,
    edges: Seq<(usize, usize)>,
    k: int,
)
    requires
        width >= 1,
        height >= 1,
        step >= 1,
        !(width <= step && height <= step),
        width * height <= usize::MAX,
        grid_edge_list(width, height, step, edges),
        0 <= k <= width * height,
    ensures
        count_endpoints(edges, k) == count_sampled(width, step, k),
    decreases k,
{
    if k > 0 {
        lemma_count_endpoints_sampled(width, height, step, edges, k - 1);
        lemma_grid_endpoints(width, height, step, edges, k - 1);
    }
}

/// Kruskal's pass over the edges of a grid graph sampled every `step` cells, in any
/// order, when the grid has more than one sampled cell: each edge is used or
/// unused, and the used edges are one fewer than the sampled cells.
pub proof fn lemma_grid_spanning_tree_sampled(
    width: int,
    height: int,
    step: int,
    edges: Seq<(usize, usize)>,
)
    requires
        width >= 1,
        height >= 1,
        step >= 1,
        !(width <= step && height <= step),
        width * height <= usize::MAX,
        grid_edge_list(width, height, step, edges),
    ensures
        kruskal_result((width * height) as nat, edges, KruskalResultEdge::Used).len()
            + kruskal_result((width * height) as nat, edges, KruskalResultEdge::Unused).len()
            == edges.len(),
        kruskal_result((width * height) as nat, edges, KruskalResultEdge::Used).len() == samples(
            width,
            step,
        ) * samples(height, step) - 1,
        kruskal_result((width * height) as nat, edges, KruskalResultEdge::Unused).len()
            == grid_edge_count(width, height, step) - (samples(width, step) * samples(height, step)
            - 1),
{
    let n = (width * height) as nat;
    assert(edges_in_range(n, edges));
    lemma_kruskal_partitions_edges(n, edges);
    assert(0 < width * height) by (nonlinear_arith)
        requires
            width >= 1,
            height >= 1,
    ;
    lemma_grid_endpoints(width, height, step, edges, 0);
    assert(0int / width == 0 && 0int % width == 0) by {
        lemma_fundamental_div_mod_converse(0, width, 0, 0);
    }
    assert(0int % step == 0) by {
        lemma_fundamental_div_mod_converse(0, step, 0, 0);
    }
    assert(edges.len() >= 1);
    lemma_grid_connected_on_endpoints(width, height, step, edges);
    lemma_kruskal_spanning_endpoints(n, edges);
    lemma_count_endpoints_sampled(width, height, step, edges, width * height);
    lemma_rows_count(width, step, height);
    assert(height * width == width * height) by (nonlinear_arith);
    assert(samples(height, step) * samples(width, step) == samples(width, step) * samples(
        height,
        step,
    )) by (nonlinear_arith);
}

} // verus!
