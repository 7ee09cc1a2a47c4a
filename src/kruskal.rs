//! Randomized Kruskal over a grid graph: each edge, in a random order, either
//! joins two components (used) or closes a cycle (unused).
use crate::grid::{grid_edge_count, grid_edges, is_down_edge, is_grid_edge, is_right_edge, samples};
use crate::spanning::lemma_grid_spanning_tree_sampled;
use crate::random::{random_seed, shuffle_edges, small_rng_from_seed};
use crate::unionfind::{
    UnionFind, count_roots, lemma_merged_valid, merged, num_classes, singletons, valid_roots,
};
use vstd::prelude::*;

verus! {

broadcast use vstd::seq_lib::group_to_multiset_ensures;

/// Which of the two classes of edges to return.
pub enum KruskalResultEdge {
    Used,
    Unused,
}

/// Every endpoint is a node below `n`.
pub open spec fn edges_in_range(n: nat, edges: Seq<(usize, usize)>) -> bool {
    forall|k: int| 0 <= k < edges.len() ==> #[trigger] edges[k].0 < n && edges[k].1 < n
}

/// The labelling gives both ends of every edge one label.
pub open spec fn respects(labels: Seq<int>, edges: Seq<(usize, usize)>) -> bool {
    forall|k: int|
        0 <= k < edges.len() ==> labels[#[trigger] edges[k].0 as int] == labels[edges[k].1 as int]
}

/// The graph on the nodes `0..n` is connected: a labelling that agrees across every
/// edge gives all nodes one label.
pub open spec fn connected(n: nat, edges: Seq<(usize, usize)>) -> bool {
    forall|labels: Seq<int>|
        labels.len() == n && #[trigger] respects(labels, edges) ==> forall|i: int|
            0 <= i < n ==> #[trigger] labels[i] == labels[0]
}

/// Kruskal's pass over `edges` in order: the partition it ends with, the edges that
/// joined two sets and the edges whose ends were already joined.
pub open spec fn kruskal_run(n: nat, edges: Seq<(usize, usize)>) -> (
    Seq<int>,
    Seq<(usize, usize)>,
    Seq<(usize, usize)>,
)
    decreases edges.len(),
{
    if edges.len() == 0 {
        (singletons(n), seq![], seq![])
    } else {
        let prev = kruskal_run(n, edges.drop_last());
        let e = edges.last();
        if prev.0[e.0 as int] == prev.0[e.1 as int] {
            (prev.0, prev.1, prev.2.push(e))
        } else {
            (merged(prev.0, e.0 as int, e.1 as int), prev.1.push(e), prev.2)
        }
    }
}

/// The class of edges that `which` selects from Kruskal's pass.
pub open spec fn kruskal_result(n: nat, edges: Seq<(usize, usize)>, which: KruskalResultEdge) -> Seq<
    (usize, usize),
> {
    match which {
        KruskalResultEdge::Used => kruskal_run(n, edges).1,
        KruskalResultEdge::Unused => kruskal_run(n, edges).2,
    }
}

/// `edges` holds the edges of the grid graph, in some order.
pub open spec fn grid_edge_list(width: int, height: int, step: int, edges: Seq<(usize, usize)>) -> bool {
    &&& edges.len() == grid_edge_count(width, height, step)
    &&& forall|k: int|
        0 <= k < edges.len() ==> is_grid_edge(width, height, step, #[trigger] edges[k])
            && edges[k].0 < edges[k].1 < width * height
    &&& forall|r: int, c: int, e: (usize, usize)|
        #[trigger] is_down_edge(width, height, step, r, c, e) ==> edges.contains(e)
    &&& forall|r: int, c: int, e: (usize, usize)|
        #[trigger] is_right_edge(width, height, step, r, c, e) ==> edges.contains(e)
}

proof fn lemma_count_roots_singletons(n: nat, k: int)
    requires
        0 <= k <= n,
    ensures
        count_roots(singletons(n), k) == k,
    decreases k,
{
    if k > 0 {
        lemma_count_roots_singletons(n, k - 1);
    }
}

proof fn lemma_one_class(roots: Seq<int>, k: int)
    requires
        valid_roots(roots),
        roots.len() >= 1,
        0 <= k <= roots.len(),
        forall|i: int| 0 <= i < roots.len() ==> #[trigger] roots[i] == roots[0],
    ensures
        count_roots(roots, k) == if roots[0] < k { 1nat } else { 0nat },
    decreases k,
{
    if k > 0 {
        lemma_one_class(roots, k - 1);
    }
}

/// What holds after Kruskal's pass over any prefix: a valid partition that agrees
/// across every edge seen, one set fewer for each used edge, and every edge classified.
pub proof fn lemma_kruskal_run(n: nat, edges: Seq<(usize, usize)>)
    requires
        edges_in_range(n, edges),
    ensures
        kruskal_run(n, edges).0.len() == n,
        valid_roots(kruskal_run(n, edges).0),
        respects(kruskal_run(n, edges).0, edges),
        num_classes(kruskal_run(n, edges).0) + kruskal_run(n, edges).1.len() == n,
        kruskal_run(n, edges).1.len() + kruskal_run(n, edges).2.len() == edges.len(),
    decreases edges.len(),
{
    if edges.len() == 0 {
        lemma_count_roots_singletons(n, n as int);
    } else {
        let init = edges.drop_last();
        assert(edges_in_range(n, init)) by {
            assert forall|k: int| 0 <= k < init.len() implies #[trigger] init[k].0 < n && init[k].1
                < n by {
                assert(init[k] == edges[k]);
            }
        }
        lemma_kruskal_run(n, init);
        let prev = kruskal_run(n, init);
        let e = edges.last();
        assert(edges[edges.len() - 1] == e);
        lemma_merged_valid(prev.0, e.0 as int, e.1 as int);
        let roots = kruskal_run(n, edges).0;
        assert forall|k: int| 0 <= k < edges.len() implies roots[#[trigger] edges[k].0 as int]
            == roots[edges[k].1 as int] by {
            if k < init.len() {
                assert(init[k] == edges[k]);
            }
        }
    }
}

/// Kruskal's pass only ever selects edges it was given.
pub proof fn lemma_result_from_edges(n: nat, edges: Seq<(usize, usize)>)
    ensures
        forall|k: int|
            0 <= k < kruskal_run(n, edges).1.len() ==> edges.contains(
                #[trigger] kruskal_run(n, edges).1[k],
            ),
        forall|k: int|
            0 <= k < kruskal_run(n, edges).2.len() ==> edges.contains(
                #[trigger] kruskal_run(n, edges).2[k],
            ),
    decreases edges.len(),
{
    if edges.len() > 0 {
        let init = edges.drop_last();
        lemma_result_from_edges(n, init);
        let run = kruskal_run(n, edges);
        let prev = kruskal_run(n, init);
        assert forall|k: int| 0 <= k < run.1.len() implies edges.contains(#[trigger] run.1[k]) by {
            if k < prev.1.len() {
                assert(run.1[k] == prev.1[k]);
                let j = choose|j: int| 0 <= j < init.len() && init[j] == prev.1[k];
                assert(edges[j] == init[j]);
            } else {
                assert(run.1[k] == edges[edges.len() - 1]);
            }
        }
        assert forall|k: int| 0 <= k < run.2.len() implies edges.contains(#[trigger] run.2[k]) by {
            if k < prev.2.len() {
                assert(run.2[k] == prev.2[k]);
                let j = choose|j: int| 0 <= j < init.len() && init[j] == prev.2[k];
                assert(edges[j] == init[j]);
            } else {
                assert(run.2[k] == edges[edges.len() - 1]);
            }
        }
    }
}

/// Kruskal's pass classifies every edge exactly once.
pub proof fn lemma_kruskal_partitions_edges(n: nat, edges: Seq<(usize, usize)>)
    requires
        edges_in_range(n, edges),
    ensures
        kruskal_result(n, edges, KruskalResultEdge::Used).len() + kruskal_result(
            n,
            edges,
            KruskalResultEdge::Unused,
        ).len() == edges.len(),
{
    lemma_kruskal_run(n, edges);
}

/// On a connected graph with at least one node, Kruskal's pass uses one edge fewer
/// than there are nodes: the used edges form a spanning tree.
pub proof fn lemma_kruskal_spanning_tree(n: nat, edges: Seq<(usize, usize)>)
    requires
        n >= 1,
        edges_in_range(n, edges),
        connected(n, edges),
    ensures
        kruskal_result(n, edges, KruskalResultEdge::Used).len() == n - 1,
        kruskal_result(n, edges, KruskalResultEdge::Unused).len() == edges.len() - (n - 1),
{
    lemma_kruskal_run(n, edges);
    let roots = kruskal_run(n, edges).0;
    assert(respects(roots, edges));
    assert(forall|i: int| 0 <= i < n ==> #[trigger] roots[i] == roots[0]);
    lemma_one_class(roots, n as int);
}

/// The classes that Kruskal's pass gives to `edges` over the nodes `0..node_size`.
pub fn kruskal(node_size: usize, edges: Vec<(usize, usize)>, edge_result: KruskalResultEdge) -> (r:
    Vec<(usize, usize)>)
    requires
        node_size <= i32::MAX,
        edges_in_range(node_size as nat, edges@),
    ensures
        r@ == kruskal_result(node_size as nat, edges@, edge_result),
{
    let mut unionfind = UnionFind::new(node_size);
    let mut unused_edge: Vec<(usize, usize)> = Vec::new();
    let mut used_edge: Vec<(usize, usize)> = Vec::new();
    let mut k: usize = 0;
    while k < edges.len()
        invariant
            k <= edges@.len(),
            edges_in_range(node_size as nat, edges@),
            unionfind.wf(),
            unionfind@.len() == node_size,
            (unionfind@, used_edge@, unused_edge@) == kruskal_run(
                node_size as nat,
                edges@.subrange(0, k as int),
            ),
        decreases edges@.len() - k,
    {
        let (node_x, node_y) = edges[k];
        proof {
            assert(edges@.subrange(0, k + 1).drop_last() =~= edges@.subrange(0, k as int));
            assert(edges@.subrange(0, k + 1).last() == edges@[k as int]);
        }
        if !unionfind.same(node_x, node_y) {
            unionfind.merge(node_x, node_y);
            used_edge.push((node_x, node_y));
        } else {
            unused_edge.push((node_x, node_y));
        }
        k = k + 1;
    }
    proof {
        assert(edges@.subrange(0, edges@.len() as int) =~= edges@);
    }
    match edge_result {
        KruskalResultEdge::Used => used_edge,
        KruskalResultEdge::Unused => unused_edge,
    }
}

/// The grid graph's edges in a random order.
fn arrange_random_edges(width: usize, height: usize, step: usize) -> (edges: Vec<(usize, usize)>)
    requires
        step >= 1,
        width * height <= usize::MAX,
    ensures
        grid_edge_list(width as int, height as int, step as int, edges@),
{
    let mut edges = grid_edges(width, height, step);
    let ghost before = edges@;
    let seed = random_seed();
    let mut rng = small_rng_from_seed(seed);
    shuffle_edges(&mut edges, &mut rng);
    proof {
        assert(edges@.to_multiset().len() == before.to_multiset().len());
        assert forall|e: (usize, usize)| before.contains(e) implies edges@.contains(e) by {
            assert(before.to_multiset().count(e) > 0);
        }
        assert forall|k: int| 0 <= k < edges@.len() implies is_grid_edge(
            width as int,
            height as int,
            step as int,
            #[trigger] edges@[k],
        ) && edges@[k].0 < edges@[k].1 < width * height by {
            let e = edges@[k];
            assert(edges@.contains(e));
            assert(edges@.to_multiset().count(e) > 0);
            assert(before.contains(e));
            let j = choose|j: int| 0 <= j < before.len() && before[j] == e;
            assert(is_grid_edge(width as int, height as int, step as int, before[j]));
        }
    }
    edges
}

/// The edges of the grid graph over `height` rows and `width` columns sampled every
/// `step` cells that a randomized Kruskal pass selects; nothing where the grid
/// holds a single sampled cell.
pub fn extract_maze_edges_by_kruskal(
    width: usize,
    height: usize,
    step: usize,
    result: KruskalResultEdge,
) -> (r: Vec<(usize, usize)>)
    requires
        step >= 1,
        width * height <= i32::MAX,
    ensures
        width <= step && height <= step ==> r@.len() == 0,
        !(width <= step && height <= step) ==> exists|edges: Seq<(usize, usize)>|
            grid_edge_list(width as int, height as int, step as int, edges) && r@
                == kruskal_result((width * height) as nat, edges, result),
        width >= 1 && height >= 1 && !(width <= step && height <= step) && result
            == KruskalResultEdge::Used ==> r@.len()
            == samples(width as int, step as int) * samples(height as int, step as int) - 1,
        width >= 1 && height >= 1 && !(width <= step && height <= step) && result
            == KruskalResultEdge::Unused ==> r@.len()
            == grid_edge_count(width as int, height as int, step as int) - (samples(
            width as int,
            step as int,
        ) * samples(height as int, step as int) - 1),
{
    if width <= step && height <= step {
        return Vec::new();
    }
    let edges = arrange_random_edges(width, height, step);
    let ghost es = edges@;
    proof {
        assert(edges_in_range((width * height) as nat, es));
    }
    let ghost which = result;
    let r = kruskal(width * height, edges, result);
    proof {
        assert(grid_edge_list(width as int, height as int, step as int, es));
        if width >= 1 && height >= 1 {
            lemma_grid_spanning_tree_sampled(width as int, height as int, step as int, es);
        }
        assert(which == KruskalResultEdge::Used || which == KruskalResultEdge::Unused);
    }
    r
}

} // verus!
