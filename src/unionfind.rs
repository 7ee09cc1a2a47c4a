//! Disjoint-set forest with union by size and path compression.
use vstd::prelude::*;

verus! {

/// Number of indices `i < k` whose representative is `r`.
pub open spec fn count_with_root(roots: Seq<int>, r: int, k: int) -> nat
    decreases k,
{
    if k <= 0 {
        0
    } else {
        count_with_root(roots, r, k - 1) + if roots[k - 1] == r { 1nat } else { 0nat }
    }
}

/// Number of nodes whose representative is `r`.
pub open spec fn class_size(roots: Seq<int>, r: int) -> nat {
    count_with_root(roots, r, roots.len() as int)
}

/// Number of indices `i < k` that are their own representative.
pub open spec fn count_roots(roots: Seq<int>, k: int) -> nat
    decreases k,
{
    if k <= 0 {
        0
    } else {
        count_roots(roots, k - 1) + if roots[k - 1] == k - 1 { 1nat } else { 0nat }
    }
}

/// Number of disjoint sets.
pub open spec fn num_classes(roots: Seq<int>) -> nat {
    count_roots(roots, roots.len() as int)
}

/// Every node names a representative in range, and a representative names itself.
pub open spec fn valid_roots(roots: Seq<int>) -> bool {
    forall|i: int|
        0 <= i < roots.len() ==> 0 <= #[trigger] roots[i] < roots.len() && roots[roots[i]]
            == roots[i]
}

/// The partition of `n` singletons.
pub open spec fn singletons(n: nat) -> Seq<int> {
    Seq::new(n, |i: int| i)
}

/// Moves every node represented by `from` under the representative `to`.
pub open spec fn relabel(roots: Seq<int>, from: int, to: int) -> Seq<int> {
    Seq::new(roots.len(), |i: int| if roots[i] == from { to } else { roots[i] })
}

/// The partition after merging the sets of `a` and `b`: the smaller set goes under
/// the representative of the larger one; on a tie, `b`'s set goes under `a`'s.
pub open spec fn merged(roots: Seq<int>, a: int, b: int) -> Seq<int> {
    let ra = roots[a];
    let rb = roots[b];
    if ra == rb {
        roots
    } else if class_size(roots, rb) > class_size(roots, ra) {
        relabel(roots, ra, rb)
    } else {
        relabel(roots, rb, ra)
    }
}

pub proof fn lemma_count_singletons(n: nat, r: int, k: int)
    requires
        0 <= k <= n,
    ensures
        count_with_root(singletons(n), r, k) == if 0 <= r < k { 1nat } else { 0nat },
    decreases k,
{
    if k > 0 {
        lemma_count_singletons(n, r, k - 1);
    }
}

pub proof fn lemma_count_le(roots: Seq<int>, r: int, k: int)
    requires
        0 <= k,
    ensures
        count_with_root(roots, r, k) <= k,
    decreases k,
{
    if k > 0 {
        lemma_count_le(roots, r, k - 1);
    }
}

/// Relabelling adds the moved set to the receiving one.
pub proof fn lemma_count_relabel(roots: Seq<int>, from: int, to: int, k: int)
    requires
        0 <= k <= roots.len(),
        from != to,
    ensures
        count_with_root(relabel(roots, from, to), to, k) == count_with_root(roots, to, k)
            + count_with_root(roots, from, k),
        count_with_root(relabel(roots, from, to), from, k) == 0,
    decreases k,
{
    if k > 0 {
        lemma_count_relabel(roots, from, to, k - 1);
    }
}

/// Relabelling leaves the size of every other set alone.
pub proof fn lemma_count_relabel_other(roots: Seq<int>, from: int, to: int, r: int, k: int)
    requires
        0 <= k <= roots.len(),
        r != from,
        r != to,
    ensures
        count_with_root(relabel(roots, from, to), r, k) == count_with_root(roots, r, k),
    decreases k,
{
    if k > 0 {
        lemma_count_relabel_other(roots, from, to, r, k - 1);
    }
}

/// Two sets together hold at most all the nodes.
pub proof fn lemma_two_classes_le(roots: Seq<int>, a: int, b: int, k: int)
    requires
        0 <= k <= roots.len(),
        a != b,
    ensures
        count_with_root(roots, a, k) + count_with_root(roots, b, k) <= k,
    decreases k,
{
    if k > 0 {
        lemma_two_classes_le(roots, a, b, k - 1);
    }
}

/// Merging two distinct sets makes one representative stop being one.
pub proof fn lemma_count_roots_relabel(roots: Seq<int>, from: int, to: int, k: int)
    requires
        valid_roots(roots),
        0 <= from < roots.len(),
        roots[from] == from,
        0 <= to < roots.len(),
        roots[to] == to,
        from != to,
        0 <= k <= roots.len(),
    ensures
        count_roots(relabel(roots, from, to), k) + if from < k { 1nat } else { 0nat }
            == count_roots(roots, k),
    decreases k,
{
    if k > 0 {
        lemma_count_roots_relabel(roots, from, to, k - 1);
    }
}

/// Merging keeps every node's representative a representative.
pub proof fn lemma_merged_valid(roots: Seq<int>, a: int, b: int)
    requires
        valid_roots(roots),
        0 <= a < roots.len(),
        0 <= b < roots.len(),
    ensures
        valid_roots(merged(roots, a, b)),
        merged(roots, a, b).len() == roots.len(),
        merged(roots, a, b)[a] == merged(roots, a, b)[b],
        roots[a] != roots[b] ==> num_classes(merged(roots, a, b)) + 1 == num_classes(roots),
        forall|i: int, j: int|
            0 <= i < roots.len() && 0 <= j < roots.len() && roots[i] == roots[j] ==> #[trigger] merged(
                roots,
                a,
                b,
            )[i] == #[trigger] merged(roots, a, b)[j],
{
    let ra = roots[a];
    let rb = roots[b];
    if ra != rb {
        if class_size(roots, rb) > class_size(roots, ra) {
            lemma_count_roots_relabel(roots, ra, rb, roots.len() as int);
        } else {
            lemma_count_roots_relabel(roots, rb, ra, roots.len() as int);
        }
    }
}

/// After merging `a` and `b`, they are in one set.
pub proof fn lemma_merge_joins(roots: Seq<int>, a: int, b: int)
    requires
        valid_roots(roots),
        0 <= a < roots.len(),
        0 <= b < roots.len(),
    ensures
        merged(roots, a, b)[a] == merged(roots, a, b)[b],
{
    lemma_merged_valid(roots, a, b);
}

/// Merging the same pair a second time changes nothing.
pub proof fn lemma_merge_idempotent(roots: Seq<int>, a: int, b: int)
    requires
        valid_roots(roots),
        0 <= a < roots.len(),
        0 <= b < roots.len(),
    ensures
        merged(merged(roots, a, b), a, b) == merged(roots, a, b),
{
    lemma_merged_valid(roots, a, b);
}

/// The representative of a node's representative is that representative.
pub proof fn lemma_root_of_root(roots: Seq<int>, n: int)
    requires
        valid_roots(roots),
        0 <= n < roots.len(),
    ensures
        roots[roots[n]] == roots[n],
{
}

/// Two nodes share a set after merging `a` and `b` only if they shared one before,
/// or each was in the set of `a` or of `b`.
pub proof fn lemma_merged_classes(roots: Seq<int>, a: int, b: int, i: int, j: int)
    requires
        valid_roots(roots),
        0 <= a < roots.len(),
        0 <= b < roots.len(),
        0 <= i < roots.len(),
        0 <= j < roots.len(),
        merged(roots, a, b)[i] == merged(roots, a, b)[j],
    ensures
        roots[i] == roots[j] || ((roots[i] == roots[a] || roots[i] == roots[b]) && (roots[j]
            == roots[a] || roots[j] == roots[b])),
{
}

/// A forest of disjoint sets over the nodes `0..n`.
pub struct UnionFind {
    /// For a representative, its set's size negated; for any other node, its parent.
    size: Vec<i32>,
    n: usize,
    roots: Ghost<Seq<int>>,
    rank: Ghost<Seq<nat>>,
}

impl View for UnionFind {
    type V = Seq<int>;

    /// The representative of each node.
    closed spec fn view(&self) -> Seq<int> {
        self.roots@
    }
}

impl UnionFind {
    pub closed spec fn wf(&self) -> bool {
        let s = self.size@;
        let roots = self.roots@;
        let rank = self.rank@;
        let n = self.n as int;
        &&& s.len() == n
        &&& roots.len() == n
        &&& rank.len() == n
        &&& n <= i32::MAX
        &&& valid_roots(roots)
        &&& forall|i: int| 0 <= i < n ==> (#[trigger] s[i] < 0 <==> roots[i] == i)
        &&& forall|i: int|
            0 <= i < n && #[trigger] s[i] >= 0 ==> s[i] < n && roots[s[i] as int] == roots[i]
                && rank[i] < rank[s[i] as int]
        &&& forall|i: int| 0 <= i < n && #[trigger] roots[i] != i ==> rank[i] < rank[roots[i]]
        &&& forall|i: int| 0 <= i < n && #[trigger] roots[i] == i ==> -s[i] == class_size(roots, i)
    }

    /// The slot of node `i`: its parent, or for a representative its set's size
    /// negated.
    pub closed spec fn slot(&self, i: int) -> int {
        self.size@[i] as int
    }

    /// The representatives of a well-formed forest form a valid partition, and a
    /// representative's slot holds its set's size negated.
    pub proof fn lemma_valid(&self)
        requires
            self.wf(),
        ensures
            valid_roots(self@),
            forall|i: int| 0 <= i < self@.len() && self@[i] == i ==> #[trigger] self.slot(i) == -(
            class_size(self@, i) as int),
    {
    }

    /// `n` singleton sets.
    pub fn new(n: usize) -> (r: Self)
        requires
            n <= i32::MAX,
        ensures
            r.wf(),
            r@ == singletons(n as nat),
    {
        let r = UnionFind {
            size: vec![-1i32; n],
            n: n,
            roots: Ghost(singletons(n as nat)),
            rank: Ghost(Seq::new(n as nat, |i: int| 0nat)),
        };
        assert forall|i: int| 0 <= i < n implies -r.size@[i] == class_size(r.roots@, i) by {
            lemma_count_singletons(n as nat, i, n as int);
        }
        r
    }

    /// The representative of `node`; compresses the path it walks.
    pub fn root(&mut self, node: usize) -> (r: usize)
        requires
            old(self).wf(),
            node < old(self)@.len(),
        ensures
            final(self).wf(),
            final(self)@ == old(self)@,
            r == old(self)@[node as int],
            node != r ==> final(self).slot(node as int) == r,
            forall|i: int|
                0 <= i < old(self)@.len() && old(self)@[i] == i ==> #[trigger] final(self).slot(i)
                    == old(self).slot(i),
    {
        let ghost top = self.roots@[node as int];
        let ghost start = self.size@;
        let mut cur = node;
        while self.size[cur] >= 0
            invariant
                self.wf(),
                cur < self.n,
                self.roots@[cur as int] == top,
                self.rank@[cur as int] <= self.rank@[top],
            decreases self.rank@[top] - self.rank@[cur as int],
        {
            cur = self.size[cur] as usize;
        }
        let root = cur;
        let mut cur = node;
        while cur != root
            invariant
                self.wf(),
                self.roots@ == old(self).roots@,
                self.n == old(self).n,
                root == top,
                cur < self.n,
                self.roots@[cur as int] == top,
                self.rank@[cur as int] <= self.rank@[top],
                node < self.n,
                node != top ==> (cur == node || self.size@[node as int] == top),
                forall|i: int|
                    0 <= i < self.n && self.roots@[i] == i ==> #[trigger] self.size@[i] == start[i],
            decreases self.rank@[top] - self.rank@[cur as int],
        {
            let next = self.size[cur] as usize;
            self.size[cur] = root as i32;
            cur = next;
        }
        root
    }

    /// The size of the set that holds `node`.
    pub fn size(&mut self, node: usize) -> (r: i32)
        requires
            old(self).wf(),
            node < old(self)@.len(),
        ensures
            final(self).wf(),
            final(self)@ == old(self)@,
            r as int == class_size(old(self)@, old(self)@[node as int]),
    {
        let root_node = self.root(node);
        proof {
            lemma_count_le(self.roots@, root_node as int, self.n as int);
        }
        -self.size[root_node]
    }

    /// Whether `left_node` and `right_node` are in one set.
    pub fn same(&mut self, left_node: usize, right_node: usize) -> (r: bool)
        requires
            old(self).wf(),
            left_node < old(self)@.len(),
            right_node < old(self)@.len(),
        ensures
            final(self).wf(),
            final(self)@ == old(self)@,
            r == (old(self)@[left_node as int] == old(self)@[right_node as int]),
    {
        self.root(left_node) == self.root(right_node)
    }

    /// Joins the sets of `left_node` and `right_node`.
    pub fn merge(&mut self, left_node: usize, right_node: usize)
        requires
            old(self).wf(),
            left_node < old(self)@.len(),
            right_node < old(self)@.len(),
        ensures
            final(self).wf(),
            final(self)@ == merged(old(self)@, left_node as int, right_node as int),
            old(self)@[left_node as int] != old(self)@[right_node as int] && class_size(
                old(self)@,
                old(self)@[right_node as int],
            ) > class_size(old(self)@, old(self)@[left_node as int]) ==> final(self).slot(
                old(self)@[left_node as int],
            ) == old(self)@[right_node as int],
            old(self)@[left_node as int] != old(self)@[right_node as int] && class_size(
                old(self)@,
                old(self)@[right_node as int],
            ) <= class_size(old(self)@, old(self)@[left_node as int]) ==> final(self).slot(
                old(self)@[right_node as int],
            ) == old(self)@[left_node as int],
    {
        let mut root_left = self.root(left_node);
        let mut root_right = self.root(right_node);
        if root_left == root_right {
            return;
        }
        if self.size(root_right) > self.size(root_left) {
            let t = root_left;
            root_left = root_right;
            root_right = t;
        }
        let ghost roots = self.roots@;
        let ghost rank = self.rank@;
        proof {
            lemma_two_classes_le(roots, root_left as int, root_right as int, roots.len() as int);
        }
        self.size[root_left] = self.size[root_left] + self.size[root_right];
        self.size[root_right] = root_left as i32;
        let ghost new_rank = if rank[root_left as int] > rank[root_right as int] {
            rank[root_left as int]
        } else {
            rank[root_right as int] + 1
        };
        self.roots = Ghost(relabel(roots, root_right as int, root_left as int));
        self.rank = Ghost(rank.update(root_left as int, new_rank));
        proof {
            let nr = self.roots@;
            lemma_count_relabel(roots, root_right as int, root_left as int, roots.len() as int);
            assert forall|i: int| 0 <= i < self.n && #[trigger] nr[i] == i implies -self.size@[i]
                == class_size(nr, i) by {
                if i != root_left {
                    lemma_count_relabel_other(
                        roots,
                        root_right as int,
                        root_left as int,
                        i,
                        roots.len() as int,
                    );
                }
            }
            assert(nr =~= merged(roots, left_node as int, right_node as int));
        }
    }
}

} // verus!
