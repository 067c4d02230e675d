//! The mathematical model of an indexed tree and of the edit distance
//! recurrence over post-order windows, with the laws it obeys.

use vstd::prelude::*;

verus! {

/// An indexed tree seen as sequences over post-order indices `0..len`.
pub struct TreeView {
    pub labels: Seq<String>,
    pub lmld: Seq<usize>,
    pub key_roots: Seq<usize>,
}

/// The three per-operation costs of one distance computation.
pub struct EditCosts {
    pub insertion: nat,
    pub deletion: nat,
    pub relabeling: nat,
}

/// The costs of one call, as naturals.
pub open spec fn edit_costs(insertion: u64, deletion: u64, relabeling: u64) -> EditCosts {
    EditCosts { insertion: insertion as nat, deletion: deletion as nat, relabeling: relabeling as nat }
}

/// The least of three values.
pub open spec fn min3(a: int, b: int, c: int) -> int {
    if a <= b && a <= c {
        a
    } else if b <= c {
        b
    } else {
        c
    }
}

impl TreeView {
    /// Number of nodes.
    pub open spec fn len(self) -> int {
        self.labels.len() as int
    }

    /// Post-order index of the left-most leaf below node `i`.
    pub open spec fn lm(self, i: int) -> int {
        self.lmld[i] as int
    }

    /// The left-most-leaf table of a post-order numbering: each node's subtree
    /// is the window `lm(i)..=i`, and windows nest.
    pub open spec fn lmld_wf(self) -> bool {
        &&& self.len() >= 1
        &&& self.lmld.len() == self.len()
        &&& self.lm(self.len() - 1) == 0
        &&& forall|i: int| 0 <= i < self.len() ==> #[trigger] self.lm(i) <= i
        &&& forall|i: int, j: int|
            #![trigger self.lm(i), self.lm(j)]
            0 <= i < self.len() && self.lm(i) <= j <= i ==> self.lm(i) <= self.lm(j)
    }

    /// `k` is the highest node of its left-most path: no later node shares its
    /// left-most leaf. These are the root and every node with an elder sibling.
    pub open spec fn is_key_root(self, k: int) -> bool {
        is_key_root_of(self.lmld, k)
    }

    /// `key_roots` lists the key roots, ascending, each once.
    pub open spec fn key_roots_wf(self) -> bool {
        key_roots_listed(self.lmld, self.key_roots)
    }

    /// The tables of a post-order numbering of one tree.
    pub open spec fn wf(self) -> bool {
        self.lmld_wf() && self.key_roots_wf()
    }
}

/// No index after `k` in `lm` shares its left-most leaf.
pub open spec fn is_key_root_of(lm: Seq<usize>, k: int) -> bool {
    &&& 0 <= k < lm.len()
    &&& forall|j: int| k < j < lm.len() ==> #[trigger] lm[j] != lm[k]
}

/// `kr` lists, ascending and each once, the key roots of `lm`.
pub open spec fn key_roots_listed(lm: Seq<usize>, kr: Seq<usize>) -> bool {
    &&& forall|x: int, y: int|
        #![trigger kr[x], kr[y]]
        0 <= x < y < kr.len() ==> kr[x] < kr[y]
    &&& forall|x: int| 0 <= x < kr.len() ==> is_key_root_of(lm, #[trigger] kr[x] as int)
    &&& forall|k: int|
        #[trigger] is_key_root_of(lm, k) ==> exists|x: int| 0 <= x < kr.len() && kr[x] == k
}

/// Cost of turning node `i` of `t1` into node `j` of `t2`.
pub open spec fn relabel(t1: TreeView, t2: TreeView, c: EditCosts, i: int, j: int) -> int {
    if t1.labels[i]@ == t2.labels[j]@ {
        0
    } else {
        c.relabeling as int
    }
}

/// Edit distance between the forest of the `p` nodes of `t1` from post-order
/// index `l1` on and the forest of the `q` nodes of `t2` from `l2` on.
pub open spec fn forest_dist(
    t1: TreeView,
    t2: TreeView,
    c: EditCosts,
    l1: int,
    p: nat,
    l2: int,
    q: nat,
) -> int
    decreases p + q, 1int,
{
    if p == 0 && q == 0 {
        0
    } else if q == 0 {
        forest_dist(t1, t2, c, l1, (p - 1) as nat, l2, 0) + c.deletion
    } else if p == 0 {
        forest_dist(t1, t2, c, l1, 0, l2, (q - 1) as nat) + c.insertion
    } else {
        let i = l1 + p - 1;
        let j = l2 + q - 1;
        if 0 <= l1 <= t1.lm(i) <= i < t1.len() && 0 <= l2 <= t2.lm(j) <= j < t2.len() {
            min3(
                forest_dist(t1, t2, c, l1, (p - 1) as nat, l2, q) + c.deletion,
                forest_dist(t1, t2, c, l1, p, l2, (q - 1) as nat) + c.insertion,
                forest_dist(t1, t2, c, l1, (t1.lm(i) - l1) as nat, l2, (t2.lm(j) - l2) as nat)
                    + tree_dist(t1, t2, c, i, j),
            )
        } else {
            0
        }
    }
}

/// Edit distance between the subtree of `t1` rooted at `i` and the subtree
/// of `t2` rooted at `j`.
pub open spec fn tree_dist(t1: TreeView, t2: TreeView, c: EditCosts, i: int, j: int) -> int
    decreases (i - t1.lm(i) + 1) + (j - t2.lm(j) + 1), 0int,
{
    if 0 <= t1.lm(i) <= i < t1.len() && 0 <= t2.lm(j) <= j < t2.len() {
        let p = (i - t1.lm(i) + 1) as nat;
        let q = (j - t2.lm(j) + 1) as nat;
        min3(
            forest_dist(t1, t2, c, t1.lm(i), (p - 1) as nat, t2.lm(j), q) + c.deletion,
            forest_dist(t1, t2, c, t1.lm(i), p, t2.lm(j), (q - 1) as nat) + c.insertion,
            forest_dist(t1, t2, c, t1.lm(i), (p - 1) as nat, t2.lm(j), (q - 1) as nat)
                + relabel(t1, t2, c, i, j),
        )
    } else {
        0
    }
}

/// Edit distance between two whole trees: the distance between their roots.
pub open spec fn distance(t1: TreeView, t2: TreeView, c: EditCosts) -> int {
    tree_dist(t1, t2, c, t1.len() - 1, t2.len() - 1)
}

/// Forest distances are never negative, and never exceed deleting the whole
/// first forest and inserting the whole second one.
pub proof fn lemma_forest_dist_bounds(
    t1: TreeView,
    t2: TreeView,
    c: EditCosts,
    l1: int,
    p: nat,
    l2: int,
    q: nat,
)
    ensures
        0 <= forest_dist(t1, t2, c, l1, p, l2, q) <= p * c.deletion + q * c.insertion,
    decreases p + q, 1int,
{
    let d = c.deletion as int;
    let n = c.insertion as int;
    if p == 0 && q == 0 {
    } else if q == 0 {
        lemma_forest_dist_bounds(t1, t2, c, l1, (p - 1) as nat, l2, 0);
        assert((p - 1) * d + d == p * d) by (nonlinear_arith);
    } else if p == 0 {
        lemma_forest_dist_bounds(t1, t2, c, l1, 0, l2, (q - 1) as nat);
        assert((q - 1) * n + n == q * n) by (nonlinear_arith);
    } else {
        let i = l1 + p - 1;
        let j = l2 + q - 1;
        if 0 <= l1 <= t1.lm(i) <= i < t1.len() && 0 <= l2 <= t2.lm(j) <= j < t2.len() {
            lemma_forest_dist_bounds(t1, t2, c, l1, (p - 1) as nat, l2, q);
            lemma_forest_dist_bounds(t1, t2, c, l1, p, l2, (q - 1) as nat);
            lemma_forest_dist_bounds(
                t1,
                t2,
                c,
                l1,
                (t1.lm(i) - l1) as nat,
                l2,
                (t2.lm(j) - l2) as nat,
            );
            lemma_tree_dist_bounds(t1, t2, c, i, j);
            assert((p - 1) * d + d == p * d) by (nonlinear_arith);
            assert(0 <= q * n) by (nonlinear_arith)
                requires
                    0 <= q,
                    0 <= n,
            ;
        }
    }
}

/// Tree distances are never negative, and never exceed deleting the first
/// subtree and inserting the second.
pub proof fn lemma_tree_dist_bounds(t1: TreeView, t2: TreeView, c: EditCosts, i: int, j: int)
    ensures
        0 <= tree_dist(t1, t2, c, i, j),
        0 <= t1.lm(i) <= i < t1.len() && 0 <= t2.lm(j) <= j < t2.len() ==> tree_dist(t1, t2, c, i, j)
            <= (i - t1.lm(i) + 1) * c.deletion + (j - t2.lm(j) + 1) * c.insertion,
    decreases (i - t1.lm(i) + 1) + (j - t2.lm(j) + 1), 0int,
{
    if 0 <= t1.lm(i) <= i < t1.len() && 0 <= t2.lm(j) <= j < t2.len() {
        let p = (i - t1.lm(i) + 1) as nat;
        let q = (j - t2.lm(j) + 1) as nat;
        let d = c.deletion as int;
        lemma_forest_dist_bounds(t1, t2, c, t1.lm(i), (p - 1) as nat, t2.lm(j), q);
        lemma_forest_dist_bounds(t1, t2, c, t1.lm(i), p, t2.lm(j), (q - 1) as nat);
        lemma_forest_dist_bounds(t1, t2, c, t1.lm(i), (p - 1) as nat, t2.lm(j), (q - 1) as nat);
        assert((p - 1) * d + d == p * d) by (nonlinear_arith);
    }
}

/// When both windows are whole subtrees, their forest distance is the tree
/// distance of the two subtree roots.
pub proof fn lemma_forest_dist_of_subtrees(
    t1: TreeView,
    t2: TreeView,
    c: EditCosts,
    i: int,
    j: int,
)
    requires
        0 <= t1.lm(i) <= i < t1.len(),
        0 <= t2.lm(j) <= j < t2.len(),
    ensures
        forest_dist(t1, t2, c, t1.lm(i), (i - t1.lm(i) + 1) as nat, t2.lm(j), (j - t2.lm(j) + 1) as nat)
            == tree_dist(t1, t2, c, i, j),
{
    let p = (i - t1.lm(i) + 1) as nat;
    let q = (j - t2.lm(j) + 1) as nat;
    assert(forest_dist(t1, t2, c, t1.lm(i), 0, t2.lm(j), 0) == 0);
}

/// Node `a` lies on the left-most path below key root `k`.
pub open spec fn under(t: TreeView, k: int, a: int) -> bool {
    &&& t.is_key_root(k)
    &&& 0 <= a <= k
    &&& t.lm(a) == t.lm(k)
}

/// Every node lies on the left-most path of a key root at or above it.
pub proof fn lemma_key_root_above(t: TreeView, a: int) -> (k: int)
    requires
        t.lmld_wf(),
        0 <= a < t.len(),
    ensures
        under(t, k, a),
    decreases t.len() - a,
{
    if t.is_key_root(a) {
        a
    } else {
        let j = choose|j: int| a < j < t.lmld.len() && #[trigger] t.lmld[j] == t.lmld[a];
        lemma_key_root_above(t, j)
    }
}

/// Inside the window of key root `x`, a node off the left-most path of `x`
/// belongs to a smaller key root.
pub proof fn lemma_earlier_key_root(t: TreeView, x: int, a: int) -> (k: int)
    requires
        t.lmld_wf(),
        t.is_key_root(x),
        t.lm(x) <= a <= x,
        t.lm(a) != t.lm(x),
    ensures
        under(t, k, a),
        k < x,
{
    let k = lemma_key_root_above(t, a);
    assert(t.lm(x) <= t.lm(a));
    if k > x {
        assert(t.lm(k) <= t.lm(x));
    }
    k
}

/// Each key root has a position in the ascending list.
pub proof fn lemma_key_root_position(t: TreeView, k: int) -> (x: int)
    requires
        t.key_roots_wf(),
        t.is_key_root(k),
    ensures
        0 <= x < t.key_roots.len(),
        t.key_roots[x] == k,
{
    choose|x: int| 0 <= x < t.key_roots.len() && t.key_roots[x] == k
}

proof fn lemma_forest_dist_self(t: TreeView, c: EditCosts, l: int, p: nat)
    ensures
        forest_dist(t, t, c, l, p, l, p) == 0,
    decreases p + p, 1int,
{
    if p > 0 {
        let i = l + p - 1;
        if 0 <= l <= t.lm(i) <= i < t.len() {
            lemma_forest_dist_bounds(t, t, c, l, (p - 1) as nat, l, p);
            lemma_forest_dist_bounds(t, t, c, l, p, l, (p - 1) as nat);
            lemma_forest_dist_self(t, c, l, (t.lm(i) - l) as nat);
            lemma_tree_dist_self(t, c, i);
        }
    }
}

proof fn lemma_tree_dist_self(t: TreeView, c: EditCosts, i: int)
    ensures
        tree_dist(t, t, c, i, i) == 0,
    decreases (i - t.lm(i) + 1) + (i - t.lm(i) + 1), 0int,
{
    if 0 <= t.lm(i) <= i < t.len() {
        let p = (i - t.lm(i) + 1) as nat;
        lemma_forest_dist_bounds(t, t, c, t.lm(i), (p - 1) as nat, t.lm(i), p);
        lemma_forest_dist_bounds(t, t, c, t.lm(i), p, t.lm(i), (p - 1) as nat);
        lemma_forest_dist_self(t, c, t.lm(i), (p - 1) as nat);
    }
}

/// A tree is at distance zero from itself, whatever the costs.
pub proof fn lemma_distance_identity(t: TreeView, c: EditCosts)
    ensures
        distance(t, t, c) == 0,
{
    lemma_tree_dist_self(t, c, t.len() - 1);
}

/// The distance between two trees is never negative.
pub proof fn lemma_distance_nonnegative(t1: TreeView, t2: TreeView, c: EditCosts)
    ensures
        distance(t1, t2, c) >= 0,
{
    lemma_tree_dist_bounds(t1, t2, c, t1.len() - 1, t2.len() - 1);
}

proof fn lemma_forest_dist_swap(
    t1: TreeView,
    t2: TreeView,
    c: EditCosts,
    l1: int,
    p: nat,
    l2: int,
    q: nat,
)
    requires
        c.insertion == c.deletion,
    ensures
        forest_dist(t1, t2, c, l1, p, l2, q) == forest_dist(t2, t1, c, l2, q, l1, p),
    decreases p + q, 1int,
{
    if p == 0 && q == 0 {
    } else if q == 0 {
        lemma_forest_dist_swap(t1, t2, c, l1, (p - 1) as nat, l2, 0);
    } else if p == 0 {
        lemma_forest_dist_swap(t1, t2, c, l1, 0, l2, (q - 1) as nat);
    } else {
        let i = l1 + p - 1;
        let j = l2 + q - 1;
        if 0 <= l1 <= t1.lm(i) <= i < t1.len() && 0 <= l2 <= t2.lm(j) <= j < t2.len() {
            lemma_forest_dist_swap(t1, t2, c, l1, (p - 1) as nat, l2, q);
            lemma_forest_dist_swap(t1, t2, c, l1, p, l2, (q - 1) as nat);
            lemma_forest_dist_swap(
                t1,
                t2,
                c,
                l1,
                (t1.lm(i) - l1) as nat,
                l2,
                (t2.lm(j) - l2) as nat,
            );
            lemma_tree_dist_swap(t1, t2, c, i, j);
        }
    }
}

proof fn lemma_tree_dist_swap(t1: TreeView, t2: TreeView, c: EditCosts, i: int, j: int)
    requires
        c.insertion == c.deletion,
    ensures
        tree_dist(t1, t2, c, i, j) == tree_dist(t2, t1, c, j, i),
    decreases (i - t1.lm(i) + 1) + (j - t2.lm(j) + 1), 0int,
{
    if 0 <= t1.lm(i) <= i < t1.len() && 0 <= t2.lm(j) <= j < t2.len() {
        let p = (i - t1.lm(i) + 1) as nat;
        let q = (j - t2.lm(j) + 1) as nat;
        lemma_forest_dist_swap(t1, t2, c, t1.lm(i), (p - 1) as nat, t2.lm(j), q);
        lemma_forest_dist_swap(t1, t2, c, t1.lm(i), p, t2.lm(j), (q - 1) as nat);
        lemma_forest_dist_swap(t1, t2, c, t1.lm(i), (p - 1) as nat, t2.lm(j), (q - 1) as nat);
    }
}

/// When inserting and deleting cost the same, the distance does not depend
/// on which tree comes first.
pub proof fn lemma_distance_symmetric(t1: TreeView, t2: TreeView, c: EditCosts)
    requires
        c.insertion == c.deletion,
    ensures
        distance(t1, t2, c) == distance(t2, t1, c),
{
    lemma_tree_dist_swap(t1, t2, c, t1.len() - 1, t2.len() - 1);
}

/// Two single-node trees are at distance zero when their labels agree, and
/// otherwise at the cheaper of relabeling and of deleting then inserting.
pub proof fn lemma_single_node_distance(t1: TreeView, t2: TreeView, c: EditCosts)
    requires
        t1.lmld_wf(),
        t2.lmld_wf(),
        t1.len() == 1,
        t2.len() == 1,
    ensures
        distance(t1, t2, c) == (if t1.labels[0]@ == t2.labels[0]@ {
            0
        } else if c.relabeling <= c.deletion + c.insertion {
            c.relabeling as int
        } else {
            (c.deletion + c.insertion) as int
        }),
{
    assert(forest_dist(t1, t2, c, 0, 0, 0, 0) == 0);
    assert(forest_dist(t1, t2, c, 0, 0, 0, 1) == c.insertion);
    assert(forest_dist(t1, t2, c, 0, 1, 0, 0) == c.deletion);
}

} // verus!
