//! The post-order index of a tree and the distance engine over two indexes.

use vstd::prelude::*;

use crate::edit::{
    distance, edit_costs, forest_dist, is_key_root_of, key_roots_listed, lemma_earlier_key_root,
    lemma_forest_dist_bounds, lemma_forest_dist_of_subtrees, lemma_key_root_above,
    lemma_key_root_position, lemma_tree_dist_bounds, min3, tree_dist, under, EditCosts, TreeView,
};
use crate::node::{
    lemma_last_on_path, lemma_post_first, lemma_post_len, lemma_post_windows, TreeNode,
};

verus! {

/// A tree numbered in post-order: each node's label, the left-most leaf
/// below each node, and the key roots, ascending.
pub struct Tree {
    labels: Vec<String>,
    left_most_leaf_descendant: Vec<usize>,
    key_roots: Vec<usize>,
}

impl View for Tree {
    type V = TreeView;

    closed spec fn view(&self) -> TreeView {
        TreeView {
            labels: self.labels@,
            lmld: self.left_most_leaf_descendant@,
            key_roots: self.key_roots@,
        }
    }
}

/// The largest value any table entry can reach stays within `u64`.
pub open spec fn within_budget(t1: TreeView, t2: TreeView, c: EditCosts) -> bool {
    t1.len() * c.deletion + t2.len() * c.insertion + c.relabeling <= u64::MAX
}

/// Node pair `(a, b)` belongs to a key-root pair that comes before `(x, y)`
/// in the order the engine visits them.
spec fn settled_before(t1: TreeView, t2: TreeView, x: int, y: int, a: int, b: int) -> bool {
    exists|k: int, m: int|
        #![trigger under(t1, k, a), under(t2, m, b)]
        under(t1, k, a) && under(t2, m, b) && (k < x || (k == x && m < y))
}

/// `td` is an `n1` by `n2` table.
spec fn table_shape(td: Seq<Vec<u64>>, n1: int, n2: int) -> bool {
    &&& td.len() == n1
    &&& forall|a: int| 0 <= a < n1 ==> (#[trigger] td[a])@.len() == n2
}

/// A table entry for a window of `a` by `b` nodes stays within the budget.
proof fn lemma_budget(a: int, b: int, n1: int, n2: int, d: int, n: int)
    requires
        0 <= a <= n1,
        0 <= b <= n2,
        0 <= d,
        0 <= n,
    ensures
        a * d + b * n <= n1 * d + n2 * n,
        (a + 1) * d == a * d + d,
        (b + 1) * n == b * n + n,
{
    assert(a * d <= n1 * d) by (nonlinear_arith)
        requires
            a <= n1,
            0 <= d,
    ;
    assert(b * n <= n2 * n) by (nonlinear_arith)
        requires
            b <= n2,
            0 <= n,
    ;
    assert((a + 1) * d == a * d + d) by (nonlinear_arith);
    assert((b + 1) * n == b * n + n) by (nonlinear_arith);
}

/// The least of three costs.
fn min3_u64(a: u64, b: u64, c: u64) -> (r: u64)
    ensures
        r == min3(a as int, b as int, c as int),
{
    if a <= b && a <= c {
        a
    } else if b <= c {
        b
    } else {
        c
    }
}

impl Tree {
    /// Numbers the tree under `root` in post-order and derives the tables
    /// the distance engine reads.
    pub fn new(root: &TreeNode) -> (r: Tree)
        ensures
            r@.wf(),
            r@.len() == root.size(),
            forall|q: int|
                0 <= q < r@.len() ==> (#[trigger] r@.labels[q])@ == root.post_nodes()[q].label@,
            forall|q: int|
                0 <= q < r@.len() ==> r@.lm(q) + (#[trigger] root.post_nodes()[q]).size() == q + 1,
            forall|q: int|
                0 <= q < r@.len() ==> root.post_nodes()[r@.lm(q)]
                    == (#[trigger] root.post_nodes()[q]).leftmost_leaf(),
            forall|q: int|
                0 <= q < r@.len() ==> (#[trigger] r@.is_key_root(q) <==> (q == r@.len() - 1
                    || root.has_elder(q))),
    {
        let (nodes, lm) = root.post_order_indexed();
        proof {
            lemma_post_len(root);
            assert(root.post_nodes()[root.size() - 1] == *root);
        }
        let mut labels: Vec<String> = Vec::new();
        let mut q: usize = 0;
        while q < nodes.len()
            invariant
                q <= nodes@.len(),
                nodes@.len() == root.size(),
                labels@.len() == q,
                forall|q2: int| 0 <= q2 < nodes@.len() ==> *nodes@[q2] == root.post_nodes()[q2],
                forall|q2: int|
                    0 <= q2 < q ==> (#[trigger] labels@[q2])@ == root.post_nodes()[q2].label@,
            decreases nodes@.len() - q,
        {
            labels.push(nodes[q].label.clone());
            q = q + 1;
        }
        let key_roots = Tree::keyroots(&lm);
        let r = Tree { labels, left_most_leaf_descendant: lm, key_roots };
        proof {
            let v = r@;
            assert forall|i: int| 0 <= i < v.len() implies #[trigger] v.lm(i) <= i by {
                assert(lm@[i] <= i);
            }
            assert forall|i: int, j: int|
                #![trigger v.lm(i), v.lm(j)]
                0 <= i < v.len() && v.lm(i) <= j <= i implies v.lm(i) <= v.lm(j) by {
                assert(lm@[i] <= lm@[j]);
            }
            assert(v.lm(v.len() - 1) + root.post_nodes()[v.len() - 1].size() == v.len());
            let p = root.post_nodes();
            assert forall|q: int| 0 <= q < v.len() implies p[v.lm(q)] == (#[trigger] p[q]).leftmost_leaf() by {
                lemma_post_windows(root, q);
                lemma_post_first(&p[q]);
                assert(p[v.lm(q)] == p.subrange(v.lm(q), q + 1)[0]);
            }
            assert forall|q: int| 0 <= q < v.len() implies (#[trigger] v.is_key_root(q) <==> (q
                == v.len() - 1 || root.has_elder(q))) by {
                lemma_last_on_path(root, q);
                if v.is_key_root(q) {
                    assert forall|j: int| q < j < root.size() implies #[trigger] root.lm_at(j)
                        != root.lm_at(q) by {
                        assert(lm@[j] != lm@[q]);
                    }
                }
                if root.last_on_path(q) {
                    assert forall|j: int| q < j < lm@.len() implies #[trigger] lm@[j] != lm@[q] by {
                        assert(root.lm_at(j) != root.lm_at(q));
                    }
                }
            }
        }
        r
    }

    /// The key roots of a post-order left-most-leaf table, ascending: the
    /// last index of each left-most path, which is the root and every node
    /// with an elder sibling. A scan from the right keeps an index when no
    /// later index shares its left-most leaf.
    fn keyroots(lm: &Vec<usize>) -> (r: Vec<usize>)
        requires
            TreeNode::nested(lm@),
        ensures
            key_roots_listed(lm@, r@),
    {
        let n = lm.len();
        let mut seen: Vec<bool> = vec![false; n];
        let mut desc: Vec<usize> = Vec::new();
        let mut k: usize = n;
        while k > 0
            invariant
                k <= n,
                n == lm@.len(),
                TreeNode::nested(lm@),
                seen@.len() == n,
                forall|v: int|
                    0 <= v < n ==> (#[trigger] seen@[v] <==> exists|j: int| k <= j < n && lm@[j] == v),
                forall|x: int, y: int|
                    #![trigger desc@[x], desc@[y]]
                    0 <= x < y < desc@.len() ==> desc@[y] < desc@[x],
                forall|x: int|
                    0 <= x < desc@.len() ==> k <= #[trigger] desc@[x] && is_key_root_of(lm@, desc@[x] as int),
                forall|j: int|
                    k <= j < n && #[trigger] is_key_root_of(lm@, j) ==> exists|x: int|
                        0 <= x < desc@.len() && desc@[x] == j,
            decreases k,
        {
            let i = k - 1;
            let v = lm[i];
            assert(lm@[i as int] <= i);
            let ghost desc0 = desc@;
            if !seen[v] {
                assert(is_key_root_of(lm@, i as int));
                desc.push(i);
                assert forall|j: int|
                    i <= j < n && #[trigger] is_key_root_of(lm@, j) implies exists|x: int|
                        0 <= x < desc@.len() && desc@[x] == j by {
                    if j == i {
                        assert(desc@[desc@.len() - 1] == i);
                    } else {
                        let x = choose|x: int| 0 <= x < desc0.len() && desc0[x] == j;
                        assert(desc@[x] == j);
                    }
                }
            } else {
                proof {
                    let j = choose|j: int| k <= j < n && lm@[j] == v;
                    assert(lm@[j] == lm@[i as int]);
                }
                assert(!is_key_root_of(lm@, i as int));
            }
            seen.set(v, true);
            k = i;
        }
        let mut r: Vec<usize> = Vec::new();
        let mut x: usize = desc.len();
        while x > 0
            invariant
                x <= desc@.len(),
                r@.len() == desc@.len() - x,
                forall|x1: int, y1: int|
                    #![trigger desc@[x1], desc@[y1]]
                    0 <= x1 < y1 < desc@.len() ==> desc@[y1] < desc@[x1],
                forall|y: int| 0 <= y < r@.len() ==> #[trigger] r@[y] == desc@[desc@.len() - 1 - y],
            decreases x,
        {
            r.push(desc[x - 1]);
            x = x - 1;
        }
        proof {
            assert forall|k2: int| #[trigger] is_key_root_of(lm@, k2) implies exists|y: int|
                0 <= y < r@.len() && r@[y] == k2 by {
                let x2 = choose|x2: int| 0 <= x2 < desc@.len() && desc@[x2] == k2;
                assert(r@[desc@.len() - 1 - x2] == k2);
            }
            assert forall|y: int| 0 <= y < r@.len() implies is_key_root_of(lm@, #[trigger] r@[y] as int) by {
                assert(r@[y] == desc@[desc@.len() - 1 - y]);
            }
            assert forall|y1: int, y2: int|
                #![trigger r@[y1], r@[y2]]
                0 <= y1 < y2 < r@.len() implies r@[y1] < r@[y2] by {
                let a = desc@.len() - 1 - y2;
                let b = desc@.len() - 1 - y1;
                assert(0 <= a < b < desc@.len());
                assert(desc@[b] < desc@[a]);
                assert(r@[y1] == desc@[b] && r@[y2] == desc@[a]);
            }
        }
        r
    }

    /// Number of nodes.
    pub fn len(&self) -> (r: usize)
        ensures
            r == self@.len(),
    {
        self.labels.len()
    }

    /// Labels in post-order.
    pub fn labels(&self) -> (r: &Vec<String>)
        ensures
            r@ == self@.labels,
    {
        &self.labels
    }

    /// For each post-order index, the index of the left-most leaf below it.
    pub fn left_most_leaf_descendant(&self) -> (r: &Vec<usize>)
        ensures
            r@ == self@.lmld,
    {
        &self.left_most_leaf_descendant
    }

    /// The key roots, ascending.
    pub fn key_roots(&self) -> (r: &Vec<usize>)
        ensures
            r@ == self@.key_roots,
    {
        &self.key_roots
    }

    /// Edit distance from this tree to `other` when inserting a node costs
    /// `insertion_cost`, deleting one `deletion_cost`, and giving a node
    /// another label `relabeling_cost`.
    pub fn weighted_tree_edit_distance(
        &self,
        other: &Tree,
        insertion_cost: u64,
        deletion_cost: u64,
        relabeling_cost: u64,
    ) -> (r: u64)
        requires
            self@.wf(),
            other@.wf(),
            within_budget(self@, other@, edit_costs(insertion_cost, deletion_cost, relabeling_cost)),
        ensures
            r == distance(self@, other@, edit_costs(insertion_cost, deletion_cost, relabeling_cost)),
    {
        let ghost c = edit_costs(insertion_cost, deletion_cost, relabeling_cost);
        let ghost v1 = self@;
        let ghost v2 = other@;
        let n1 = self.labels.len();
        let n2 = other.labels.len();
        let mut td: Vec<Vec<u64>> = Vec::new();
        let mut a: usize = 0;
        while a < n1
            invariant
                a <= n1,
                td@.len() == a,
                forall|r: int| 0 <= r < a ==> (#[trigger] td@[r])@.len() == n2,
            decreases n1 - a,
        {
            td.push(vec![0u64; n2]);
            a = a + 1;
        }
        let nk1 = self.key_roots.len();
        let nk2 = other.key_roots.len();
        let mut kx: usize = 0;
        proof {
            assert forall|a: int, b: int|
                settled_before(v1, v2, v1.key_roots[0] as int, 0, a, b) implies false by {
                let (k, m) = choose|k: int, m: int|
                    #![trigger under(v1, k, a), under(v2, m, b)]
                    under(v1, k, a) && under(v2, m, b) && (k < v1.key_roots[0] || (k
                        == v1.key_roots[0] && m < 0));
                let xi = lemma_key_root_position(v1, k);
            }
        }
        while kx < nk1
            invariant
                v1 == self@,
                v2 == other@,
                v1.wf(),
                v2.wf(),
                c == edit_costs(insertion_cost, deletion_cost, relabeling_cost),
                within_budget(v1, v2, c),
                n1 == v1.len(),
                n2 == v2.len(),
                nk1 == v1.key_roots.len(),
                nk2 == v2.key_roots.len(),
                kx <= nk1,
                table_shape(td@, n1 as int, n2 as int),
                forall|a: int, b: int|
                    settled_before(
                        v1,
                        v2,
                        if kx < nk1 {
                            v1.key_roots[kx as int] as int
                        } else {
                            n1 as int
                        },
                        0,
                        a,
                        b,
                    ) ==> #[trigger] td@[a]@[b] == tree_dist(v1, v2, c, a, b),
            decreases nk1 - kx,
        {
            let x = self.key_roots[kx];
            let mut ky: usize = 0;
            proof {
                assert forall|a: int, b: int|
                    settled_before(v1, v2, x as int, v2.key_roots[0] as int, a, b) implies #[trigger] td@[a]@[b]
                        == tree_dist(v1, v2, c, a, b) by {
                    let (k, m) = choose|k: int, m: int|
                        #![trigger under(v1, k, a), under(v2, m, b)]
                        under(v1, k, a) && under(v2, m, b) && (k < x || (k == x && m
                            < v2.key_roots[0]));
                    let yi = lemma_key_root_position(v2, m);
                    assert(settled_before(v1, v2, x as int, 0, a, b));
                }
            }
            while ky < nk2
                invariant
                    v1 == self@,
                    v2 == other@,
                    v1.wf(),
                    v2.wf(),
                    c == edit_costs(insertion_cost, deletion_cost, relabeling_cost),
                    within_budget(v1, v2, c),
                    n1 == v1.len(),
                    n2 == v2.len(),
                    nk1 == v1.key_roots.len(),
                    nk2 == v2.key_roots.len(),
                    kx < nk1,
                    x == v1.key_roots[kx as int],
                    ky <= nk2,
                    table_shape(td@, n1 as int, n2 as int),
                    forall|a: int, b: int|
                        settled_before(
                            v1,
                            v2,
                            x as int,
                            if ky < nk2 {
                                v2.key_roots[ky as int] as int
                            } else {
                                n2 as int
                            },
                            a,
                            b,
                        ) ==> #[trigger] td@[a]@[b] == tree_dist(v1, v2, c, a, b),
                decreases nk2 - ky,
            {
                let y = other.key_roots[ky];
                Tree::forest_distance(
                    x,
                    y,
                    self,
                    other,
                    &mut td,
                    insertion_cost,
                    deletion_cost,
                    relabeling_cost,
                );
                proof {
                    let ylim = if ky + 1 < nk2 {
                        v2.key_roots[ky + 1] as int
                    } else {
                        n2 as int
                    };
                    assert forall|a: int, b: int|
                        settled_before(v1, v2, x as int, ylim, a, b) implies #[trigger] td@[a]@[b]
                            == tree_dist(v1, v2, c, a, b) by {
                        let (k, m) = choose|k: int, m: int|
                            #![trigger under(v1, k, a), under(v2, m, b)]
                            under(v1, k, a) && under(v2, m, b) && (k < x || (k == x && m < ylim));
                        let yi = lemma_key_root_position(v2, m);
                        assert(settled_before(v1, v2, x as int, y as int + 1, a, b));
                    }
                }
                ky = ky + 1;
            }
            proof {
                let xlim = if kx + 1 < nk1 {
                    v1.key_roots[kx + 1] as int
                } else {
                    n1 as int
                };
                assert forall|a: int, b: int|
                    settled_before(v1, v2, xlim, 0, a, b) implies #[trigger] td@[a]@[b]
                        == tree_dist(v1, v2, c, a, b) by {
                    let (k, m) = choose|k: int, m: int|
                        #![trigger under(v1, k, a), under(v2, m, b)]
                        under(v1, k, a) && under(v2, m, b) && (k < xlim || (k == xlim && m < 0));
                    let xi = lemma_key_root_position(v1, k);
                    assert(settled_before(v1, v2, x as int, n2 as int, a, b));
                }
            }
            kx = kx + 1;
        }
        proof {
            assert(under(v1, n1 - 1, n1 - 1) && under(v2, n2 - 1, n2 - 1));
            assert(settled_before(v1, v2, n1 as int, 0, n1 - 1, n2 - 1));
        }
        td[n1 - 1][n2 - 1]
    }

    /// Edit distance from this tree to `other` when every operation costs one.
    pub fn tree_edit_distance(&self, other: &Tree) -> (r: u64)
        requires
            self@.wf(),
            other@.wf(),
            self@.len() + other@.len() < u64::MAX,
        ensures
            r == distance(self@, other@, edit_costs(1, 1, 1)),
    {
        self.weighted_tree_edit_distance(other, 1, 1, 1)
    }

    /// Relabeling cost between two labels: nothing when they are equal.
    fn label_cmp(a: &String, b: &String, relabeling_cost: u64) -> (r: u64)
        ensures
            r == (if a@ == b@ {
                0
            } else {
                relabeling_cost
            }),
    {
        if *a == *b {
            0
        } else {
            relabeling_cost
        }
    }

    /// Fills the forest-distance table of the windows below key roots
    /// `key_root_1` and `key_root_2`, and records in `td` the distance of
    /// every subtree pair on their left-most paths.
    #[verifier::rlimit(50)]
    fn forest_distance(
        key_root_1: usize,
        key_root_2: usize,
        t1: &Tree,
        t2: &Tree,
        td: &mut Vec<Vec<u64>>,
        insertion_cost: u64,
        deletion_cost: u64,
        relabeling_cost: u64,
    )
        requires
            t1@.wf(),
            t2@.wf(),
            t1@.is_key_root(key_root_1 as int),
            t2@.is_key_root(key_root_2 as int),
            within_budget(t1@, t2@, edit_costs(insertion_cost, deletion_cost, relabeling_cost)),
            table_shape(old(td)@, t1@.len(), t2@.len()),
            forall|a: int, b: int|
                settled_before(t1@, t2@, key_root_1 as int, key_root_2 as int, a, b)
                    ==> #[trigger] old(td)@[a]@[b] == tree_dist(
                    t1@,
                    t2@,
                    edit_costs(insertion_cost, deletion_cost, relabeling_cost),
                    a,
                    b,
                ),
        ensures
            table_shape(final(td)@, t1@.len(), t2@.len()),
            forall|a: int, b: int|
                settled_before(t1@, t2@, key_root_1 as int, key_root_2 as int + 1, a, b)
                    ==> #[trigger] final(td)@[a]@[b] == tree_dist(
                    t1@,
                    t2@,
                    edit_costs(insertion_cost, deletion_cost, relabeling_cost),
                    a,
                    b,
                ),
    {
        let ghost c = edit_costs(insertion_cost, deletion_cost, relabeling_cost);
        let ghost v1 = t1@;
        let ghost v2 = t2@;
        let ghost x = key_root_1 as int;
        let ghost y = key_root_2 as int;
        let n1 = t1.labels.len();
        let n2 = t2.labels.len();
        let l1 = t1.left_most_leaf_descendant[key_root_1];
        let l2 = t2.left_most_leaf_descendant[key_root_2];
        assert(v1.lm(x) <= x && v2.lm(y) <= y);
        let p_max = key_root_1 - l1 + 1;
        let q_max = key_root_2 - l2 + 1;

        let mut first: Vec<u64> = Vec::new();
        first.push(0);
        let mut j: usize = 0;
        while j < q_max
            invariant
                v1 == t1@,
                v2 == t2@,
                c == edit_costs(insertion_cost, deletion_cost, relabeling_cost),
                within_budget(v1, v2, c),
                n1 == v1.len(),
                n2 == v2.len(),
                q_max <= n2,
                j <= q_max,
                first@.len() == j + 1,
                forall|cc: int|
                    0 <= cc <= j ==> #[trigger] first@[cc] == forest_dist(
                        v1,
                        v2,
                        c,
                        l1 as int,
                        0,
                        l2 as int,
                        cc as nat,
                    ),
            decreases q_max - j,
        {
            proof {
                lemma_forest_dist_bounds(v1, v2, c, l1 as int, 0, l2 as int, j as nat);
                lemma_budget(0, j as int + 1, n1 as int, n2 as int, c.deletion as int, c.insertion as int);
                lemma_budget(0, j as int, n1 as int, n2 as int, c.deletion as int, c.insertion as int);
            }
            let v = first[j] + insertion_cost;
            first.push(v);
            j = j + 1;
        }

        let mut fd: Vec<Vec<u64>> = Vec::new();
        fd.push(first);
        let mut i: usize = 0;
        while i < p_max
            invariant
                v1 == t1@,
                v2 == t2@,
                v1.wf(),
                v2.wf(),
                v1.is_key_root(x),
                v2.is_key_root(y),
                x == key_root_1,
                y == key_root_2,
                l1 == v1.lm(x),
                l2 == v2.lm(y),
                p_max == x - l1 + 1,
                q_max == y - l2 + 1,
                c == edit_costs(insertion_cost, deletion_cost, relabeling_cost),
                within_budget(v1, v2, c),
                n1 == v1.len(),
                n2 == v2.len(),
                i <= p_max,
                fd@.len() == i + 1,
                forall|r: int| 0 <= r <= i ==> (#[trigger] fd@[r])@.len() == q_max + 1,
                forall|r: int, cc: int|
                    0 <= r <= i && 0 <= cc <= q_max ==> #[trigger] fd@[r]@[cc] == forest_dist(
                        v1,
                        v2,
                        c,
                        l1 as int,
                        r as nat,
                        l2 as int,
                        cc as nat,
                    ),
                table_shape(td@, n1 as int, n2 as int),
                forall|a: int, b: int|
                    settled_before(v1, v2, x, y, a, b) ==> #[trigger] td@[a]@[b] == tree_dist(
                        v1,
                        v2,
                        c,
                        a,
                        b,
                    ),
                forall|a: int, b: int|
                    under(v1, x, a) && under(v2, y, b) && a < l1 + i ==> #[trigger] td@[a]@[b]
                        == tree_dist(v1, v2, c, a, b),
            decreases p_max - i,
        {
            let ni = l1 + i;
            assert(v1.lm(ni as int) <= ni && l1 <= v1.lm(ni as int));
            proof {
                lemma_forest_dist_bounds(v1, v2, c, l1 as int, i as nat, l2 as int, 0);
                lemma_budget(i as int + 1, 0, n1 as int, n2 as int, c.deletion as int, c.insertion as int);
                lemma_budget(i as int, 0, n1 as int, n2 as int, c.deletion as int, c.insertion as int);
            }
            let mut row: Vec<u64> = Vec::new();
            row.push(fd[i][0] + deletion_cost);
            let mut j: usize = 0;
            while j < q_max
                invariant
                    v1 == t1@,
                    v2 == t2@,
                    v1.wf(),
                    v2.wf(),
                    v1.is_key_root(x),
                    v2.is_key_root(y),
                    x == key_root_1,
                    y == key_root_2,
                    l1 == v1.lm(x),
                    l2 == v2.lm(y),
                    p_max == x - l1 + 1,
                    q_max == y - l2 + 1,
                    c == edit_costs(insertion_cost, deletion_cost, relabeling_cost),
                    within_budget(v1, v2, c),
                    n1 == v1.len(),
                    n2 == v2.len(),
                    i < p_max,
                    ni == l1 + i,
                    l1 <= v1.lm(ni as int) <= ni,
                    j <= q_max,
                    fd@.len() == i + 1,
                    forall|r: int| 0 <= r <= i ==> (#[trigger] fd@[r])@.len() == q_max + 1,
                    forall|r: int, cc: int|
                        0 <= r <= i && 0 <= cc <= q_max ==> #[trigger] fd@[r]@[cc] == forest_dist(
                            v1,
                            v2,
                            c,
                            l1 as int,
                            r as nat,
                            l2 as int,
                            cc as nat,
                        ),
                    row@.len() == j + 1,
                    forall|cc: int|
                        0 <= cc <= j ==> #[trigger] row@[cc] == forest_dist(
                            v1,
                            v2,
                            c,
                            l1 as int,
                            (i + 1) as nat,
                            l2 as int,
                            cc as nat,
                        ),
                    table_shape(td@, n1 as int, n2 as int),
                    forall|a: int, b: int|
                        settled_before(v1, v2, x, y, a, b) ==> #[trigger] td@[a]@[b] == tree_dist(
                            v1,
                            v2,
                            c,
                            a,
                            b,
                        ),
                    forall|a: int, b: int|
                        under(v1, x, a) && under(v2, y, b) && (a < ni || (a == ni && b < l2 + j))
                            ==> #[trigger] td@[a]@[b] == tree_dist(v1, v2, c, a, b),
                decreases q_max - j,
            {
                let nj = l2 + j;
                assert(v2.lm(nj as int) <= nj && l2 <= v2.lm(nj as int));
                let ghost ri = (i + 1) as nat;
                let ghost cj = (j + 1) as nat;
                proof {
                    lemma_forest_dist_bounds(v1, v2, c, l1 as int, i as nat, l2 as int, cj);
                    lemma_forest_dist_bounds(v1, v2, c, l1 as int, ri, l2 as int, j as nat);
                    lemma_forest_dist_bounds(v1, v2, c, l1 as int, i as nat, l2 as int, j as nat);
                    lemma_budget(i as int, j as int, n1 as int, n2 as int, c.deletion as int, c.insertion as int);
                    lemma_budget(ri as int, j as int, n1 as int, n2 as int, c.deletion as int, c.insertion as int);
                    lemma_budget(i as int, cj as int, n1 as int, n2 as int, c.deletion as int, c.insertion as int);
                    lemma_budget(ri as int, cj as int, n1 as int, n2 as int, c.deletion as int, c.insertion as int);
                }
                let del_v = fd[i][j + 1] + deletion_cost;
                let ins_v = row[j] + insertion_cost;
                let v: u64;
                if t1.left_most_leaf_descendant[ni] == l1 && t2.left_most_leaf_descendant[nj] == l2 {
                    let rel_v = fd[i][j] + Tree::label_cmp(
                        &t1.labels[ni],
                        &t2.labels[nj],
                        relabeling_cost,
                    );
                    v = min3_u64(del_v, ins_v, rel_v);
                    proof {
                        lemma_forest_dist_of_subtrees(v1, v2, c, ni as int, nj as int);
                        assert(forest_dist(v1, v2, c, l1 as int, 0, l2 as int, 0) == 0);
                    }
                    td[ni][nj] = v;
                } else {
                    let di = t1.left_most_leaf_descendant[ni] - l1;
                    let dj = t2.left_most_leaf_descendant[nj] - l2;
                    proof {
                        if v1.lm(ni as int) != l1 {
                            let k = lemma_earlier_key_root(v1, x, ni as int);
                            let m = lemma_key_root_above(v2, nj as int);
                            assert(under(v1, k, ni as int) && under(v2, m, nj as int));
                        } else {
                            let m = lemma_earlier_key_root(v2, y, nj as int);
                            assert(under(v1, x, ni as int) && under(v2, m, nj as int));
                        }
                        assert(settled_before(v1, v2, x, y, ni as int, nj as int));
                        lemma_forest_dist_bounds(
                            v1,
                            v2,
                            c,
                            l1 as int,
                            di as nat,
                            l2 as int,
                            dj as nat,
                        );
                        lemma_tree_dist_bounds(v1, v2, c, ni as int, nj as int);
                        let d = c.deletion as int;
                        let n = c.insertion as int;
                        assert(di * d + (ni - v1.lm(ni as int) + 1) * d == ri * d)
                            by (nonlinear_arith)
                            requires
                                di + (ni - v1.lm(ni as int) + 1) == ri,
                        ;
                        assert(dj * n + (nj - v2.lm(nj as int) + 1) * n == cj * n)
                            by (nonlinear_arith)
                            requires
                                dj + (nj - v2.lm(nj as int) + 1) == cj,
                        ;
                    }
                    let sub_v = fd[di][dj] + td[ni][nj];
                    v = min3_u64(del_v, ins_v, sub_v);
                }
                row.push(v);
                j = j + 1;
            }
            fd.push(row);
            i = i + 1;
        }
        proof {
            assert forall|a: int, b: int|
                settled_before(v1, v2, x, y + 1, a, b) implies #[trigger] td@[a]@[b] == tree_dist(
                v1,
                v2,
                c,
                a,
                b,
            ) by {
                let (k, m) = choose|k: int, m: int|
                    #![trigger under(v1, k, a), under(v2, m, b)]
                    under(v1, k, a) && under(v2, m, b) && (k < x || (k == x && m < y + 1));
                if k < x || (k == x && m < y) {
                    assert(settled_before(v1, v2, x, y, a, b));
                } else {
                    assert(under(v1, x, a) && under(v2, y, b));
                }
            }
        }
    }
}

} // verus!
