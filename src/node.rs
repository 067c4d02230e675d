//! Ordered, labeled trees.

use vstd::prelude::*;

verus! {

/// A node of an ordered, labeled tree; it owns its children, left to right.
pub struct TreeNode {
    pub label: String,
    pub children: Vec<Box<TreeNode>>,
}

impl TreeNode {
    /// Number of nodes in the subtree rooted here.
    pub open spec fn size(&self) -> nat
        decreases self, 0int,
    {
        1 + Self::forest_size(self.children@, self.children@.len() as int)
    }

    /// Number of nodes in the first `k` subtrees of `cs`.
    pub open spec fn forest_size(cs: Seq<Box<TreeNode>>, k: int) -> nat
        decreases cs, k,
    {
        if k <= 0 || k > cs.len() {
            0
        } else {
            Self::forest_size(cs, k - 1) + cs[k - 1].size()
        }
    }

    /// The leaf reached from here by always taking the first child.
    pub open spec fn leftmost_leaf(&self) -> TreeNode
        decreases self,
    {
        if self.children@.len() == 0 {
            *self
        } else {
            self.children@[0].leftmost_leaf()
        }
    }

    /// Post-order position `q` of the subtree rooted here holds a node with
    /// an elder sibling.
    pub open spec fn has_elder(&self, q: int) -> bool
        decreases self, 0int,
    {
        &&& 0 <= q < self.size() - 1
        &&& Self::has_elder_forest(self.children@, self.children@.len() as int, q)
    }

    /// Position `q` of the post-order of the first `k` subtrees of `cs`
    /// holds a node with an elder sibling.
    pub open spec fn has_elder_forest(cs: Seq<Box<TreeNode>>, k: int, q: int) -> bool
        decreases cs, k,
    {
        if k <= 0 || k > cs.len() {
            false
        } else if q >= Self::forest_size(cs, k - 1) {
            (q == Self::forest_size(cs, k) - 1 && k > 1) || cs[k - 1].has_elder(
                q - Self::forest_size(cs, k - 1),
            )
        } else {
            Self::has_elder_forest(cs, k - 1, q)
        }
    }

    /// Post-order index of the left-most leaf below position `q`, counted
    /// in the subtree rooted here.
    pub open spec fn lm_at(&self, q: int) -> int {
        q + 1 - self.post_nodes()[q].size()
    }

    /// No later position of this subtree shares the left-most leaf of `q`.
    pub open spec fn last_on_path(&self, q: int) -> bool {
        forall|j: int| q < j < self.size() ==> #[trigger] self.lm_at(j) != self.lm_at(q)
    }

    /// The nodes of the subtree rooted here, children's subtrees left to right
    /// first, this node last.
    pub open spec fn post_nodes(&self) -> Seq<TreeNode>
        decreases self, 0int,
    {
        Self::forest_post(self.children@, self.children@.len() as int).push(*self)
    }

    /// Post-order of the first `k` subtrees of `cs`, one after another.
    pub open spec fn forest_post(cs: Seq<Box<TreeNode>>, k: int) -> Seq<TreeNode>
        decreases cs, k,
    {
        if k <= 0 || k > cs.len() {
            Seq::empty()
        } else {
            Self::forest_post(cs, k - 1) + cs[k - 1].post_nodes()
        }
    }

    /// Nests the left-most-leaf windows of a post-order: the window
    /// `lm[i]..=i` of each node holds only windows inside it.
    pub open spec fn nested(lm: Seq<usize>) -> bool {
        &&& forall|q: int| 0 <= q < lm.len() ==> #[trigger] lm[q] <= q
        &&& forall|i: int, j: int|
            #![trigger lm[i], lm[j]]
            0 <= i < lm.len() && lm[i] <= j <= i ==> lm[i] <= lm[j]
    }

    /// Walks the subtree rooted here in post-order with an explicit stack,
    /// and gives each node's left-most leaf: the index where its subtree's
    /// window starts.
    #[verifier::rlimit(100)]
    #[verifier::spinoff_prover]
    pub fn post_order_indexed(&self) -> (r: (Vec<&TreeNode>, Vec<usize>))
        ensures
            r.0@.len() == self.size(),
            r.1@.len() == self.size(),
            forall|q: int| 0 <= q < r.0@.len() ==> *r.0@[q] == self.post_nodes()[q],
            forall|q: int|
                0 <= q < r.1@.len() ==> r.1@[q] + (#[trigger] self.post_nodes()[q]).size() == q + 1,
            Self::nested(r.1@),
    {
        let ghost p = self.post_nodes();
        proof {
            lemma_post_len(self);
        }
        let mut out: Vec<&TreeNode> = Vec::new();
        let mut lm: Vec<usize> = Vec::new();
        let mut stack: Vec<(&TreeNode, usize, usize)> = Vec::new();
        stack.push((self, 0, 0));
        while stack.len() > 0
            invariant
                p == self.post_nodes(),
                p.len() == self.size(),
                out@.len() == lm@.len(),
                out@.len() <= p.len(),
                forall|q: int| 0 <= q < out@.len() ==> *out@[q] == p[q],
                forall|q: int| 0 <= q < lm@.len() ==> lm@[q] + (#[trigger] p[q]).size() == q + 1,
                Self::nested(lm@),
                stack@.len() == 0 ==> out@.len() == p.len(),
                stack@.len() > 0 ==> stack@[0].2 == 0 && *stack@[0].0 == *self,
                forall|k: int|
                    0 <= k < stack@.len() ==> (#[trigger] stack@[k]).1 <= stack@[k].0.children@.len(),
                forall|k: int|
                    0 <= k < stack@.len() ==> (#[trigger] stack@[k]).2 + stack@[k].0.size() + k
                        <= p.len(),
                forall|k: int|
                    0 <= k < stack@.len() ==> p.subrange(
                        (#[trigger] stack@[k]).2 as int,
                        (stack@[k].2 + stack@[k].0.size()) as int,
                    ) == stack@[k].0.post_nodes(),
                forall|k: int|
                    0 <= k < stack@.len() - 1 ==> {
                        &&& (#[trigger] stack@[k]).1 < stack@[k].0.children@.len()
                        &&& *stack@[k].0.children@[stack@[k].1 as int] == *stack@[k + 1].0
                        &&& stack@[k + 1].2 == stack@[k].2 + Self::forest_size(
                            stack@[k].0.children@,
                            stack@[k].1 as int,
                        )
                    },
                stack@.len() > 0 ==> out@.len() == stack@.last().2 + Self::forest_size(
                    stack@.last().0.children@,
                    stack@.last().1 as int,
                ),
                forall|k1: int, k2: int|
                    0 <= k1 <= k2 < stack@.len() ==> (#[trigger] stack@[k1]).2 <= (
                    #[trigger] stack@[k2]).2,
                forall|k: int, q: int|
                    0 <= k < stack@.len() && (#[trigger] stack@[k]).2 <= q < lm@.len()
                        ==> stack@[k].2 <= #[trigger] lm@[q],
            decreases 2 * p.len() - 2 * out@.len() - stack@.len(),
        {
            let ghost st0 = stack@;
            let ghost m = st0.len() - 1;
            let frame = stack.pop().unwrap();
            let node: &TreeNode = frame.0;
            let next = frame.1;
            let start = frame.2;
            assert(st0[m] == frame);
            proof {
                lemma_post_len(node);
                lemma_forest_size_mono(
                    node.children@,
                    next as int,
                    node.children@.len() as int,
                );
            }
            if next < node.children.len() {
                let child: &TreeNode = &node.children[next];
                proof {
                    lemma_child_window(node, next as int);
                    lemma_post_len(child);
                    assert(p.subrange(
                        out@.len() as int,
                        (out@.len() + child.size()) as int,
                    ) =~= p.subrange(start as int, (start + node.size()) as int).subrange(
                        Self::forest_size(node.children@, next as int) as int,
                        Self::forest_size(node.children@, next + 1) as int,
                    ));
                }
                stack.push((node, next, start));
                stack.push((child, 0, out.len()));
                proof {
                    assert(stack@[m] == st0[m]);
                    assert forall|k: int| 0 <= k < m implies stack@[k] == st0[k] by {}
                }
            } else {
                proof {
                    assert(p[out@.len() as int] == p.subrange(
                        start as int,
                        (start + node.size()) as int,
                    )[node.size() - 1]);
                    assert(node.post_nodes()[node.size() - 1] == *node);
                }
                out.push(node);
                lm.push(start);
                if stack.len() > 0 {
                    let parent = stack.pop().unwrap();
                    assert(st0[m - 1] == parent);
                    assert(0 <= m - 1 < st0.len() - 1);
                    assert(st0[m - 1].1 < st0[m - 1].0.children@.len());
                    let siblings = parent.0.children.len();
                    assert(parent.1 < siblings);
                    stack.push((parent.0, parent.1 + 1, parent.2));
                    proof {
                        assert forall|k: int| 0 <= k < m - 1 implies stack@[k] == st0[k] by {}
                    }
                }
            }
        }
        (out, lm)
    }

    /// The nodes of the subtree rooted here in post-order.
    pub fn post_order(&self) -> (r: Vec<&TreeNode>)
        ensures
            r@.len() == self.size(),
            forall|q: int| 0 <= q < r@.len() ==> *r@[q] == self.post_nodes()[q],
    {
        self.post_order_indexed().0
    }

    /// This node with `children` as its children, in order.
    pub fn with_children(self, children: Vec<Box<TreeNode>>) -> (r: TreeNode)
        ensures
            r.label == self.label,
            r.children == children,
    {
        let mut node = self;
        node.children = children;
        node
    }

    /// A leaf carrying `label`.
    pub fn new(label: &str) -> (r: TreeNode)
        ensures
            r.label@ == label@,
            r.children@.len() == 0,
    {
        TreeNode { label: label.to_string(), children: Vec::new() }
    }
}

/// A subtree's post-order lists each of its nodes once.
pub proof fn lemma_post_len(t: &TreeNode)
    ensures
        t.post_nodes().len() == t.size(),
        t.size() >= 1,
    decreases t, 0int,
{
    lemma_forest_post_len(t.children@, t.children@.len() as int);
}

pub proof fn lemma_forest_post_len(cs: Seq<Box<TreeNode>>, k: int)
    ensures
        TreeNode::forest_post(cs, k).len() == TreeNode::forest_size(cs, k),
    decreases cs, k,
{
    if 0 < k <= cs.len() {
        lemma_forest_post_len(cs, k - 1);
        lemma_post_len(&cs[k - 1]);
    }
}

/// Taking more subtrees never counts fewer nodes.
pub proof fn lemma_forest_size_mono(cs: Seq<Box<TreeNode>>, i: int, j: int)
    requires
        0 <= i <= j <= cs.len(),
    ensures
        TreeNode::forest_size(cs, i) <= TreeNode::forest_size(cs, j),
    decreases j,
{
    if i < j {
        lemma_forest_size_mono(cs, i, j - 1);
    }
}

/// Within the post-order of the first `j` subtrees, subtree `i` occupies the
/// window that starts after the nodes of the subtrees before it.
pub proof fn lemma_forest_post_window(cs: Seq<Box<TreeNode>>, i: int, j: int)
    requires
        0 <= i < j <= cs.len(),
    ensures
        TreeNode::forest_size(cs, i + 1) <= TreeNode::forest_size(cs, j),
        TreeNode::forest_post(cs, j).subrange(
            TreeNode::forest_size(cs, i) as int,
            TreeNode::forest_size(cs, i + 1) as int,
        ) == cs[i].post_nodes(),
    decreases j,
{
    lemma_forest_post_len(cs, j - 1);
    lemma_forest_post_len(cs, i);
    lemma_post_len(&cs[j - 1]);
    lemma_post_len(&cs[i]);
    if j == i + 1 {
        assert(TreeNode::forest_post(cs, j).subrange(
            TreeNode::forest_size(cs, i) as int,
            TreeNode::forest_size(cs, i + 1) as int,
        ) =~= cs[i].post_nodes());
    } else {
        lemma_forest_post_window(cs, i, j - 1);
        assert(TreeNode::forest_post(cs, j).subrange(
            TreeNode::forest_size(cs, i) as int,
            TreeNode::forest_size(cs, i + 1) as int,
        ) =~= TreeNode::forest_post(cs, j - 1).subrange(
            TreeNode::forest_size(cs, i) as int,
            TreeNode::forest_size(cs, i + 1) as int,
        ));
    }
}

/// In a node's post-order, child `i` occupies the window after the nodes of
/// its elder siblings, and the node itself comes last.
pub proof fn lemma_child_window(t: &TreeNode, i: int)
    requires
        0 <= i < t.children@.len(),
    ensures
        TreeNode::forest_size(t.children@, i + 1) + 1 <= t.size(),
        t.post_nodes().subrange(
            TreeNode::forest_size(t.children@, i) as int,
            TreeNode::forest_size(t.children@, i + 1) as int,
        ) == t.children@[i].post_nodes(),
{
    let cs = t.children@;
    let n = cs.len() as int;
    lemma_forest_post_window(cs, i, n);
    lemma_forest_post_len(cs, n);
    assert(t.post_nodes().subrange(
        TreeNode::forest_size(cs, i) as int,
        TreeNode::forest_size(cs, i + 1) as int,
    ) =~= TreeNode::forest_post(cs, n).subrange(
        TreeNode::forest_size(cs, i) as int,
        TreeNode::forest_size(cs, i + 1) as int,
    ));
}

proof fn lemma_forest_post_first(cs: Seq<Box<TreeNode>>, k: int)
    requires
        1 <= k <= cs.len(),
    ensures
        TreeNode::forest_post(cs, k).len() >= 1,
        TreeNode::forest_post(cs, k)[0] == cs[0].post_nodes()[0],
    decreases k,
{
    lemma_post_len(&cs[k - 1]);
    if k == 1 {
        assert(TreeNode::forest_post(cs, 0).len() == 0);
    } else {
        lemma_forest_post_first(cs, k - 1);
    }
}

/// A post-order starts with the left-most leaf.
pub proof fn lemma_post_first(t: &TreeNode)
    ensures
        t.post_nodes()[0] == t.leftmost_leaf(),
    decreases t,
{
    let cs = t.children@;
    if cs.len() == 0 {
        assert(TreeNode::forest_post(cs, 0).len() == 0);
    } else {
        lemma_forest_post_first(cs, cs.len() as int);
        lemma_post_first(&cs[0]);
    }
}

proof fn lemma_forest_locate(cs: Seq<Box<TreeNode>>, k: int, q: int) -> (i: int)
    requires
        0 <= k <= cs.len(),
        0 <= q < TreeNode::forest_size(cs, k),
    ensures
        0 <= i < k,
        TreeNode::forest_size(cs, i) <= q < TreeNode::forest_size(cs, i + 1),
    decreases k,
{
    if q >= TreeNode::forest_size(cs, k - 1) {
        k - 1
    } else {
        lemma_forest_locate(cs, k - 1, q)
    }
}

/// In a post-order, each node's subtree is the window that ends at the node
/// and is as long as the subtree.
pub proof fn lemma_post_windows(t: &TreeNode, q: int)
    requires
        0 <= q < t.size(),
    ensures
        t.post_nodes()[q].size() <= q + 1,
        t.post_nodes().subrange(q + 1 - t.post_nodes()[q].size(), q + 1)
            == t.post_nodes()[q].post_nodes(),
    decreases t,
{
    let p = t.post_nodes();
    let cs = t.children@;
    lemma_post_len(t);
    if q == t.size() - 1 {
        assert(p[q] == *t);
        assert(p.subrange(0, q + 1) =~= p);
    } else {
        let i = lemma_forest_locate(cs, cs.len() as int, q);
        let lo = TreeNode::forest_size(cs, i) as int;
        let hi = TreeNode::forest_size(cs, i + 1) as int;
        lemma_child_window(t, i);
        lemma_post_len(&cs[i]);
        let pc = cs[i].post_nodes();
        let qc = q - lo;
        assert(p.subrange(lo, hi) == pc);
        assert(pc[qc] == p[q]);
        lemma_post_windows(&cs[i], qc);
        let s = p[q].size() as int;
        assert(p.subrange(q + 1 - s, q + 1) =~= pc.subrange(qc + 1 - s, qc + 1));
    }
}

proof fn lemma_has_elder_forest_at(cs: Seq<Box<TreeNode>>, k: int, q: int, i: int)
    requires
        0 <= i < k <= cs.len(),
        TreeNode::forest_size(cs, i) <= q < TreeNode::forest_size(cs, i + 1),
    ensures
        TreeNode::has_elder_forest(cs, k, q) == ((q == TreeNode::forest_size(cs, i + 1) - 1 && i
            > 0) || cs[i].has_elder(q - TreeNode::forest_size(cs, i))),
    decreases k,
{
    if k - 1 > i {
        lemma_forest_size_mono(cs, i + 1, k - 1);
        lemma_has_elder_forest_at(cs, k - 1, q, i);
    }
}

/// Position `x` of child `i` is position `forest_size(i) + x` of its parent.
proof fn lemma_child_position(t: &TreeNode, i: int, x: int)
    requires
        0 <= i < t.children@.len(),
        0 <= x < t.children@[i].size(),
    ensures
        TreeNode::forest_size(t.children@, i) + x < t.size() - 1,
        t.post_nodes()[TreeNode::forest_size(t.children@, i) + x] == t.children@[i].post_nodes()[x],
        t.lm_at(TreeNode::forest_size(t.children@, i) + x) == TreeNode::forest_size(t.children@, i)
            + t.children@[i].lm_at(x),
        t.children@[i].lm_at(x) >= 0,
{
    let cs = t.children@;
    lemma_child_window(t, i);
    lemma_post_len(&cs[i]);
    lemma_post_windows(&cs[i], x);
    let lo = TreeNode::forest_size(cs, i) as int;
    let hi = TreeNode::forest_size(cs, i + 1) as int;
    lemma_post_len(t);
    assert(hi == lo + cs[i].size());
    assert(lo >= 0);
    assert(t.post_nodes().subrange(lo, hi)[x] == t.post_nodes()[lo + x]);
}

/// The nodes that are last on their left-most path are the root and the
/// nodes with an elder sibling.
pub proof fn lemma_last_on_path(t: &TreeNode, q: int)
    requires
        0 <= q < t.size(),
    ensures
        t.last_on_path(q) <==> (q == t.size() - 1 || t.has_elder(q)),
    decreases t,
{
    let cs = t.children@;
    let n = cs.len() as int;
    lemma_post_len(t);
    if q < t.size() - 1 {
        let i = lemma_forest_locate(cs, n, q);
        let lo = TreeNode::forest_size(cs, i) as int;
        let hi = TreeNode::forest_size(cs, i + 1) as int;
        let c = &cs[i];
        let qc = q - lo;
        lemma_post_len(c);
        lemma_child_position(t, i, qc);
        lemma_has_elder_forest_at(cs, n, q, i);
        lemma_last_on_path(c, qc);
        assert(t.post_nodes()[t.size() - 1] == *t);
        assert(t.lm_at(t.size() - 1) == 0);
        if i > 0 {
            lemma_forest_size_mono(cs, 1, i);
            lemma_post_len(&cs[0]);
            assert(TreeNode::forest_size(cs, 1) == TreeNode::forest_size(cs, 0) + cs[0].size());
        }
        if c.last_on_path(qc) && t.lm_at(q) != 0 {
            assert forall|j: int| q < j < t.size() implies #[trigger] t.lm_at(j) != t.lm_at(q) by {
                if j < hi {
                    lemma_child_position(t, i, j - lo);
                    assert(c.lm_at(j - lo) != c.lm_at(qc));
                } else if j < t.size() - 1 {
                    let i2 = lemma_forest_locate(cs, n, j);
                    if i2 <= i {
                        lemma_forest_size_mono(cs, i2 + 1, i + 1);
                    }
                    lemma_forest_size_mono(cs, i + 1, i2);
                    lemma_child_position(t, i2, j - TreeNode::forest_size(cs, i2));
                }
            }
        }
        if t.last_on_path(q) {
            assert(t.lm_at(t.size() - 1) != t.lm_at(q));
            assert forall|jc: int| qc < jc < c.size() implies #[trigger] c.lm_at(jc) != c.lm_at(qc) by {
                lemma_child_position(t, i, jc);
                assert(t.lm_at(lo + jc) != t.lm_at(q));
            }
        }
        if qc < c.size() - 1 && c.last_on_path(qc) {
            lemma_child_position(t, i, c.size() - 1);
            assert(c.post_nodes()[c.size() - 1] == *c);
            assert(c.lm_at(c.size() - 1) != c.lm_at(qc));
        }
        if qc == c.size() - 1 {
            assert(c.post_nodes()[c.size() - 1] == *c);
        }
    }
}

} // verus!
