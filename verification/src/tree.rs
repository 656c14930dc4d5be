use vstd::prelude::*;

verus! {

/// One node of an ordered parse tree, owned by the library.
///
/// `kind` is the grammar category tag, `is_named` says whether the node is a
/// meaningful grammar production rather than punctuation, `text` is the slice
/// of source text the node covers, and `children` are its ordered subtrees.
pub struct Node {
    pub kind: String,
    pub is_named: bool,
    pub text: String,
    pub children: Vec<Node>,
}

/// The mathematical record of one visit: what the walker reports about a node
/// together with the node's distance from the traversal root.
pub struct EntryModel {
    pub kind: Seq<char>,
    pub is_named: bool,
    pub text: Seq<char>,
    pub depth: nat,
}

/// What one visit of the walker hands out.
pub struct Entry {
    pub kind: String,
    pub is_named: bool,
    pub text: String,
    pub depth: usize,
}

impl View for Entry {
    type V = EntryModel;

    open spec fn view(&self) -> EntryModel {
        EntryModel {
            kind: self.kind@,
            is_named: self.is_named,
            text: self.text@,
            depth: self.depth as nat,
        }
    }
}

/// The visit record of node `n` when it stands at depth `d`.
pub open spec fn entry_of(n: Node, d: nat) -> EntryModel {
    EntryModel { kind: n.kind@, is_named: n.is_named, text: n.text@, depth: d }
}

/// Pre-order visit sequence of the tree rooted at `n`, whose root has depth `d`:
/// the node itself first, then each child's subtree in order.
pub open spec fn preorder(n: Node, d: nat) -> Seq<EntryModel>
    decreases n,
{
    seq![entry_of(n, d)] + preorder_forest(n.children@, d + 1)
}

/// Pre-order visit sequence of an ordered forest whose roots have depth `d`.
pub open spec fn preorder_forest(f: Seq<Node>, d: nat) -> Seq<EntryModel>
    decreases f,
{
    if f.len() == 0 {
        Seq::empty()
    } else {
        preorder(f[0], d) + preorder_forest(f.subrange(1, f.len() as int), d)
    }
}

/// Number of nodes of the tree rooted at `n`.
pub open spec fn count(n: Node) -> nat
    decreases n,
{
    1 + count_forest(n.children@)
}

/// Number of nodes of a forest.
pub open spec fn count_forest(f: Seq<Node>) -> nat
    decreases f,
{
    if f.len() == 0 {
        0
    } else {
        count(f[0]) + count_forest(f.subrange(1, f.len() as int))
    }
}

/// The walker visits a tree of N nodes exactly N times.
pub proof fn lemma_preorder_len(n: Node, d: nat)
    ensures
        preorder(n, d).len() == count(n),
    decreases n,
{
    lemma_preorder_forest_len(n.children@, d + 1);
}

/// A forest of N nodes contributes exactly N visits.
pub proof fn lemma_preorder_forest_len(f: Seq<Node>, d: nat)
    ensures
        preorder_forest(f, d).len() == count_forest(f),
    decreases f,
{
    if f.len() > 0 {
        lemma_preorder_len(f[0], d);
        lemma_preorder_forest_len(f.subrange(1, f.len() as int), d);
    }
}

/// Whether `p` is a chain of in-range child indices starting at `n`.
pub open spec fn valid_path(n: Node, p: Seq<int>) -> bool
    decreases p.len(),
{
    p.len() == 0 || (0 <= p[0] < n.children@.len() && valid_path(
        n.children@[p[0]],
        p.subrange(1, p.len() as int),
    ))
}

/// The node reached from `n` by following the child indices in `p`.
pub open spec fn node_at(n: Node, p: Seq<int>) -> Node
    decreases p.len(),
{
    if p.len() == 0 {
        n
    } else {
        node_at(n.children@[p[0]], p.subrange(1, p.len() as int))
    }
}

/// Extending a valid path by one child index: validity and the node reached.
pub proof fn lemma_path_snoc(n: Node, p: Seq<int>, i: int)
    requires
        valid_path(n, p),
    ensures
        valid_path(n, p.push(i)) <==> 0 <= i < node_at(n, p).children@.len(),
        0 <= i < node_at(n, p).children@.len() ==> node_at(n, p.push(i)) == node_at(
            n,
            p,
        ).children@[i],
    decreases p.len(),
{
    let q = p.push(i);
    assert(q.len() == p.len() + 1);
    if p.len() == 0 {
        assert(q[0] == i);
        assert(q.subrange(1, q.len() as int) =~= Seq::<int>::empty());
        assert(valid_path(n.children@[q[0]], Seq::<int>::empty()));
        assert(valid_path(n, q) <==> 0 <= i < n.children@.len());
        assert(node_at(n, p) == n);
        if 0 <= i < n.children@.len() {
            assert(node_at(n, q) == node_at(n.children@[i], q.subrange(1, q.len() as int)));
        }
    } else {
        assert(q[0] == p[0]);
        assert(q.subrange(1, q.len() as int) =~= p.subrange(1, p.len() as int).push(i));
        lemma_path_snoc(n.children@[p[0]], p.subrange(1, p.len() as int), i);
        assert(node_at(n, p) == node_at(n.children@[p[0]], p.subrange(1, p.len() as int)));
    }
}

/// The visits that remain after the whole subtree at `p` has been visited:
/// the later siblings of `p`, then the later siblings of each ancestor in turn.
pub open spec fn after_path(n: Node, p: Seq<int>) -> Seq<EntryModel>
    decreases p.len(),
{
    if p.len() == 0 {
        Seq::empty()
    } else {
        let parent = node_at(n, p.drop_last());
        preorder_forest(
            parent.children@.subrange(p.last() + 1, parent.children@.len() as int),
            p.len() as nat,
        ) + after_path(n, p.drop_last())
    }
}

/// The visits that remain when the walker stands at `p` and has not yet
/// yielded the node there: the subtree at `p`, then everything after it.
pub open spec fn remaining(n: Node, p: Seq<int>) -> Seq<EntryModel> {
    preorder(node_at(n, p), p.len() as nat) + after_path(n, p)
}

/// Every prefix of a valid path is itself valid.
pub proof fn lemma_valid_prefix(n: Node, p: Seq<int>, k: int)
    requires
        valid_path(n, p),
        0 <= k <= p.len(),
    ensures
        valid_path(n, p.subrange(0, k)),
    decreases p.len(),
{
    if k == 0 {
        assert(p.subrange(0, 0) =~= Seq::<int>::empty());
    } else {
        let p1 = p.subrange(1, p.len() as int);
        lemma_valid_prefix(n.children@[p[0]], p1, k - 1);
        let pre = p.subrange(0, k);
        assert(pre[0] == p[0]);
        assert(pre.subrange(1, k) =~= p1.subrange(0, k - 1));
    }
}

/// Splitting a forest's visit sequence at its `i`-th tree.
pub proof fn lemma_forest_skip(f: Seq<Node>, i: int, d: nat)
    requires
        0 <= i < f.len(),
    ensures
        preorder_forest(f.subrange(i, f.len() as int), d) == preorder(f[i], d) + preorder_forest(
            f.subrange(i + 1, f.len() as int),
            d,
        ),
{
    let g = f.subrange(i, f.len() as int);
    assert(g[0] == f[i]);
    assert(g.subrange(1, g.len() as int) =~= f.subrange(i + 1, f.len() as int));
}

/// Descending to the first child consumes exactly the front visit.
pub proof fn lemma_step_descend(n: Node, p: Seq<int>)
    requires
        valid_path(n, p),
        node_at(n, p).children@.len() > 0,
    ensures
        valid_path(n, p.push(0)),
        remaining(n, p.push(0)) == remaining(n, p).drop_first(),
{
    let cur = node_at(n, p);
    let q = p.push(0);
    let d = p.len() as nat;
    lemma_path_snoc(n, p, 0);
    assert(q.drop_last() =~= p);
    assert(q.last() == 0);
    assert(node_at(n, q.drop_last()) == cur);
    assert(after_path(n, q) == preorder_forest(
        cur.children@.subrange(1, cur.children@.len() as int),
        (d + 1) as nat,
    ) + after_path(n, p));
    assert(cur.children@.subrange(0, cur.children@.len() as int) =~= cur.children@);
    lemma_forest_skip(cur.children@, 0, (d + 1) as nat);
    assert(remaining(n, q) =~= remaining(n, p).drop_first());
}

/// A node with no children contributes only its own visit: what remains after
/// yielding it is exactly what stands after its subtree.
pub proof fn lemma_step_leaf(n: Node, p: Seq<int>)
    requires
        valid_path(n, p),
        node_at(n, p).children@.len() == 0,
    ensures
        remaining(n, p).drop_first() == after_path(n, p),
{
    assert(remaining(n, p).drop_first() =~= after_path(n, p));
}

/// Moving to the next sibling turns the pending suffix back into a
/// `remaining` at the sibling's path.
pub proof fn lemma_step_sibling(n: Node, p: Seq<int>)
    requires
        valid_path(n, p),
        p.len() > 0,
        p.last() + 1 < node_at(n, p.drop_last()).children@.len(),
    ensures
        valid_path(n, p.update(p.len() - 1, p.last() + 1)),
        after_path(n, p) == remaining(n, p.update(p.len() - 1, p.last() + 1)),
{
    let pp = p.drop_last();
    let par = node_at(n, pp);
    let i = p.last();
    let m = par.children@.len() as int;
    let p2 = p.update(p.len() - 1, i + 1);
    lemma_valid_prefix(n, p, p.len() - 1);
    assert(p =~= pp.push(i));
    lemma_path_snoc(n, pp, i);
    assert(0 <= i < m);
    lemma_path_snoc(n, pp, i + 1);
    assert(p2 =~= pp.push(i + 1));
    assert(p2.drop_last() =~= pp);
    assert(p2.last() == i + 1);
    assert(node_at(n, p2) == par.children@[i + 1]);
    lemma_forest_skip(par.children@, i + 1, p.len() as nat);
    assert(after_path(n, p2) == preorder_forest(
        par.children@.subrange(i + 2, m),
        p2.len() as nat,
    ) + after_path(n, pp));
    assert(after_path(n, p) =~= remaining(n, p2));
}

/// When the walker stands past the last sibling, the pending suffix is the
/// parent's own pending suffix: ascending changes nothing of what remains.
pub proof fn lemma_step_pop(n: Node, p: Seq<int>)
    requires
        valid_path(n, p),
        p.len() > 0,
        p.last() + 1 >= node_at(n, p.drop_last()).children@.len(),
    ensures
        valid_path(n, p.drop_last()),
        after_path(n, p) == after_path(n, p.drop_last()),
{
    let pp = p.drop_last();
    let par = node_at(n, pp);
    let m = par.children@.len() as int;
    lemma_valid_prefix(n, p, p.len() - 1);
    assert(p =~= pp.push(p.last()));
    lemma_path_snoc(n, pp, p.last());
    assert(p.last() < m);
    assert(par.children@.subrange(p.last() + 1, m) =~= Seq::<Node>::empty());
    assert(after_path(n, p) =~= after_path(n, pp));
}

/// The front of `remaining` is the visit of the node the path points at.
pub proof fn lemma_remaining_first(n: Node, p: Seq<int>)
    ensures
        remaining(n, p).len() > 0,
        remaining(n, p)[0] == entry_of(node_at(n, p), p.len() as nat),
{
}

/// At the root's path nothing stands after the subtree, so everything that
/// remains is the whole pre-order sequence.
pub proof fn lemma_remaining_at_root(n: Node)
    ensures
        remaining(n, Seq::<int>::empty()) == preorder(n, 0),
        valid_path(n, Seq::<int>::empty()),
{
    assert(remaining(n, Seq::<int>::empty()) =~= preorder(n, 0));
}

/// The paths of all nodes of the tree rooted at `n`, in visit order: the
/// empty path first, then the paths through each child in turn.
pub open spec fn preorder_paths(n: Node) -> Seq<Seq<int>>
    decreases n,
{
    seq![Seq::<int>::empty()] + preorder_paths_forest(n.children@, 0)
}

/// The paths of all nodes of a forest, the trees numbered from `i0` on.
pub open spec fn preorder_paths_forest(f: Seq<Node>, i0: int) -> Seq<Seq<int>>
    decreases f,
{
    if f.len() == 0 {
        Seq::empty()
    } else {
        preorder_paths(f[0]).map_values(|q: Seq<int>| seq![i0] + q) + preorder_paths_forest(
            f.subrange(1, f.len() as int),
            i0 + 1,
        )
    }
}

/// Each visit of the pre-order sequence is the visit of one node of the
/// tree, named by its path, and the depth it reports is exactly the length
/// of that path: the node's ancestor distance from the root.
pub proof fn lemma_preorder_matches_paths(n: Node, d: nat)
    ensures
        preorder_paths(n).len() == preorder(n, d).len(),
        forall|i: int|
            0 <= i < preorder(n, d).len() ==> valid_path(n, #[trigger] preorder_paths(n)[i])
                && preorder(n, d)[i] == entry_of(
                node_at(n, preorder_paths(n)[i]),
                (d + preorder_paths(n)[i].len()) as nat,
            ),
    decreases n,
{
    lemma_preorder_paths_forest(n.children@, d + 1, 0);
    let ps = preorder_paths(n);
    let pre = preorder(n, d);
    let pf = preorder_paths_forest(n.children@, 0);
    assert forall|i: int| 0 <= i < pre.len() implies valid_path(n, #[trigger] ps[i]) && pre[i]
        == entry_of(node_at(n, ps[i]), (d + ps[i].len()) as nat) by {
        if i == 0 {
            assert(ps[0] =~= Seq::<int>::empty());
        } else {
            let q = pf[i - 1];
            assert(ps[i] == q);
            let j = q[0];
            let q1 = q.subrange(1, q.len() as int);
            assert(0 <= j < n.children@.len());
            assert(valid_path(n.children@[j], q1));
            assert(valid_path(n, q));
            assert(node_at(n, q) == node_at(n.children@[j], q1));
        }
    }
}

/// The forest counterpart: every path starts with the number of its tree,
/// counted from `i0`, and continues with a valid path inside it; the visit
/// at the same index reports that node, at depth `d` plus its distance
/// below the forest's roots.
pub proof fn lemma_preorder_paths_forest(f: Seq<Node>, d: nat, i0: int)
    ensures
        preorder_paths_forest(f, i0).len() == preorder_forest(f, d).len(),
        forall|i: int|
            0 <= i < preorder_forest(f, d).len() ==> {
                let q = #[trigger] preorder_paths_forest(f, i0)[i];
                &&& q.len() > 0
                &&& i0 <= q[0] < i0 + f.len()
                &&& valid_path(f[q[0] - i0], q.subrange(1, q.len() as int))
                &&& preorder_forest(f, d)[i] == entry_of(
                    node_at(f[q[0] - i0], q.subrange(1, q.len() as int)),
                    (d + q.len() - 1) as nat,
                )
            },
    decreases f,
{
    if f.len() > 0 {
        let tail = f.subrange(1, f.len() as int);
        lemma_preorder_matches_paths(f[0], d);
        lemma_preorder_paths_forest(tail, d, i0 + 1);
        let ph = preorder_paths(f[0]).map_values(|q: Seq<int>| seq![i0] + q);
        let pt = preorder_paths_forest(tail, i0 + 1);
        let pre = preorder_forest(f, d);
        assert forall|i: int| 0 <= i < pre.len() implies {
            let q = #[trigger] preorder_paths_forest(f, i0)[i];
            &&& q.len() > 0
            &&& i0 <= q[0] < i0 + f.len()
            &&& valid_path(f[q[0] - i0], q.subrange(1, q.len() as int))
            &&& pre[i] == entry_of(
                node_at(f[q[0] - i0], q.subrange(1, q.len() as int)),
                (d + q.len() - 1) as nat,
            )
        } by {
            if i < ph.len() {
                let p0 = preorder_paths(f[0])[i];
                let q = ph[i];
                assert(q == seq![i0] + p0);
                assert(q[0] == i0);
                assert(q.subrange(1, q.len() as int) =~= p0);
                assert(pre[i] == preorder(f[0], d)[i]);
            } else {
                let q = pt[i - ph.len()];
                assert(preorder_paths_forest(f, i0)[i] == q);
                assert(pre[i] == preorder_forest(tail, d)[i - ph.len()]);
                assert(f[q[0] - i0] == tail[q[0] - (i0 + 1)]);
            }
        }
    }
}

/// No two visits of the pre-order sequence name the same node: together
/// with the correspondence above, a tree of N nodes is visited exactly N
/// times, each node exactly once.
pub proof fn lemma_preorder_paths_distinct(n: Node)
    ensures
        forall|i: int, j: int|
            0 <= i < j < preorder_paths(n).len() ==> preorder_paths(n)[i] != preorder_paths(n)[j],
    decreases n,
{
    lemma_preorder_paths_forest_distinct(n.children@, 0);
    lemma_preorder_paths_forest(n.children@, 0, 0);
    let ps = preorder_paths(n);
    let pf = preorder_paths_forest(n.children@, 0);
    assert forall|i: int, j: int| 0 <= i < j < ps.len() implies ps[i] != ps[j] by {
        if i == 0 {
            assert(ps[j] == pf[j - 1]);
            assert(pf[j - 1].len() > 0);
            assert(ps[0] =~= Seq::<int>::empty());
        } else {
            assert(ps[i] == pf[i - 1]);
            assert(ps[j] == pf[j - 1]);
        }
    }
}

/// The forest counterpart of distinctness.
pub proof fn lemma_preorder_paths_forest_distinct(f: Seq<Node>, i0: int)
    ensures
        forall|i: int, j: int|
            0 <= i < j < preorder_paths_forest(f, i0).len() ==> preorder_paths_forest(f, i0)[i]
                != preorder_paths_forest(f, i0)[j],
    decreases f,
{
    if f.len() > 0 {
        let tail = f.subrange(1, f.len() as int);
        lemma_preorder_paths_distinct(f[0]);
        lemma_preorder_paths_forest_distinct(tail, i0 + 1);
        lemma_preorder_paths_forest(tail, 0, i0 + 1);
        let ph = preorder_paths(f[0]).map_values(|q: Seq<int>| seq![i0] + q);
        let pt = preorder_paths_forest(tail, i0 + 1);
        let pf = preorder_paths_forest(f, i0);
        assert forall|i: int, j: int| 0 <= i < j < pf.len() implies pf[i] != pf[j] by {
            if j < ph.len() {
                let a = preorder_paths(f[0])[i];
                let b = preorder_paths(f[0])[j];
                assert(pf[i] == seq![i0] + a);
                assert(pf[j] == seq![i0] + b);
                assert(a != b);
                assert((seq![i0] + a).subrange(1, (seq![i0] + a).len() as int) =~= a);
                assert((seq![i0] + b).subrange(1, (seq![i0] + b).len() as int) =~= b);
            } else if i < ph.len() {
                let a = preorder_paths(f[0])[i];
                assert(pf[i] == seq![i0] + a);
                assert(pf[i][0] == i0);
                assert(pf[j] == pt[j - ph.len()]);
                assert(pf[j][0] >= i0 + 1);
            } else {
                assert(pf[i] == pt[i - ph.len()]);
                assert(pf[j] == pt[j - ph.len()]);
            }
        }
    }
}

/// Completeness of the traversal: the path of every node of the tree stands
/// somewhere in the pre-order path sequence — no node is skipped.
pub proof fn lemma_preorder_paths_complete(n: Node, q: Seq<int>)
    requires
        valid_path(n, q),
    ensures
        exists|i: int| 0 <= i < preorder_paths(n).len() && preorder_paths(n)[i] == q,
    decreases n,
{
    let ps = preorder_paths(n);
    if q.len() == 0 {
        assert(ps[0] =~= Seq::<int>::empty());
        assert(ps[0] == q);
    } else {
        let j = q[0];
        let q1 = q.subrange(1, q.len() as int);
        lemma_preorder_paths_forest_complete(n.children@, 0, j, q1);
        let pf = preorder_paths_forest(n.children@, 0);
        let w = choose|i: int| 0 <= i < pf.len() && pf[i] == seq![j] + q1;
        assert(seq![j] + q1 =~= q);
        assert(ps[w + 1] == q);
    }
}

/// The forest counterpart of completeness: tree number `j` of the forest,
/// counted from zero, contributes the path `[i0 + j]` followed by any valid
/// path inside it.
pub proof fn lemma_preorder_paths_forest_complete(f: Seq<Node>, i0: int, j: int, q1: Seq<int>)
    requires
        0 <= j < f.len(),
        valid_path(f[j], q1),
    ensures
        exists|i: int|
            0 <= i < preorder_paths_forest(f, i0).len() && preorder_paths_forest(f, i0)[i]
                == seq![i0 + j] + q1,
    decreases f,
{
    let tail = f.subrange(1, f.len() as int);
    let ph = preorder_paths(f[0]).map_values(|q: Seq<int>| seq![i0] + q);
    let pf = preorder_paths_forest(f, i0);
    if j == 0 {
        lemma_preorder_paths_complete(f[0], q1);
        let w = choose|i: int|
            0 <= i < preorder_paths(f[0]).len() && preorder_paths(f[0])[i] == q1;
        assert(ph[w] == seq![i0] + q1);
        assert(pf[w] == seq![i0 + 0] + q1);
    } else {
        lemma_preorder_paths_forest_complete(tail, i0 + 1, j - 1, q1);
        let pt = preorder_paths_forest(tail, i0 + 1);
        let w = choose|i: int| 0 <= i < pt.len() && pt[i] == seq![(i0 + 1) + (j - 1)] + q1;
        assert(pf[ph.len() + w] == pt[w]);
        assert(seq![(i0 + 1) + (j - 1)] + q1 =~= seq![i0 + j] + q1);
    }
}

/// A mutable, single-owner navigation handle over a tree. Navigation either
/// succeeds and moves one step, or fails and leaves the cursor unmoved.
pub struct Cursor<'a> {
    root: &'a Node,
    path: Vec<usize>,
}

impl<'a> Cursor<'a> {
    /// The tree this cursor walks.
    pub closed spec fn root_spec(&self) -> Node {
        *self.root
    }

    /// The chain of child indices from the root to the current position.
    pub closed spec fn path_model(&self) -> Seq<int> {
        self.path@.map_values(|x: usize| x as int)
    }

    /// The cursor's position is a real position of the tree.
    pub open spec fn wf(&self) -> bool {
        valid_path(self.root_spec(), self.path_model())
    }

    /// A fresh cursor, standing at the root.
    pub fn new(root: &'a Node) -> (r: Cursor<'a>)
        ensures
            r.wf(),
            r.root_spec() == *root,
            r.path_model() == Seq::<int>::empty(),
    {
        let c = Cursor { root, path: Vec::new() };
        proof {
            assert(c.path_model() =~= Seq::<int>::empty());
        }
        c
    }

    /// How many ancestor links separate the current position from the root.
    pub fn depth(&self) -> (d: usize)
        ensures
            d == self.path_model().len(),
    {
        self.path.len()
    }

    /// The node reached by the first `upto` steps of the current path.
    fn node_prefix(&self, upto: usize) -> (r: &'a Node)
        requires
            self.wf(),
            upto <= self.path@.len(),
        ensures
            *r == node_at(self.root_spec(), self.path_model().subrange(0, upto as int)),
    {
        let ghost pm = self.path_model();
        let mut cur: &'a Node = self.root;
        let mut j: usize = 0;
        proof {
            assert(pm.subrange(0, 0) =~= Seq::<int>::empty());
        }
        while j < upto
            invariant
                self.wf(),
                pm == self.path_model(),
                upto <= self.path@.len(),
                j <= upto,
                *cur == node_at(self.root_spec(), pm.subrange(0, j as int)),
            decreases upto - j,
        {
            proof {
                lemma_valid_prefix(self.root_spec(), pm, j as int);
                lemma_valid_prefix(self.root_spec(), pm, j + 1);
                assert(pm.subrange(0, j + 1) =~= pm.subrange(0, j as int).push(pm[j as int]));
                lemma_path_snoc(self.root_spec(), pm.subrange(0, j as int), pm[j as int]);
            }
            cur = &cur.children[self.path[j]];
            j = j + 1;
        }
        cur
    }

    /// The node at the current position.
    pub fn node(&self) -> (r: &'a Node)
        requires
            self.wf(),
        ensures
            *r == node_at(self.root_spec(), self.path_model()),
    {
        let len = self.path.len();
        let r = self.node_prefix(len);
        proof {
            assert(self.path_model().subrange(0, len as int) =~= self.path_model());
        }
        r
    }

    /// Step down to the first child, if there is one.
    pub fn goto_first_child(&mut self) -> (r: bool)
        requires
            old(self).wf(),
        ensures
            final(self).wf(),
            final(self).root_spec() == old(self).root_spec(),
            r == (node_at(old(self).root_spec(), old(self).path_model()).children@.len() > 0),
            r ==> final(self).path_model() == old(self).path_model().push(0),
            !r ==> final(self).path_model() == old(self).path_model(),
    {
        let len = self.path.len();
        let cur = self.node_prefix(len);
        proof {
            assert(self.path_model().subrange(0, len as int) =~= self.path_model());
        }
        let has = cur.children.len() > 0;
        if has {
            proof {
                lemma_path_snoc(self.root_spec(), self.path_model(), 0);
            }
            self.path.push(0);
            proof {
                assert(self.path_model() =~= old(self).path_model().push(0));
            }
            true
        } else {
            false
        }
    }

    /// Step to the next sibling, if the parent has one after this position.
    pub fn goto_next_sibling(&mut self) -> (r: bool)
        requires
            old(self).wf(),
        ensures
            final(self).wf(),
            final(self).root_spec() == old(self).root_spec(),
            r ==> old(self).path_model().len() > 0 && old(self).path_model().last() + 1 < node_at(
                old(self).root_spec(),
                old(self).path_model().drop_last(),
            ).children@.len() && final(self).path_model() == old(self).path_model().update(
                old(self).path_model().len() - 1,
                old(self).path_model().last() + 1,
            ),
            !r ==> final(self).path_model() == old(self).path_model() && (old(
                self,
            ).path_model().len() == 0 || old(self).path_model().last() + 1 >= node_at(
                old(self).root_spec(),
                old(self).path_model().drop_last(),
            ).children@.len()),
    {
        let len = self.path.len();
        if len == 0 {
            return false;
        }
        let ghost pm = self.path_model();
        let par = self.node_prefix(len - 1);
        let i = self.path[len - 1];
        proof {
            assert(pm.drop_last() =~= pm.subrange(0, len - 1));
            lemma_valid_prefix(self.root_spec(), pm, len - 1);
            assert(pm =~= pm.drop_last().push(pm.last()));
            lemma_path_snoc(self.root_spec(), pm.drop_last(), pm.last());
            assert(i as int == pm.last());
        }
        let m = par.children.len();
        proof {
            assert(i < m);
        }
        if i + 1 < m {
            proof {
                lemma_path_snoc(self.root_spec(), pm.drop_last(), pm.last() + 1);
            }
            self.path.set(len - 1, i + 1);
            proof {
                assert(self.path_model() =~= pm.drop_last().push(pm.last() + 1));
                assert(self.path_model() =~= pm.update(pm.len() - 1, pm.last() + 1));
            }
            true
        } else {
            false
        }
    }

    /// Step up to the parent, if the cursor is not at the root.
    pub fn goto_parent(&mut self) -> (r: bool)
        requires
            old(self).wf(),
        ensures
            final(self).wf(),
            final(self).root_spec() == old(self).root_spec(),
            r == (old(self).path_model().len() > 0),
            r ==> final(self).path_model() == old(self).path_model().drop_last(),
            !r ==> final(self).path_model() == old(self).path_model(),
    {
        let len = self.path.len();
        if len == 0 {
            return false;
        }
        let ghost pm = self.path_model();
        proof {
            lemma_valid_prefix(self.root_spec(), pm, len - 1);
        }
        self.path.pop();
        proof {
            assert(self.path_model() =~= pm.drop_last());
        }
        true
    }
}

} // verus!
