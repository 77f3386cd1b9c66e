use vstd::prelude::*;

verus! {

// ============================================================================
// The mathematical model.
//
// A forest is modelled by the sequence of its parent indices. A parent
// sequence is meaningful only when every parent chain descends to a root
// (a self-parent); that is witnessed by a depth assignment under which every
// parent edge strictly decreases. All further notions (the root of a node,
// membership of a parent chain, the result of path compression) are defined
// over such a witness, and their values do not depend on which witness is
// picked.
// ============================================================================

/// `d` witnesses that every parent chain of `p` terminates: parents stay in
/// range and every proper parent edge strictly decreases the depth.
pub open spec fn valid_depths(p: Seq<int>, d: Seq<nat>) -> bool {
    &&& d.len() == p.len()
    &&& forall|i: int| 0 <= i < p.len() ==> 0 <= #[trigger] p[i] < p.len()
    &&& forall|i: int| 0 <= i < p.len() && p[i] != i ==> d[#[trigger] p[i]] < d[i]
}

/// The parent sequence has some terminating depth witness.
pub open spec fn has_depths(p: Seq<int>) -> bool {
    exists|d: Seq<nat>| valid_depths(p, d)
}

/// An arbitrary depth witness for `p` (meaningful when `has_depths(p)`).
pub open spec fn some_depths(p: Seq<int>) -> Seq<nat> {
    choose|d: Seq<nat>| valid_depths(p, d)
}

/// The root reached by following parent edges from `i`.
pub open spec fn root_of(p: Seq<int>, d: Seq<nat>, i: int) -> int
    decreases d[i]
        when valid_depths(p, d) && 0 <= i < p.len()
{
    if p[i] == i {
        i
    } else {
        root_of(p, d, p[i])
    }
}

/// Whether `x` lies on the parent chain that starts at `s` (inclusive of both
/// `s` and the root).
pub open spec fn on_chain(p: Seq<int>, d: Seq<nat>, s: int, x: int) -> bool
    decreases d[s]
        when valid_depths(p, d) && 0 <= s < p.len()
{
    if s == x {
        true
    } else if p[s] == s {
        false
    } else {
        on_chain(p, d, p[s], x)
    }
}

/// The parent sequence after compressing the chain that starts at `s`: every
/// node of that chain except the root points directly at the root; everything
/// else is untouched.
pub open spec fn compressed(p: Seq<int>, d: Seq<nat>, s: int) -> Seq<int> {
    Seq::new(
        p.len(),
        |x: int|
            if on_chain(p, d, s, x) && x != root_of(p, d, s) {
                root_of(p, d, s)
            } else {
                p[x]
            },
    )
}

/// `root_of` over an arbitrary witness; well-defined whenever `has_depths(p)`
/// holds, since the value does not depend on the witness.
pub open spec fn root_in(p: Seq<int>, i: int) -> int {
    root_of(p, some_depths(p), i)
}

/// `compressed` over an arbitrary witness.
pub open spec fn compressed_in(p: Seq<int>, s: int) -> Seq<int> {
    compressed(p, some_depths(p), s)
}

/// The sum, over the first `k` nodes, of the size fields of the nodes that
/// are roots.
pub open spec fn root_size_sum(p: Seq<int>, s: Seq<int>, k: int) -> int
    decreases k,
{
    if k <= 0 {
        0
    } else {
        root_size_sum(p, s, k - 1) + if p[k - 1] == k - 1 {
            s[k - 1]
        } else {
            0
        }
    }
}

// ============================================================================
// Lemmas about the model.
// ============================================================================

proof fn lemma_some_depths_valid(p: Seq<int>)
    requires
        has_depths(p),
    ensures
        valid_depths(p, some_depths(p)),
{
    assert(valid_depths(p, choose|d: Seq<nat>| valid_depths(p, d)));
}

proof fn lemma_root_of_props(p: Seq<int>, d: Seq<nat>, i: int)
    requires
        valid_depths(p, d),
        0 <= i < p.len(),
    ensures
        0 <= root_of(p, d, i) < p.len(),
        p[root_of(p, d, i)] == root_of(p, d, i),
        d[root_of(p, d, i)] <= d[i],
    decreases d[i],
{
    if p[i] != i {
        lemma_root_of_props(p, d, p[i]);
    }
}

/// The root does not depend on which depth witness is used.
proof fn lemma_root_of_any_depths(p: Seq<int>, d1: Seq<nat>, d2: Seq<nat>, i: int)
    requires
        valid_depths(p, d1),
        valid_depths(p, d2),
        0 <= i < p.len(),
    ensures
        root_of(p, d1, i) == root_of(p, d2, i),
    decreases d1[i],
{
    if p[i] != i {
        lemma_root_of_any_depths(p, d1, d2, p[i]);
    }
}

proof fn lemma_on_chain_props(p: Seq<int>, d: Seq<nat>, s: int, x: int)
    requires
        valid_depths(p, d),
        0 <= s < p.len(),
        on_chain(p, d, s, x),
    ensures
        0 <= x < p.len(),
        root_of(p, d, x) == root_of(p, d, s),
        d[x] <= d[s],
    decreases d[s],
{
    if s != x {
        lemma_on_chain_props(p, d, p[s], x);
    }
}

proof fn lemma_chain_reaches_root(p: Seq<int>, d: Seq<nat>, s: int)
    requires
        valid_depths(p, d),
        0 <= s < p.len(),
    ensures
        on_chain(p, d, s, root_of(p, d, s)),
    decreases d[s],
{
    if p[s] != s {
        lemma_chain_reaches_root(p, d, p[s]);
    }
}

/// A chain that contains a non-root node `x` also contains `x`'s parent.
proof fn lemma_on_chain_step(p: Seq<int>, d: Seq<nat>, s: int, x: int)
    requires
        valid_depths(p, d),
        0 <= s < p.len(),
        on_chain(p, d, s, x),
        p[x] != x,
    ensures
        on_chain(p, d, s, p[x]),
    decreases d[s],
{
    lemma_on_chain_props(p, d, s, x);
    if s == x {
        assert(on_chain(p, d, p[x], p[x]));
    } else {
        lemma_on_chain_step(p, d, p[s], x);
    }
}

/// Compression keeps the depth witness valid: the compressed chain nodes all
/// point at their root, which lies strictly below them.
proof fn lemma_compressed_valid(p: Seq<int>, d: Seq<nat>, s: int)
    requires
        valid_depths(p, d),
        0 <= s < p.len(),
    ensures
        valid_depths(compressed(p, d, s), d),
{
    let q = compressed(p, d, s);
    let r = root_of(p, d, s);
    lemma_root_of_props(p, d, s);
    assert forall|x: int| 0 <= x < q.len() implies 0 <= #[trigger] q[x] < q.len() by {
        if on_chain(p, d, s, x) && x != r {
        }
    }
    assert forall|x: int| 0 <= x < q.len() && q[x] != x implies d[#[trigger] q[x]] < d[x] by {
        if on_chain(p, d, s, x) && x != r {
            lemma_on_chain_props(p, d, s, x);
            // x is not a root: its root is r, and x differs from r
            assert(p[x] != x);
            // the chain from x's parent still reaches r, so d[r] <= d[p[x]] < d[x]
            lemma_chain_reaches_root(p, d, x);
            assert(on_chain(p, d, p[x], r));
            lemma_on_chain_props(p, d, p[x], r);
        }
    }
}

/// Compression does not change any node's root.
proof fn lemma_compressed_root_one(p: Seq<int>, d: Seq<nat>, s: int, x: int)
    requires
        valid_depths(p, d),
        0 <= s < p.len(),
        0 <= x < p.len(),
    ensures
        root_of(compressed(p, d, s), d, x) == root_of(p, d, x),
    decreases d[x],
{
    let q = compressed(p, d, s);
    let r = root_of(p, d, s);
    lemma_compressed_valid(p, d, s);
    lemma_root_of_props(p, d, s);
    if on_chain(p, d, s, x) && x != r {
        lemma_on_chain_props(p, d, s, x);
        assert(q[x] == r);
        assert(q[r] == r);
        assert(root_of(q, d, r) == r);
    } else {
        if p[x] != x {
            lemma_compressed_root_one(p, d, s, p[x]);
        }
    }
}

/// Two tables with the same root positions and the same sizes have the same
/// root-size sum.
proof fn lemma_sum_congruent(p1: Seq<int>, s1: Seq<int>, p2: Seq<int>, s2: Seq<int>, k: int)
    requires
        forall|i: int| 0 <= i < k ==> ((#[trigger] p1[i] == i <==> p2[i] == i) && s1[i] == s2[i]),
    ensures
        root_size_sum(p1, s1, k) == root_size_sum(p2, s2, k),
    decreases k,
{
    if k > 0 {
        lemma_sum_congruent(p1, s1, p2, s2, k - 1);
    }
}

/// Attaching root `l` under root `w` and moving `l`'s size onto `w` keeps the
/// root-size sum unchanged (over the whole table; the partial sums shift by
/// `s[l]` exactly where only one of the two indices is counted).
proof fn lemma_sum_transfer(p: Seq<int>, s: Seq<int>, l: int, w: int, k: int)
    requires
        0 <= l < p.len(),
        0 <= w < p.len(),
        l != w,
        p[l] == l,
        p[w] == w,
        s.len() == p.len(),
        k <= p.len(),
    ensures
        root_size_sum(p.update(l, w), s.update(w, s[w] + s[l]), k) == root_size_sum(p, s, k) + (
        if 0 <= w < k {
            s[l]
        } else {
            0
        }) - (
        if 0 <= l < k {
            s[l]
        } else {
            0
        }),
    decreases k,
{
    if k > 0 {
        lemma_sum_transfer(p, s, l, w, k - 1);
    }
}

/// The root-size sum dominates the sizes of any two distinct roots, provided
/// all sizes are nonnegative.
proof fn lemma_sum_two_roots_bound(p: Seq<int>, s: Seq<int>, i: int, j: int, k: int)
    requires
        p.len() == s.len(),
        k <= p.len(),
        forall|m: int| 0 <= m < p.len() ==> #[trigger] s[m] >= 0,
        0 <= i < p.len(),
        0 <= j < p.len(),
        i != j,
        p[i] == i,
        p[j] == j,
    ensures
        root_size_sum(p, s, k) >= (
        if i < k {
            s[i]
        } else {
            0
        }) + (
        if j < k {
            s[j]
        } else {
            0
        }),
    decreases k,
{
    if k > 0 {
        lemma_sum_two_roots_bound(p, s, i, j, k - 1);
    }
}

/// In a flat table where every node is its own root with size one, the
/// root-size sum counts the nodes.
proof fn lemma_sum_all_singleton(p: Seq<int>, s: Seq<int>, k: int)
    requires
        0 <= k,
        forall|i: int| 0 <= i < k ==> #[trigger] p[i] == i && s[i] == 1,
    ensures
        root_size_sum(p, s, k) == k,
    decreases k,
{
    if k > 0 {
        lemma_sum_all_singleton(p, s, k - 1);
    }
}

/// Depths after attaching root `l` under root `w`: everything in `l`'s set is
/// lifted above `w`, the rest keeps its depth.
spec fn bumped_depths(p: Seq<int>, d: Seq<nat>, l: int, w: int) -> Seq<nat> {
    Seq::new(
        d.len(),
        |x: int|
            if root_of(p, d, x) == l {
                (d[x] + d[w] + 1) as nat
            } else {
                d[x]
            },
    )
}

proof fn lemma_attach_valid(p: Seq<int>, d: Seq<nat>, l: int, w: int)
    requires
        valid_depths(p, d),
        0 <= l < p.len(),
        0 <= w < p.len(),
        l != w,
        p[l] == l,
        p[w] == w,
    ensures
        valid_depths(p.update(l, w), bumped_depths(p, d, l, w)),
{
    let p2 = p.update(l, w);
    let d2 = bumped_depths(p, d, l, w);
    assert(root_of(p, d, l) == l);
    assert(root_of(p, d, w) == w);
    assert forall|x: int| 0 <= x < p2.len() && p2[x] != x implies d2[#[trigger] p2[x]] < d2[x] by {
        if x == l {
            assert(d2[w] == d[w]);
            assert(d2[l] == d[l] + d[w] + 1);
        } else {
            // the old edge from x to p[x] stays within one set, so both ends
            // are bumped together or not at all
            assert(root_of(p, d, x) == root_of(p, d, p[x]));
        }
    }
}

/// Attaching root `l` under root `w` sends `l`'s whole set to `w` and leaves
/// every other node's root unchanged.
proof fn lemma_attach_root_one(p: Seq<int>, d: Seq<nat>, l: int, w: int, x: int)
    requires
        valid_depths(p, d),
        0 <= l < p.len(),
        0 <= w < p.len(),
        l != w,
        p[l] == l,
        p[w] == w,
        0 <= x < p.len(),
    ensures
        root_of(p.update(l, w), bumped_depths(p, d, l, w), x) == (
        if root_of(p, d, x) == l {
            w
        } else {
            root_of(p, d, x)
        }),
    decreases d[x],
{
    let p2 = p.update(l, w);
    let d2 = bumped_depths(p, d, l, w);
    lemma_attach_valid(p, d, l, w);
    if x == l {
        assert(root_of(p, d, l) == l);
        assert(root_of(p2, d2, w) == w);
    } else if p[x] == x {
        assert(root_of(p2, d2, x) == x);
    } else {
        lemma_attach_root_one(p, d, l, w, p[x]);
        assert(root_of(p, d, x) == root_of(p, d, p[x]));
        assert(root_of(p2, d2, x) == root_of(p2, d2, p[x]));
    }
}

// ============================================================================
// The forest.
// ============================================================================

/// One entry of a forest's node table: the caller's payload, the index of the
/// node's parent, and the size of the subtree rooted here. The size field is
/// meaningful only while the node is a root; it goes stale once the node is
/// attached under another root.
pub struct Node<T> {
    pub payload: T,
    pub parent: usize,
    pub size: usize,
}

/// A disjoint-set forest. All nodes live in one table and a node is named by
/// its index into that table; the parent field is likewise an index. A node
/// whose parent index equals its own index is a root, so root detection is
/// structural and never compares payloads.
pub struct Forest<T> {
    pub nodes: Vec<Node<T>>,
}

impl<T> Forest<T> {
    /// Total number of nodes.
    pub open spec fn node_count(self) -> nat {
        self.nodes@.len()
    }

    /// The parent index of each node.
    pub open spec fn parents(self) -> Seq<int> {
        self.nodes@.map_values(|n: Node<T>| n.parent as int)
    }

    /// The size field of each node.
    pub open spec fn sizes(self) -> Seq<int> {
        self.nodes@.map_values(|n: Node<T>| n.size as int)
    }

    /// The payload of each node.
    pub open spec fn payloads(self) -> Seq<T> {
        self.nodes@.map_values(|n: Node<T>| n.payload)
    }

    /// Well-formedness: every parent chain descends to a root, and the size
    /// fields of the roots account for every node exactly once.
    pub open spec fn wf(self) -> bool {
        &&& has_depths(self.parents())
        &&& root_size_sum(self.parents(), self.sizes(), self.node_count() as int)
            == self.node_count()
    }

    /// The representative (root) of the set that node `i` belongs to.
    pub open spec fn root(self, i: int) -> int {
        root_in(self.parents(), i)
    }

    /// Number of nodes in the forest.
    pub fn len(&self) -> (n: usize)
        ensures
            n == self.node_count(),
    {
        self.nodes.len()
    }

    /// The payload stored at node `i`.
    pub fn payload(&self, i: usize) -> (p: &T)
        requires
            i < self.node_count(),
        ensures
            *p == self.payloads()[i as int],
    {
        &self.nodes[i].payload
    }

    /// The current parent index of node `i`.
    pub fn parent_of(&self, i: usize) -> (p: usize)
        requires
            i < self.node_count(),
        ensures
            p as int == self.parents()[i as int],
    {
        self.nodes[i].parent
    }

    /// The size field of node `i`: the number of members of `i`'s set when
    /// `i` is a root.
    pub fn size_of(&self, i: usize) -> (s: usize)
        requires
            i < self.node_count(),
        ensures
            s as int == self.sizes()[i as int],
    {
        self.nodes[i].size
    }
}

/// Build a forest with one node per element, each its own root with size one.
/// Node `i` holds `components[i]`; duplicate payloads stay distinct nodes.
pub fn make_set<T>(components: Vec<T>) -> (f: Forest<T>)
    ensures
        f.wf(),
        f.node_count() == components@.len(),
        f.payloads() == components@,
        forall|i: int| 0 <= i < f.node_count() ==> #[trigger] f.parents()[i] == i,
        forall|i: int| 0 <= i < f.node_count() ==> #[trigger] f.sizes()[i] == 1,
        // every freshly made node is its own representative
        forall|i: int| 0 <= i < f.node_count() ==> #[trigger] f.root(i) == i,
{
    let ghost all = components@;
    let mut rest = components;
    let mut nodes: Vec<Node<T>> = Vec::new();
    while rest.len() > 0
        invariant
            nodes@.len() + rest@.len() == all.len(),
            rest@ == all.subrange(nodes@.len() as int, all.len() as int),
            forall|i: int| 0 <= i < nodes@.len() ==> {
                &&& (#[trigger] nodes@[i]).payload == all[i]
                &&& nodes@[i].parent as int == i
                &&& nodes@[i].size == 1
            },
        decreases rest@.len(),
    {
        let idx = nodes.len();
        let element = rest.remove(0);
        proof {
            assert(all.subrange(idx as int, all.len() as int)[0] == all[idx as int]);
            assert(rest@ =~= all.subrange(idx as int + 1, all.len() as int));
        }
        nodes.push(Node { payload: element, parent: idx, size: 1 });
    }
    let f = Forest { nodes };
    proof {
        assert(f.payloads() =~= all);
        let d0: Seq<nat> = Seq::new(f.node_count(), |x: int| 0nat);
        assert(valid_depths(f.parents(), d0));
        assert(has_depths(f.parents()));
        lemma_sum_all_singleton(f.parents(), f.sizes(), f.node_count() as int);
        lemma_some_depths_valid(f.parents());
        assert forall|i: int| 0 <= i < f.node_count() implies #[trigger] f.root(i) == i by {
            assert(f.parents()[i] == i);
        }
    }
    f
}

/// Resolve `node` to the representative (root) of its set, then compress the
/// traversed path: afterwards every node of that chain points directly at the
/// root. No payload, no size field and no node's representative changes.
pub fn find<T>(f: &mut Forest<T>, node: usize) -> (r: usize)
    requires
        old(f).wf(),
        node < old(f).node_count(),
    ensures
        final(f).wf(),
        final(f).node_count() == old(f).node_count(),
        final(f).payloads() == old(f).payloads(),
        final(f).sizes() == old(f).sizes(),
        r as int == old(f).root(node as int),
        r < final(f).node_count(),
        final(f).parents()[r as int] == r as int,
        final(f).parents()[node as int] == r as int,
        final(f).parents() == compressed_in(old(f).parents(), node as int),
        // compression never changes a representative
        forall|x: int| 0 <= x < old(f).node_count() ==> #[trigger] final(f).root(x)
            == old(f).root(x),
        // a parent is either untouched or redirected to the root that was found
        forall|x: int| 0 <= x < old(f).node_count() ==> #[trigger] final(f).parents()[x]
            == old(f).parents()[x] || final(f).parents()[x] == r as int,
        // nodes of other sets are untouched
        forall|x: int|
            0 <= x < old(f).node_count() && old(f).root(x) != r as int
                ==> #[trigger] final(f).parents()[x] == old(f).parents()[x],
{
    let ghost p0 = f.parents();
    let ghost d0 = some_depths(p0);
    let ghost n = f.node_count();
    proof {
        lemma_some_depths_valid(p0);
    }
    // first pass: walk parent edges up to the root
    let mut cur: usize = node;
    while f.nodes[cur].parent != cur
        invariant
            *f == *old(f),
            valid_depths(p0, d0),
            p0 == f.parents(),
            node < p0.len(),
            cur < p0.len(),
            on_chain(p0, d0, node as int, cur as int),
            root_of(p0, d0, cur as int) == root_of(p0, d0, node as int),
        decreases d0[cur as int],
    {
        proof {
            assert(p0[cur as int] == f.nodes@[cur as int].parent as int);
            lemma_on_chain_step(p0, d0, node as int, cur as int);
        }
        cur = f.nodes[cur].parent;
    }
    let root = cur;
    let ghost r = root as int;
    proof {
        assert(p0[r] == r);
        assert(root_of(p0, d0, node as int) == r);
    }
    // second pass: redirect the chain to the root
    let mut walk: usize = node;
    while f.nodes[walk].parent != root
        invariant
            valid_depths(p0, d0),
            p0 == old(f).parents(),
            f.node_count() == p0.len(),
            f.payloads() == old(f).payloads(),
            f.sizes() == old(f).sizes(),
            node < p0.len(),
            walk < p0.len(),
            r == root as int,
            r < p0.len(),
            p0[r] == r,
            r == root_of(p0, d0, node as int),
            root_of(p0, d0, walk as int) == r,
            on_chain(p0, d0, node as int, walk as int),
            forall|x: int|
                0 <= x < p0.len() ==> #[trigger] f.parents()[x] == (
                if on_chain(p0, d0, node as int, x) && !on_chain(p0, d0, walk as int, x) {
                    r
                } else {
                    p0[x]
                }),
        decreases d0[walk as int],
    {
        proof {
            assert(on_chain(p0, d0, walk as int, walk as int));
            assert(f.parents()[walk as int] == p0[walk as int]);
            assert(f.nodes@[walk as int].parent as int == p0[walk as int]);
        }
        let next = f.nodes[walk].parent;
        let ghost before = f.parents();
        proof {
            // the loop condition rules the root out, so walk is a proper child
            assert(next as int != r);
            assert(walk as int != r);
            assert(p0[walk as int] != walk as int);
            lemma_on_chain_step(p0, d0, node as int, walk as int);
        }
        f.nodes[walk].parent = root;
        proof {
            assert(f.parents() =~= before.update(walk as int, r));
            assert forall|x: int| 0 <= x < p0.len() implies #[trigger] f.parents()[x] == (
            if on_chain(p0, d0, node as int, x) && !on_chain(p0, d0, next as int, x) {
                r
            } else {
                p0[x]
            }) by {
                if x == walk as int {
                    if on_chain(p0, d0, next as int, walk as int) {
                        lemma_on_chain_props(p0, d0, next as int, walk as int);
                        assert(false);
                    }
                } else {
                    assert(on_chain(p0, d0, walk as int, x) <==> (x == walk as int || on_chain(
                        p0,
                        d0,
                        next as int,
                        x,
                    )));
                }
            }
        }
        walk = next;
    }
    proof {
        // the loop left every proper chain node pointing at the root
        assert(f.parents()[walk as int] == p0[walk as int]);
        assert(p0[walk as int] == r);
        lemma_root_of_props(p0, d0, node as int);
        assert forall|x: int| 0 <= x < p0.len() implies f.parents()[x] == compressed(
            p0,
            d0,
            node as int,
        )[x] by {
            if on_chain(p0, d0, node as int, x) {
                lemma_on_chain_props(p0, d0, node as int, x);
                if on_chain(p0, d0, walk as int, x) {
                    // the remaining chain holds only walk and the root itself
                    assert(x == walk as int || on_chain(p0, d0, r, x));
                    assert(x == walk as int || x == r);
                }
            }
        }
        assert(f.parents() =~= compressed(p0, d0, node as int));
        lemma_compressed_valid(p0, d0, node as int);
        assert(has_depths(f.parents()));
        lemma_some_depths_valid(f.parents());
        // roots are preserved, under any witness
        assert forall|x: int| 0 <= x < n implies #[trigger] f.root(x) == old(f).root(x) by {
            lemma_compressed_root_one(p0, d0, node as int, x);
            lemma_root_of_any_depths(f.parents(), some_depths(f.parents()), d0, x);
        }
        // root positions are pointwise unchanged, so the size bookkeeping is too
        assert forall|x: int| 0 <= x < n implies (#[trigger] f.parents()[x] == x <==> p0[x]
            == x) by {
            if on_chain(p0, d0, node as int, x) && x != r {
                lemma_on_chain_props(p0, d0, node as int, x);
            }
        }
        lemma_sum_congruent(f.parents(), f.sizes(), p0, old(f).sizes(), n as int);
        // untouched sets keep their parents
        assert forall|x: int|
            0 <= x < n && old(f).root(x) != r implies #[trigger] f.parents()[x] == p0[x] by {
            if on_chain(p0, d0, node as int, x) {
                lemma_on_chain_props(p0, d0, node as int, x);
                lemma_root_of_any_depths(p0, some_depths(p0), d0, x);
            }
        }
        assert(f.parents()[node as int] == r);
    }
    root
}

/// The representative that survives a `union(a, b)` on forest `f`: the root
/// of the larger set; ties keep `a`'s root, as does a union within one set.
pub open spec fn merged_root<T>(f: Forest<T>, a: int, b: int) -> int {
    if f.root(a) == f.root(b) {
        f.root(a)
    } else if f.sizes()[f.root(a)] < f.sizes()[f.root(b)] {
        f.root(b)
    } else {
        f.root(a)
    }
}

/// The root that is attached under the surviving one (meaningful only when
/// the two sets were distinct).
pub open spec fn losing_root<T>(f: Forest<T>, a: int, b: int) -> int {
    if merged_root(f, a, b) == f.root(a) {
        f.root(b)
    } else {
        f.root(a)
    }
}

/// How `union(a, b)` maps representatives: the sets of `a` and `b` now share
/// the surviving root, every other set keeps its own.
pub open spec fn union_roots<T>(pre: Forest<T>, post: Forest<T>, a: int, b: int) -> bool {
    &&& post.node_count() == pre.node_count()
    &&& forall|x: int|
        0 <= x < pre.node_count() ==> #[trigger] post.root(x) == (
        if pre.root(x) == pre.root(a) || pre.root(x) == pre.root(b) {
            merged_root(pre, a, b)
        } else {
            pre.root(x)
        })
}

/// Merge the sets containing `a` and `b`. Both are first resolved to their
/// roots (compressing their chains); if the roots differ, the smaller set's
/// root is attached under the larger set's root, which absorbs its size. A
/// union within one set is a no-op beyond the compression done by the lookups.
pub fn union<T>(f: &mut Forest<T>, a: usize, b: usize)
    requires
        old(f).wf(),
        a < old(f).node_count(),
        b < old(f).node_count(),
    ensures
        final(f).wf(),
        final(f).node_count() == old(f).node_count(),
        final(f).payloads() == old(f).payloads(),
        // the two nodes now share one representative
        final(f).root(a as int) == final(f).root(b as int),
        union_roots(*old(f), *final(f), a as int, b as int),
        // nodes of untouched sets keep their representative
        forall|x: int|
            0 <= x < old(f).node_count() && old(f).root(x) != old(f).root(a as int) && old(
                f,
            ).root(x) != old(f).root(b as int) ==> #[trigger] final(f).root(x) == old(f).root(x),
        // size bookkeeping: the surviving root absorbs the attached set
        old(f).root(a as int) == old(f).root(b as int) ==> final(f).sizes() == old(f).sizes(),
        old(f).root(a as int) != old(f).root(b as int) ==> final(f).sizes() == old(
            f,
        ).sizes().update(
            merged_root(*old(f), a as int, b as int),
            old(f).sizes()[old(f).root(a as int)] + old(f).sizes()[old(f).root(b as int)],
        ),
        // the surviving representative is a root
        final(f).parents()[merged_root(*old(f), a as int, b as int)] == merged_root(
            *old(f),
            a as int,
            b as int,
        ),
        // the parent table itself: both lookup chains compressed, then, for
        // distinct sets, the losing root redirected to the surviving one
        old(f).root(a as int) == old(f).root(b as int) ==> final(f).parents() == compressed_in(
            compressed_in(old(f).parents(), a as int),
            b as int,
        ),
        old(f).root(a as int) != old(f).root(b as int) ==> final(f).parents() == compressed_in(
            compressed_in(old(f).parents(), a as int),
            b as int,
        ).update(losing_root(*old(f), a as int, b as int), merged_root(*old(f), a as int, b as int)),
{
    let ghost n = old(f).node_count();
    let ra = find(f, a);
    let ghost f1 = *f;
    let rb = find(f, b);
    let ghost f2 = *f;
    proof {
        assert(f2.root(ra as int) == ra as int && f2.root(rb as int) == rb as int) by {
            assert(f1.root(a as int) == old(f).root(a as int));
            assert(f2.root(a as int) == f1.root(a as int));
            assert(f2.root(b as int) == f1.root(b as int));
            lemma_some_depths_valid(f2.parents());
            lemma_root_of_props(f2.parents(), some_depths(f2.parents()), a as int);
            lemma_root_of_props(f2.parents(), some_depths(f2.parents()), b as int);
        }
    }
    if ra == rb {
        proof {
            assert(final(f).parents() == compressed_in(
                compressed_in(old(f).parents(), a as int),
                b as int,
            ));
            assert(f2.root(a as int) == merged_root(*old(f), a as int, b as int));
        }
        return ;
    }
    proof {
        // the roots of distinct sets survive both compressions untouched
        assert(f2.parents()[ra as int] == ra as int) by {
            assert(f1.parents()[ra as int] == ra as int);
            assert(f1.root(ra as int) == ra as int);
        }
        assert(f2.parents()[rb as int] == rb as int);
        assert forall|m: int| 0 <= m < n implies #[trigger] f2.sizes()[m] >= 0 by {
            assert(f2.sizes()[m] == f2.nodes@[m].size as int);
        }
        lemma_sum_two_roots_bound(f2.parents(), f2.sizes(), ra as int, rb as int, n as int);
    }
    let sa = f.nodes[ra].size;
    let sb = f.nodes[rb].size;
    proof {
        // the two root sizes are both counted in the conserved sum, which
        // equals the node count, so their sum fits
        assert(sa as int == f2.sizes()[ra as int]);
        assert(sb as int == f2.sizes()[rb as int]);
        vstd::std_specs::vec::axiom_spec_len(&f.nodes);
        assert(f2.node_count() <= usize::MAX);
        assert(sa as int + sb as int <= n);
    }
    let total = sa + sb;
    let (w, l) = if sa < sb {
        (rb, ra)
    } else {
        (ra, rb)
    };
    let ghost p2 = f2.parents();
    let ghost d2 = some_depths(p2);
    f.nodes[w].size = total;
    let ghost f3 = *f;
    proof {
        assert(f3.parents() =~= p2);
        assert(f3.sizes() =~= f2.sizes().update(w as int, total as int));
        assert(f3.payloads() =~= f2.payloads());
    }
    f.nodes[l].parent = w;
    proof {
        lemma_some_depths_valid(p2);
        assert(f.parents() =~= p2.update(l as int, w as int));
        assert(f.sizes() =~= f3.sizes());
        assert(f.payloads() =~= f3.payloads());
        lemma_attach_valid(p2, d2, l as int, w as int);
        let dw = bumped_depths(p2, d2, l as int, w as int);
        assert(has_depths(f.parents()));
        lemma_some_depths_valid(f.parents());
        // the new root assignment, node by node
        assert forall|x: int| 0 <= x < n implies #[trigger] f.root(x) == (
        if f2.root(x) == ra as int || f2.root(x) == rb as int {
            w as int
        } else {
            f2.root(x)
        }) by {
            lemma_attach_root_one(p2, d2, l as int, w as int, x);
            lemma_root_of_any_depths(f.parents(), some_depths(f.parents()), dw, x);
            lemma_root_of_any_depths(p2, some_depths(p2), d2, x);
            assert(root_of(p2, d2, l as int) == l as int);
            assert(root_of(p2, d2, w as int) == w as int);
        }
        // size conservation
        lemma_sum_transfer(p2, f2.sizes(), l as int, w as int, n as int);
        assert(root_size_sum(f.parents(), f.sizes(), n as int) == n) by {
            assert(f.sizes() =~= f2.sizes().update(
                w as int,
                f2.sizes()[w as int] + f2.sizes()[l as int],
            ));
        }
        // tie the merged root back to the pre-call forest
        assert(merged_root(*old(f), a as int, b as int) == w as int) by {
            assert(old(f).root(a as int) == ra as int);
            assert(old(f).root(b as int) == rb as int);
            assert(old(f).sizes() == f2.sizes());
            assert(f2.sizes()[ra as int] == sa as int);
            assert(f2.sizes()[rb as int] == sb as int);
        }
        assert(union_roots(*old(f), *f, a as int, b as int)) by {
            assert forall|x: int| 0 <= x < n implies #[trigger] f.root(x) == (
            if old(f).root(x) == old(f).root(a as int) || old(f).root(x) == old(f).root(b as int) {
                merged_root(*old(f), a as int, b as int)
            } else {
                old(f).root(x)
            }) by {
                assert(f2.root(x) == old(f).root(x));
            }
        }
    }
}

// ============================================================================
// Laws.
// ============================================================================

/// A lookup is idempotent: compressing the chain that starts at `node` leaves
/// its root unchanged, and compressing the same chain a second time changes
/// nothing at all — so a second `find(node)` returns the same root and
/// performs no further parent reassignment.
pub proof fn lemma_find_idempotent(p: Seq<int>, node: int)
    requires
        has_depths(p),
        0 <= node < p.len(),
    ensures
        root_in(compressed_in(p, node), node) == root_in(p, node),
        compressed_in(compressed_in(p, node), node) == compressed_in(p, node),
{
    let d = some_depths(p);
    lemma_some_depths_valid(p);
    let q = compressed_in(p, node);
    let r = root_of(p, d, node);
    lemma_root_of_props(p, d, node);
    lemma_compressed_valid(p, d, node);
    assert(has_depths(q));
    lemma_some_depths_valid(q);
    let dq = some_depths(q);
    lemma_compressed_root_one(p, d, node, node);
    lemma_root_of_any_depths(q, dq, d, node);
    let rq = root_of(q, dq, node);
    assert(on_chain(p, d, node, node));
    assert(q[r] == r);
    assert(root_of(q, dq, r) == r);
    assert forall|x: int| 0 <= x < q.len() implies compressed(q, dq, node)[x] == q[x] by {
        if on_chain(q, dq, node, x) && x != rq {
            if node == r {
                assert(x == node);
                assert(false);
            } else {
                // after the first compression the chain from `node` holds
                // only `node` and the root
                assert(q[node] == r);
                assert(on_chain(q, dq, node, x) == (node == x || on_chain(q, dq, r, x)));
                assert(on_chain(q, dq, r, x) == (r == x));
                assert(x == node);
            }
        }
    }
    assert(compressed(q, dq, node) =~= q);
}

/// Union is transitive: once `union(a, b)` and `union(b, c)` have both been
/// applied, in either order, the three nodes share one representative.
pub proof fn lemma_union_transitive<T>(
    f0: Forest<T>,
    f1: Forest<T>,
    f2: Forest<T>,
    a: int,
    b: int,
    c: int,
)
    requires
        0 <= a < f0.node_count(),
        0 <= b < f0.node_count(),
        0 <= c < f0.node_count(),
        (union_roots(f0, f1, a, b) && union_roots(f1, f2, b, c)) || (union_roots(f0, f1, b, c)
            && union_roots(f1, f2, a, b)),
    ensures
        f2.root(a) == f2.root(b),
        f2.root(b) == f2.root(c),
{
    assert(f1.root(a) == f1.root(a));
    assert(f1.root(b) == f1.root(b));
    assert(f1.root(c) == f1.root(c));
}

/// Size conservation: in a well-formed forest the sizes recorded at the roots
/// add up to the total node count. `make_set` establishes well-formedness and
/// `find` and `union` preserve it, so this holds in every reachable state.
pub proof fn lemma_size_conservation<T>(f: Forest<T>)
    requires
        f.wf(),
    ensures
        root_size_sum(f.parents(), f.sizes(), f.node_count() as int) == f.node_count(),
{
}

} // verus!
