//! Disjoint sets: which nodes belong together, after some were joined.

use vstd::prelude::*;

verus! {

/// Disjoint sets over the nodes `0..n`. Its view gives each node the node
/// that stands for its set.
pub struct Dsu {
    parent: Vec<usize>,
    root: Ghost<Seq<int>>,
    depth: Ghost<Seq<nat>>,
}

/// Every node alone.
pub open spec fn apart(n: nat) -> Seq<int> {
    Seq::new(n, |i: int| i)
}

/// The sets after those of `a` and `b` were joined; the node that stood for
/// the set of `a` stands for both.
pub open spec fn merged(roots: Seq<int>, a: int, b: int) -> Seq<int> {
    roots.map_values(
        |r: int|
            if r == roots[b] {
                roots[a]
            } else {
                r
            },
    )
}

/// The sets after joining the ends of each edge in turn.
pub open spec fn joined_by(roots: Seq<int>, edges: Seq<(int, int)>) -> Seq<int>
    decreases edges.len(),
{
    if edges.len() == 0 {
        roots
    } else {
        merged(joined_by(roots, edges.drop_last()), edges.last().0, edges.last().1)
    }
}

impl View for Dsu {
    type V = Seq<int>;

    closed spec fn view(&self) -> Seq<int> {
        self.root@
    }
}

impl Dsu {
    /// Every chain of parents ends at the node that stands for the set.
    pub closed spec fn wf(&self) -> bool {
        let n = self.parent@.len() as int;
        let root = self.root@;
        &&& root.len() == n
        &&& self.depth@.len() == n
        &&& forall|i: int| 0 <= i < n ==> 0 <= #[trigger] self.parent@[i] < n
        &&& forall|i: int| 0 <= i < n ==> 0 <= #[trigger] root[i] < n
        &&& forall|i: int| 0 <= i < n ==> root[#[trigger] root[i]] == root[i]
        &&& forall|i: int| 0 <= i < n ==> root[#[trigger] self.parent@[i] as int] == root[i]
        &&& forall|i: int| 0 <= i < n && #[trigger] self.parent@[i] == i ==> root[i] == i
        &&& forall|i: int| 0 <= i < n && root[i] == i ==> #[trigger] self.parent@[i] == i
        &&& forall|i: int|
            0 <= i < n && #[trigger] self.parent@[i] != i ==> self.depth@[self.parent@[i] as int]
                < self.depth@[i]
    }

    /// A well-formed value has a node standing for every node, itself
    /// included in its set.
    pub proof fn roots_stand(&self)
        requires
            self.wf(),
        ensures
            forall|i: int| 0 <= i < self@.len() ==> 0 <= #[trigger] self@[i] < self@.len(),
            forall|i: int| 0 <= i < self@.len() ==> self@[#[trigger] self@[i]] == self@[i],
    {
    }

    pub fn new(n: usize) -> (r: Dsu)
        ensures
            r.wf(),
            r@ == apart(n as nat),
    {
        let mut parent: Vec<usize> = Vec::new();
        let mut i: usize = 0;
        while i < n
            invariant
                i <= n,
                parent@.len() == i,
                forall|k: int| 0 <= k < i ==> #[trigger] parent@[k] == k,
            decreases n - i,
        {
            parent.push(i);
            i = i + 1;
        }
        Dsu {
            parent,
            root: Ghost(apart(n as nat)),
            depth: Ghost(Seq::new(n as nat, |i: int| 0nat)),
        }
    }

    /// The node that stands for the set of `x`.
    pub fn find(&mut self, x: usize) -> (r: usize)
        requires
            old(self).wf(),
            x < old(self)@.len(),
        ensures
            final(self).wf(),
            final(self)@ == old(self)@,
            r == old(self)@[x as int],
            r < old(self)@.len(),
    {
        let mut x: usize = x;
        let ghost start = x as int;
        while self.parent[x] != x
            invariant
                self.wf(),
                self@ == old(self)@,
                x < self@.len(),
                0 <= start < self@.len(),
                self@[x as int] == self@[start],
            decreases self.depth@[x as int],
        {
            let p: usize = self.parent[x];
            let pp: usize = self.parent[p];
            self.parent.set(x, pp);
            x = pp;
        }
        x
    }

    /// Joins the sets of `a` and `b`.
    pub fn union(&mut self, a: usize, b: usize)
        requires
            old(self).wf(),
            a < old(self)@.len(),
            b < old(self)@.len(),
        ensures
            final(self).wf(),
            final(self)@ == merged(old(self)@, a as int, b as int),
    {
        let ra: usize = self.find(a);
        let rb: usize = self.find(b);
        let ghost before = self@;
        if ra != rb {
            let ghost depth = self.depth@;
            self.parent.set(rb, ra);
            proof {
                let lift = depth[ra as int] + 1;
                self.root@ = merged(before, a as int, b as int);
                self.depth@ = Seq::new(
                    depth.len(),
                    |i: int|
                        if before[i] == rb {
                            depth[i] + lift
                        } else {
                            depth[i]
                        },
                );
            }
        } else {
            assert(merged(before, a as int, b as int) =~= before);
        }
    }
}

// ── Which nodes end up together ───────────────────────────────────────────

/// A chain of edges leads from `i` to `j` in at most `steps` steps.
pub open spec fn reaches(edges: Seq<(int, int)>, i: int, j: int, steps: nat) -> bool
    decreases steps,
{
    i == j || (steps > 0 && exists|k: int| #[trigger] touches(edges, i, k) && reaches(
        edges,
        k,
        j,
        (steps - 1) as nat,
    ))
}

/// Some edge joins `i` and `k`, either way round.
pub open spec fn touches(edges: Seq<(int, int)>, i: int, k: int) -> bool {
    edges.contains((i, k)) || edges.contains((k, i))
}

pub open spec fn connected(edges: Seq<(int, int)>, i: int, j: int) -> bool {
    exists|steps: nat| reaches(edges, i, j, steps)
}

proof fn reaches_more(edges: Seq<(int, int)>, more: Seq<(int, int)>, i: int, j: int, s: nat, t: nat)
    requires
        reaches(edges, i, j, s),
        s <= t,
        forall|e: (int, int)| #[trigger] edges.contains(e) ==> more.contains(e),
    ensures
        reaches(more, i, j, t),
    decreases s,
{
    if i != j {
        let k = choose|k: int| #[trigger] touches(edges, i, k) && reaches(edges, k, j, (s - 1) as nat);
        reaches_more(edges, more, k, j, (s - 1) as nat, (t - 1) as nat);
        assert(touches(more, i, k));
    }
}

proof fn reaches_on(edges: Seq<(int, int)>, i: int, j: int, k: int, s: nat, t: nat)
    requires
        reaches(edges, i, j, s),
        reaches(edges, j, k, t),
    ensures
        reaches(edges, i, k, s + t),
    decreases s,
{
    if i == j {
        reaches_more(edges, edges, j, k, t, s + t);
    } else {
        let m = choose|m: int| #[trigger] touches(edges, i, m) && reaches(edges, m, j, (s - 1) as nat);
        reaches_on(edges, m, j, k, (s - 1) as nat, t);
        assert(touches(edges, i, m) && reaches(edges, m, k, (s + t - 1) as nat));
    }
}

/// Edges between nodes that exist.
pub open spec fn edges_within(edges: Seq<(int, int)>, n: int) -> bool {
    forall|e: int| 0 <= e < edges.len() ==> 0 <= (#[trigger] edges[e]).0 < n && 0 <= edges[e].1 < n
}

proof fn joined_len(n: nat, edges: Seq<(int, int)>)
    ensures
        joined_by(apart(n), edges).len() == n,
    decreases edges.len(),
{
    if edges.len() > 0 {
        joined_len(n, edges.drop_last());
    }
}

/// Nodes in one set are connected by edges.
proof fn together_are_connected(n: nat, edges: Seq<(int, int)>, i: int, j: int)
    requires
        edges_within(edges, n as int),
        0 <= i < n,
        0 <= j < n,
        joined_by(apart(n), edges)[i] == joined_by(apart(n), edges)[j],
    ensures
        connected(edges, i, j),
    decreases edges.len(),
{
    joined_len(n, edges);
    if edges.len() == 0 {
        assert(reaches(edges, i, j, 0));
    } else {
        let less = edges.drop_last();
        let (a, b) = edges.last();
        let old_roots = joined_by(apart(n), less);
        joined_len(n, less);
        assert(edges_within(less, n as int)) by {
            assert forall|e: int| 0 <= e < less.len() implies 0 <= (#[trigger] less[e]).0 < n && 0
                <= less[e].1 < n by {
                assert(edges[e] == less[e]);
            }
        }
        assert(edges[edges.len() - 1] == (a, b));
        assert forall|e: (int, int)| #[trigger] less.contains(e) implies edges.contains(e) by {
            let k = choose|k: int| 0 <= k < less.len() && less[k] == e;
            assert(edges[k] == e);
        }
        assert(edges.contains((a, b)));
        assert(touches(edges, a, b) && touches(edges, b, a));
        assert(reaches(edges, b, b, 0) && reaches(edges, a, a, 0));
        assert(reaches(edges, a, b, 1));
        assert(reaches(edges, b, a, 1));
        if old_roots[i] == old_roots[j] {
            together_are_connected(n, less, i, j);
            let s = choose|s: nat| reaches(less, i, j, s);
            reaches_more(less, edges, i, j, s, s);
        } else if old_roots[i] == old_roots[b] {
            assert(old_roots[j] == old_roots[a]);
            together_are_connected(n, less, i, b);
            together_are_connected(n, less, a, j);
            let s = choose|s: nat| reaches(less, i, b, s);
            let t = choose|t: nat| reaches(less, a, j, t);
            reaches_more(less, edges, i, b, s, s);
            reaches_more(less, edges, a, j, t, t);
            reaches_on(edges, i, b, a, s, 1);
            reaches_on(edges, i, a, j, s + 1, t);
        } else {
            assert(old_roots[j] == old_roots[b] && old_roots[i] == old_roots[a]);
            together_are_connected(n, less, i, a);
            together_are_connected(n, less, b, j);
            let s = choose|s: nat| reaches(less, i, a, s);
            let t = choose|t: nat| reaches(less, b, j, t);
            reaches_more(less, edges, i, a, s, s);
            reaches_more(less, edges, b, j, t, t);
            reaches_on(edges, i, a, b, s, 1);
            reaches_on(edges, i, b, j, s + 1, t);
        }
    }
}

/// Joining keeps together what was together.
proof fn edge_ends_together(n: nat, edges: Seq<(int, int)>, e: int)
    requires
        edges_within(edges, n as int),
        0 <= e < edges.len(),
    ensures
        joined_by(apart(n), edges)[edges[e].0] == joined_by(apart(n), edges)[edges[e].1],
    decreases edges.len(),
{
    let less = edges.drop_last();
    let old_roots = joined_by(apart(n), less);
    joined_len(n, less);
    joined_len(n, edges);
    let (a, b) = edges.last();
    assert(edges[edges.len() - 1] == (a, b));
    assert(0 <= edges[e].0 < n && 0 <= edges[e].1 < n);
    if e < less.len() {
        assert(edges_within(less, n as int)) by {
            assert forall|k: int| 0 <= k < less.len() implies 0 <= (#[trigger] less[k]).0 < n && 0
                <= less[k].1 < n by {
                assert(edges[k] == less[k]);
            }
        }
        edge_ends_together(n, less, e);
        assert(less[e] == edges[e]);
    }
}

proof fn reach_keeps_set(n: nat, edges: Seq<(int, int)>, i: int, j: int, s: nat)
    requires
        edges_within(edges, n as int),
        reaches(edges, i, j, s),
    ensures
        joined_by(apart(n), edges)[i] == joined_by(apart(n), edges)[j],
    decreases s,
{
    if i != j {
        let k = choose|k: int| #[trigger] touches(edges, i, k) && reaches(edges, k, j, (s - 1) as nat);
        reach_keeps_set(n, edges, k, j, (s - 1) as nat);
        if edges.contains((i, k)) {
            let e = choose|e: int| 0 <= e < edges.len() && edges[e] == (i, k);
            edge_ends_together(n, edges, e);
        } else {
            let e = choose|e: int| 0 <= e < edges.len() && edges[e] == (k, i);
            edge_ends_together(n, edges, e);
        }
    }
}

/// Two nodes end up in one set exactly when a chain of edges connects them.
pub proof fn sets_are_components(n: nat, edges: Seq<(int, int)>, i: int, j: int)
    requires
        edges_within(edges, n as int),
        0 <= i < n,
        0 <= j < n,
    ensures
        joined_by(apart(n), edges)[i] == joined_by(apart(n), edges)[j] <==> connected(edges, i, j),
{
    if joined_by(apart(n), edges)[i] == joined_by(apart(n), edges)[j] {
        together_are_connected(n, edges, i, j);
    }
    if connected(edges, i, j) {
        let s = choose|s: nat| reaches(edges, i, j, s);
        reach_keeps_set(n, edges, i, j, s);
    }
}

} // verus!
