//! Generic cycle detection over any graph that can answer a neighbor query.
//!
//! The detector runs a depth-first search from a root, never treating the
//! traversal parent as a revisit; any other revisit reports a cycle. The
//! search is proved sound — whenever it reports a cycle, the graph really
//! contains one (a simple closed walk, or a pair of parallel edges) — and
//! complete at the root: a `None` answer rules out every simple cycle
//! through the root. The returned list retraces discovery parents from the
//! detection point back to the root, so its entries are distinct,
//! consecutive entries are neighbors, and it ends at the root.
//!
//! The module also carries the small theory of walks the placement layer
//! builds on: walks shorten to simple paths, and adding an edge between two
//! nodes no walk joins cannot create a cycle.

use vstd::prelude::*;

verus! {

/// A graph the cycle detector can walk: nodes are handles below
/// `node_limit`, and `neighbors` answers the neighbor query.
pub trait UndirectedGraph {
    /// Number of node slots; every neighbor handle is below this.
    spec fn node_limit(&self) -> nat;

    /// The neighbor sequence of a node.
    spec fn nbrs(&self, n: usize) -> Seq<usize>;

    /// Implementation-specific well-formedness that `neighbors` relies on.
    spec fn valid(&self) -> bool;

    /// Number of node slots, as a runtime value.
    fn node_count(&self) -> (r: usize)
        requires
            self.valid(),
        ensures
            r == self.node_limit(),
    ;

    /// Return all neighboring nodes from the given node.
    fn neighbors(&self, node: usize) -> (r: Vec<usize>)
        requires
            self.valid(),
        ensures
            r@ == self.nbrs(node),
    ;
}

/// What the detector demands of the neighbor relation: neighbors are
/// in-range, never the node itself, and symmetric.
pub open spec fn graph_laws<G: UndirectedGraph + ?Sized>(g: &G) -> bool {
    &&& g.node_limit() <= usize::MAX
    &&& forall|n: usize, i: int|
        0 <= i < g.nbrs(n).len() ==> (#[trigger] g.nbrs(n)[i]) < g.node_limit() && g.nbrs(n)[i]
            != n
    &&& forall|n: usize, m: usize| #[trigger] g.nbrs(n).contains(m) ==> g.nbrs(m).contains(n)
}

/// Two distinct edges between the same pair of nodes, seen as a repeated
/// entry in some neighbor sequence.
pub open spec fn has_parallel_edge<G: UndirectedGraph + ?Sized>(g: &G) -> bool {
    exists|n: usize, i: int, j: int|
        0 <= i < j < g.nbrs(n).len() && #[trigger] g.nbrs(n)[i] == #[trigger] g.nbrs(n)[j]
}

/// `c` is a simple cycle: at least three distinct nodes, consecutive ones
/// neighbors, closed back to the start.
pub open spec fn is_cycle<G: UndirectedGraph + ?Sized>(g: &G, c: Seq<usize>) -> bool {
    &&& c.len() >= 3
    &&& forall|i: int, j: int| 0 <= i < j < c.len() ==> c[i] != c[j]
    &&& forall|i: int| 0 <= i < c.len() - 1 ==> g.nbrs(#[trigger] c[i]).contains(c[i + 1])
    &&& g.nbrs(c.last()).contains(c[0])
}

/// The graph contains a cycle in some form: a simple cycle or a parallel
/// edge.
pub open spec fn cyclic<G: UndirectedGraph + ?Sized>(g: &G) -> bool {
    has_parallel_edge(g) || exists|c: Seq<usize>| is_cycle(g, c)
}

/// Some simple cycle passes through `root`.
pub open spec fn cycle_through<G: UndirectedGraph + ?Sized>(g: &G, root: usize) -> bool {
    exists|c: Seq<usize>| is_cycle(g, c) && c.contains(root)
}

/// `p` is a walk: nonempty, with every consecutive pair neighbors.
pub open spec fn is_path<G: UndirectedGraph + ?Sized>(g: &G, p: Seq<usize>) -> bool {
    &&& p.len() >= 1
    &&& forall|i: int| 0 <= i < p.len() - 1 ==> g.nbrs(#[trigger] p[i]).contains(p[i + 1])
}

/// Some walk leads from `a` to `b`.
pub open spec fn connected<G: UndirectedGraph + ?Sized>(g: &G, a: usize, b: usize) -> bool {
    exists|p: Seq<usize>| is_path(g, p) && p[0] == a && p.last() == b
}

/// By neighbor symmetry, a walk read backwards is a walk.
proof fn lemma_path_reverse<G: UndirectedGraph + ?Sized>(g: &G, p: Seq<usize>)
    requires
        graph_laws(g),
        is_path(g, p),
    ensures
        is_path(g, p.reverse()),
        p.reverse()[0] == p.last(),
        p.reverse().last() == p[0],
{
    let l = p.len() as int;
    assert forall|i: int| 0 <= i < p.reverse().len() - 1 implies g.nbrs(
        #[trigger] p.reverse()[i],
    ).contains(p.reverse()[i + 1]) by {
        assert(p.reverse()[i] == p[l - 1 - i]);
        assert(p.reverse()[i + 1] == p[l - 2 - i]);
        assert(g.nbrs(p[l - 2 - i]).contains(p[l - 1 - i]));
    }
}

/// Connectivity is symmetric.
proof fn lemma_connected_sym<G: UndirectedGraph + ?Sized>(g: &G, a: usize, b: usize)
    requires
        graph_laws(g),
        connected(g, a, b),
    ensures
        connected(g, b, a),
{
    let p = choose|p: Seq<usize>| is_path(g, p) && p[0] == a && p.last() == b;
    lemma_path_reverse(g, p);
    assert(is_path(g, p.reverse()) && p.reverse()[0] == b && p.reverse().last() == a);
}

/// No walk reaches a node without neighbors from anywhere else.
pub(crate) proof fn lemma_isolated_unconnected<G: UndirectedGraph + ?Sized>(g: &G, a: usize, b: usize)
    requires
        graph_laws(g),
        g.nbrs(b) == Seq::<usize>::empty(),
        a != b,
    ensures
        !connected(g, a, b),
{
    if connected(g, a, b) {
        let p = choose|p: Seq<usize>| is_path(g, p) && p[0] == a && p.last() == b;
        let l = p.len() as int;
        assert(l >= 2);
        assert(g.nbrs(p[l - 2]).contains(p[l - 1]));
        assert(g.nbrs(b).contains(p[l - 2]));
        assert(false);
    }
}

/// `p` is a walk without repeated nodes.
pub open spec fn is_simple_path<G: UndirectedGraph + ?Sized>(g: &G, p: Seq<usize>) -> bool {
    is_path(g, p) && (forall|i: int, j: int| 0 <= i < j < p.len() ==> p[i] != p[j])
}

/// Wherever some walk leads, a walk without repeated nodes leads too: as
/// long as a node repeats, the stretch between its two visits can be cut
/// out.
pub(crate) proof fn lemma_walk_to_simple<G: UndirectedGraph + ?Sized>(g: &G, p: Seq<usize>)
    requires
        is_path(g, p),
    ensures
        exists|q: Seq<usize>|
            is_simple_path(g, q) && q[0] == p[0] && q.last() == p.last() && #[trigger] q.len()
                <= p.len(),
    decreases p.len(),
{
    if exists|i: int, j: int| 0 <= i < j < p.len() && p[i] == p[j] {
        let (i, j): (int, int) = choose|i: int, j: int| 0 <= i < j < p.len() && p[i] == p[j];
        let cut = p.take(i) + p.skip(j);
        assert(cut.len() == p.len() - (j - i) < p.len());
        assert(cut[0] == p[0]) by {
            if i == 0 {
                assert(cut[0] == p[j]);
            }
        }
        assert(cut.last() == p.last()) by {
            assert(cut[cut.len() - 1] == p[p.len() - 1]);
        }
        assert(is_path(g, cut)) by {
            assert forall|k: int| 0 <= k < cut.len() - 1 implies g.nbrs(#[trigger] cut[k]).contains(
                cut[k + 1],
            ) by {
                if k < i - 1 {
                    assert(cut[k] == p[k] && cut[k + 1] == p[k + 1]);
                    assert(g.nbrs(p[k]).contains(p[k + 1]));
                } else if k == i - 1 {
                    assert(cut[k] == p[k] && cut[k + 1] == p[j]);
                    assert(p[i] == p[j]);
                    assert(g.nbrs(p[k]).contains(p[k + 1]));
                } else {
                    assert(cut[k] == p[k + (j - i)] && cut[k + 1] == p[k + (j - i) + 1]);
                    assert(g.nbrs(p[k + (j - i)]).contains(p[k + (j - i) + 1]));
                }
            }
        }
        lemma_walk_to_simple(g, cut);
        let q = choose|q: Seq<usize>|
            is_simple_path(g, q) && q[0] == cut[0] && q.last() == cut.last() && #[trigger] q.len()
                <= cut.len();
        assert(q[0] == p[0] && q.last() == p.last() && q.len() <= p.len());
    } else {
        assert(is_simple_path(g, p));
        assert(p[0] == p[0] && p.last() == p.last() && p.len() <= p.len());
    }
}

/// Adding one edge between two nodes of an acyclic graph that no walk
/// already joins keeps the graph acyclic: a new cycle would have to use the
/// new edge exactly once, and the rest of it would be just such a walk.
pub proof fn lemma_add_edge_acyclic<G: UndirectedGraph + ?Sized>(
    gp: &G,
    gc: &G,
    a: usize,
    b: usize,
)
    requires
        graph_laws(gp),
        graph_laws(gc),
        a != b,
        gc.nbrs(a) == gp.nbrs(a).push(b),
        gc.nbrs(b) == gp.nbrs(b).push(a),
        forall|q: usize| q != a && q != b ==> #[trigger] gc.nbrs(q) == gp.nbrs(q),
        !cyclic(gp),
        !connected(gp, a, b),
    ensures
        !cyclic(gc),
{
    // The two nodes were not even adjacent before.
    assert(!gp.nbrs(a).contains(b)) by {
        if gp.nbrs(a).contains(b) {
            let p = seq![a, b];
            assert(is_path(gp, p) && p[0] == a && p.last() == b);
            assert(connected(gp, a, b));
        }
    }
    assert(!gp.nbrs(b).contains(a)) by {
        if gp.nbrs(b).contains(a) {
            assert(gp.nbrs(a).contains(b));
        }
    }
    // Every adjacency of the extended graph other than the new pair already
    // existed.
    assert forall|u: usize, v: usize|
        #[trigger] gc.nbrs(u).contains(v) && !((u == a && v == b) || (u == b && v
            == a)) implies gp.nbrs(u).contains(v) by {
        let i = choose|i: int| 0 <= i < gc.nbrs(u).len() && gc.nbrs(u)[i] == v;
        if u == a {
            assert(gc.nbrs(a)[i] == v);
            if i == gp.nbrs(a).len() {
                assert(v == b);
            } else {
                assert(gp.nbrs(a)[i] == v);
            }
        } else if u == b {
            assert(gc.nbrs(b)[i] == v);
            if i == gp.nbrs(b).len() {
                assert(v == a);
            } else {
                assert(gp.nbrs(b)[i] == v);
            }
        } else {
            assert(gc.nbrs(u) == gp.nbrs(u));
        }
    }
    // No repeated neighbor entry appears.
    assert(!has_parallel_edge(gc)) by {
        if has_parallel_edge(gc) {
            let (n, i, j): (usize, int, int) = choose|n: usize, i: int, j: int|
                0 <= i < j < gc.nbrs(n).len() && #[trigger] gc.nbrs(n)[i] == #[trigger] gc.nbrs(
                    n,
                )[j];
            if n == a {
                if j == gp.nbrs(a).len() {
                    assert(gc.nbrs(a)[j] == b && gp.nbrs(a)[i] == gc.nbrs(a)[i]);
                    assert(gp.nbrs(a).contains(b)) by {
                        assert(gp.nbrs(a)[i] == b);
                    }
                } else {
                    assert(gp.nbrs(a)[i] == gp.nbrs(a)[j]);
                    assert(has_parallel_edge(gp));
                }
            } else if n == b {
                if j == gp.nbrs(b).len() {
                    assert(gc.nbrs(b)[j] == a && gp.nbrs(b)[i] == gc.nbrs(b)[i]);
                    assert(gp.nbrs(b).contains(a)) by {
                        assert(gp.nbrs(b)[i] == a);
                    }
                } else {
                    assert(gp.nbrs(b)[i] == gp.nbrs(b)[j]);
                    assert(has_parallel_edge(gp));
                }
            } else {
                assert(gc.nbrs(n) == gp.nbrs(n));
                assert(has_parallel_edge(gp));
            }
            assert(false);
        }
    }
    // And no simple cycle forms.
    assert forall|c: Seq<usize>| !is_cycle(gc, c) by {
        lemma_add_edge_no_cycle(gp, gc, a, b, c);
    }
}

/// The cycle-shaped part of the edge-addition argument, for one candidate
/// cycle.
proof fn lemma_add_edge_no_cycle<G: UndirectedGraph + ?Sized>(
    gp: &G,
    gc: &G,
    a: usize,
    b: usize,
    c: Seq<usize>,
)
    requires
        graph_laws(gp),
        graph_laws(gc),
        a != b,
        !cyclic(gp),
        !connected(gp, a, b),
        forall|u: usize, v: usize|
            #[trigger] gc.nbrs(u).contains(v) && !((u == a && v == b) || (u == b && v == a))
                ==> gp.nbrs(u).contains(v),
    ensures
        !is_cycle(gc, c),
{
    if !is_cycle(gc, c) {
        return ;
    }
    let l = c.len() as int;
    let uses_new_inside = exists|i: int|
        0 <= i < l - 1 && (((#[trigger] c[i]) == a && c[i + 1] == b) || (c[i] == b && c[i + 1]
            == a));
    let uses_new_closing = (c[l - 1] == a && c[0] == b) || (c[l - 1] == b && c[0] == a);
    if !uses_new_inside && !uses_new_closing {
        // The whole cycle lives in the old graph.
        assert(is_cycle(gp, c)) by {
            assert forall|i: int| 0 <= i < l - 1 implies gp.nbrs(#[trigger] c[i]).contains(
                c[i + 1],
            ) by {
                assert(gc.nbrs(c[i]).contains(c[i + 1]));
            }
            assert(gc.nbrs(c.last()).contains(c[0]));
        }
        assert(cyclic(gp));
        assert(false);
    }
    // Rotate so the new edge is the closing step.
    let c2: Seq<usize> = if uses_new_inside {
        let i = choose|i: int|
            0 <= i < l - 1 && (((#[trigger] c[i]) == a && c[i + 1] == b) || (c[i] == b && c[i + 1]
                == a));
        c.skip(i + 1) + c.take(i + 1)
    } else {
        c
    };
    if uses_new_inside {
        let i = choose|i: int|
            0 <= i < l - 1 && (((#[trigger] c[i]) == a && c[i + 1] == b) || (c[i] == b && c[i + 1]
                == a));
        lemma_rotate_cycle(gc, c, i + 1);
        assert(c2[l - 1] == c[i] && c2[0] == c[i + 1]);
    }
    assert(is_cycle(gc, c2) && c2.len() == l);
    assert((c2[l - 1] == a && c2[0] == b) || (c2[l - 1] == b && c2[0] == a));
    // The cycle's entries are distinct, so the new pair cannot also appear
    // as an inner step.
    assert forall|i: int| 0 <= i < l - 1 implies gp.nbrs(#[trigger] c2[i]).contains(
        c2[i + 1],
    ) by {
        assert(gc.nbrs(c2[i]).contains(c2[i + 1]));
        if (c2[i] == a && c2[i + 1] == b) || (c2[i] == b && c2[i + 1] == a) {
            if c2[l - 1] == a {
                if c2[i] == a {
                    assert(i == l - 1);
                } else {
                    assert(c2[i + 1] == a && i + 1 == l - 1 && c2[i] == b && c2[0] == b);
                    assert(i == 0);
                    assert(l == 2);
                }
            } else {
                if c2[i] == b {
                    assert(i == l - 1);
                } else {
                    assert(c2[i + 1] == b && i + 1 == l - 1 && c2[i] == a && c2[0] == a);
                    assert(i == 0);
                    assert(l == 2);
                }
            }
            assert(false);
        }
    }
    // What remains of the cycle is a walk joining the new edge's endpoints
    // in the old graph.
    assert(is_path(gp, c2));
    if c2[0] == a {
        assert(c2.last() == b);
        assert(connected(gp, a, b));
    } else {
        assert(c2[0] == b && c2.last() == a);
        assert(connected(gp, b, a));
        lemma_connected_sym(gp, b, a);
    }
    assert(false);
}

/// Rotating a cycle keeps it a cycle; rotating by the index of a chosen
/// entry puts that entry first.
proof fn lemma_rotate_cycle<G: UndirectedGraph + ?Sized>(g: &G, c: Seq<usize>, r: int)
    requires
        graph_laws(g),
        is_cycle(g, c),
        0 <= r < c.len(),
    ensures
        is_cycle(g, c.skip(r) + c.take(r)),
        (c.skip(r) + c.take(r))[0] == c[r],
        (c.skip(r) + c.take(r)).len() == c.len(),
{
    let rot = c.skip(r) + c.take(r);
    let len = c.len() as int;
    assert forall|i: int| 0 <= i < len implies rot[i] == c[if i < len - r {
        i + r
    } else {
        i + r - len
    }] by {}
    assert forall|i: int, j: int| 0 <= i < j < rot.len() implies rot[i] != rot[j] by {}
    assert forall|i: int| 0 <= i < rot.len() - 1 implies g.nbrs(#[trigger] rot[i]).contains(
        rot[i + 1],
    ) by {
        if i < len - r - 1 {
            assert(rot[i] == c[i + r] && rot[i + 1] == c[i + r + 1]);
            assert(g.nbrs(c[i + r]).contains(c[i + r + 1]));
        } else if i == len - r - 1 {
            assert(rot[i] == c[len - 1] && rot[i + 1] == c[0]);
            assert(g.nbrs(c.last()).contains(c[0]));
        } else {
            assert(rot[i] == c[i + r - len] && rot[i + 1] == c[i + r - len + 1]);
            assert(g.nbrs(c[i + r - len]).contains(c[i + r - len + 1]));
        }
    }
    assert(g.nbrs(rot.last()).contains(rot[0])) by {
        if r == 0 {
            assert(rot.last() == c.last() && rot[0] == c[0]);
        } else {
            assert(rot.last() == c[r - 1] && rot[0] == c[r]);
            assert(g.nbrs(c[r - 1]).contains(c[r]));
        }
    }
}

/// Walking a cycle that starts at the search root, every node is marked and
/// each one's mark points one step back along the walk.
proof fn lemma_cycle_walk<G: UndirectedGraph + ?Sized>(
    g: &G,
    vis: Seq<Option<usize>>,
    c: Seq<usize>,
    k: int,
)
    requires
        graph_laws(g),
        vis.len() == g.node_limit(),
        is_cycle(g, c),
        c[0] < g.node_limit(),
        vis[c[0] as int] == Some(c[0]),
        finished_ok(g, vis, Seq::<usize>::empty()),
        1 <= k < c.len(),
    ensures
        c[k] < g.node_limit(),
        vis[c[k] as int].is_some(),
        vis[c[k] as int] == Some(c[k - 1]),
    decreases k,
{
    let prev: usize = c[k - 1];
    let cur: usize = c[k];
    assert(g.nbrs(prev).contains(cur));
    let i = choose|i: int| 0 <= i < g.nbrs(prev).len() && g.nbrs(prev)[i] == cur;
    assert(cur < g.node_limit() && cur != prev);
    if k == 1 {
        assert(vis[prev as int].is_some());
        assert(!Seq::<usize>::empty().contains(prev));
        assert(g.nbrs(prev)[i] == cur);
        assert(vis[cur as int].is_some() && (vis[prev as int] == Some(cur) || vis[cur as int]
            == Some(prev)));
        if vis[prev as int] == Some(cur) {
            assert(cur == c[0]);
            assert(false);
        }
    } else {
        lemma_cycle_walk(g, vis, c, k - 1);
        assert(vis[prev as int] == Some(c[k - 2]));
        assert(!Seq::<usize>::empty().contains(prev));
        assert(g.nbrs(prev)[i] == cur);
        assert(vis[cur as int].is_some() && (vis[prev as int] == Some(cur) || vis[cur as int]
            == Some(prev)));
        if vis[prev as int] == Some(cur) {
            assert(cur == c[k - 2]);
            assert(false);
        }
    }
}

/// After an exhausted search, no simple cycle can pass through the root:
/// walking such a cycle, every mark points backward, which the closing edge
/// contradicts.
proof fn lemma_exhausted_root_acyclic<G: UndirectedGraph + ?Sized>(
    g: &G,
    vis: Seq<Option<usize>>,
    root: usize,
)
    requires
        graph_laws(g),
        vis.len() == g.node_limit(),
        root < g.node_limit(),
        vis[root as int] == Some(root),
        finished_ok(g, vis, Seq::<usize>::empty()),
    ensures
        !cycle_through(g, root),
{
    assert forall|c0: Seq<usize>| !(is_cycle(g, c0) && c0.contains(root)) by {
        if is_cycle(g, c0) && c0.contains(root) {
            let r = choose|r: int| 0 <= r < c0.len() && c0[r] == root;
            lemma_rotate_cycle(g, c0, r);
            let c = c0.skip(r) + c0.take(r);
            let len = c.len() as int;
            assert(c[0] == root);
            lemma_cycle_walk(g, vis, c, len - 1);
            // The closing edge must also be a tree edge, but both of its
            // orientations are already taken.
            let last: usize = c[len - 1];
            assert(g.nbrs(last).contains(c[0]));
            let i = choose|i: int| 0 <= i < g.nbrs(last).len() && g.nbrs(last)[i] == c[0];
            assert(vis[last as int].is_some());
            assert(!Seq::<usize>::empty().contains(last));
            assert(g.nbrs(last)[i] == c[0]);
            assert(vis[last as int] == Some(c[0]) || vis[c[0] as int] == Some(last));
            assert(vis[last as int] == Some(c[len - 2]));
            assert(c[len - 2] != c[0] && last != root);
            assert(false);
        }
    }
}

/// How many nodes a visited table marks.
pub closed spec fn num_set(s: Seq<Option<usize>>) -> nat
    decreases s.len(),
{
    if s.len() == 0 {
        0
    } else {
        num_set(s.drop_last()) + (if s.last().is_some() {
            1nat
        } else {
            0nat
        })
    }
}

proof fn lemma_num_set_le(s: Seq<Option<usize>>)
    ensures
        num_set(s) <= s.len(),
    decreases s.len(),
{
    if s.len() > 0 {
        lemma_num_set_le(s.drop_last());
    }
}

proof fn lemma_num_set_update(s: Seq<Option<usize>>, i: int, v: usize)
    requires
        0 <= i < s.len(),
        s[i].is_none(),
    ensures
        num_set(s.update(i, Some(v))) == num_set(s) + 1,
    decreases s.len(),
{
    let t = s.update(i, Some(v));
    if i == s.len() - 1 {
        assert(t.drop_last() =~= s.drop_last());
    } else {
        assert(t.drop_last() =~= s.drop_last().update(i, Some(v)));
        lemma_num_set_update(s.drop_last(), i, v);
    }
}

/// Basic sanity of a visited table: marked nodes (other than the root,
/// which marks itself) point at an in-range marked parent.
pub open spec fn vis_ok<G: UndirectedGraph + ?Sized>(
    g: &G,
    vis: Seq<Option<usize>>,
    root: usize,
) -> bool {
    &&& vis.len() == g.node_limit()
    &&& root < g.node_limit()
    &&& vis[root as int].is_some() ==> vis[root as int] == Some(root)
    &&& forall|v: int|
        0 <= v < vis.len() && (#[trigger] vis[v]).is_some() && v != root ==> {
            let p = vis[v].unwrap();
            p < vis.len() && vis[p as int].is_some()
        }
}

/// The active ancestor chain of the search: each entry is marked with the
/// next as its parent, the chain ends at the root, entries are distinct,
/// and consecutive entries are neighbors.
pub open spec fn stack_ok<G: UndirectedGraph + ?Sized>(
    g: &G,
    vis: Seq<Option<usize>>,
    root: usize,
    stack: Seq<usize>,
) -> bool {
    &&& stack.len() > 0 ==> stack.last() == root && vis[root as int] == Some(root)
    &&& forall|i: int|
        0 <= i < stack.len() ==> (#[trigger] stack[i]) < vis.len() && vis[stack[i] as int].is_some()
    &&& forall|i: int|
        0 <= i < stack.len() - 1 ==> vis[(#[trigger] stack[i]) as int] == Some(stack[i + 1])
    &&& forall|i: int, j: int| 0 <= i < j < stack.len() ==> stack[i] != stack[j]
    &&& forall|i: int|
        0 <= i < stack.len() - 1 ==> g.nbrs(#[trigger] stack[i + 1]).contains(stack[i])
}

/// Nodes the search has finished (marked but no longer active) have every
/// neighbor marked, and only by a tree edge: either the neighbor is the
/// node's parent, or the node is the neighbor's parent.
pub open spec fn finished_ok<G: UndirectedGraph + ?Sized>(
    g: &G,
    vis: Seq<Option<usize>>,
    active: Seq<usize>,
) -> bool {
    forall|v: usize, k: int|
        v < vis.len() && (#[trigger] vis[v as int]).is_some() && !active.contains(v) && 0 <= k
            < g.nbrs(v).len() ==> {
            let w = #[trigger] g.nbrs(v)[k];
            &&& w < vis.len()
            &&& vis[w as int].is_some()
            &&& (vis[v as int] == Some(w) || vis[w as int] == Some(v))
        }
}

/// The parent chain a detection leaves behind: from the detection point
/// `end` back to `root`, with distinct entries, consecutive neighbors, and
/// either a closing edge from `end` to a later chain entry or a parallel
/// edge somewhere in the graph.
pub open spec fn found_ok<G: UndirectedGraph + ?Sized>(
    g: &G,
    vis: Seq<Option<usize>>,
    root: usize,
    end: usize,
    chain: Seq<usize>,
) -> bool {
    &&& chain.len() >= 1
    &&& chain[0] == end
    &&& chain.last() == root
    &&& forall|i: int|
        0 <= i < chain.len() ==> (#[trigger] chain[i]) < vis.len() && vis[chain[i] as int].is_some()
    &&& forall|i: int|
        0 <= i < chain.len() - 1 ==> vis[(#[trigger] chain[i]) as int] == Some(chain[i + 1])
    &&& forall|i: int, j: int| 0 <= i < j < chain.len() ==> chain[i] != chain[j]
    &&& forall|i: int|
        0 <= i < chain.len() - 1 ==> g.nbrs(#[trigger] chain[i + 1]).contains(chain[i])
    &&& (has_parallel_edge(g) || exists|k: int|
        2 <= k < chain.len() && g.nbrs(chain[0]).contains(#[trigger] chain[k]))
}

/// A revisit seen from `current` at neighbor entry `k` really witnesses a
/// cycle: the revisited node is an active ancestor (closing a simple cycle
/// through the ancestor chain) or a finished child of `current` reached by a
/// parallel edge.
proof fn lemma_detect<G: UndirectedGraph + ?Sized>(
    g: &G,
    vis: Seq<Option<usize>>,
    root: usize,
    stack: Seq<usize>,
    active: Seq<usize>,
    current: usize,
    parent: Option<usize>,
    parent_val: usize,
    k: int,
    w: usize,
)
    requires
        graph_laws(g),
        vis.len() == g.node_limit(),
        current < g.node_limit(),
        active == seq![current] + stack,
        stack_ok(g, vis, root, active),
        finished_ok(g, vis, active),
        vis[current as int] == Some(parent_val),
        parent_val == (if parent is Some {
            parent.unwrap()
        } else {
            current
        }),
        stack.len() == 0 ==> current == root && parent is None,
        stack.len() > 0 ==> parent == Some(stack[0]),
        0 <= k < g.nbrs(current).len(),
        g.nbrs(current)[k] == w,
        vis[w as int].is_some(),
        parent is Some ==> w != parent.unwrap(),
        forall|v: int|
            0 <= v < g.node_limit() && v != current && #[trigger] vis[v] == Some(current)
                ==> g.nbrs(current).take(k).contains(v as usize),
    ensures
        cyclic(g),
        found_ok(g, vis, root, current, active),
{
    assert(w < g.node_limit() && w != current);
    assert(g.nbrs(current).contains(w)) by {
        assert(g.nbrs(current)[k] == w);
    }
    assert(g.nbrs(w).contains(current));
    if active.contains(w) {
        let j = choose|j: int| 0 <= j < active.len() && active[j] == w;
        assert(j != 0);
        if j == 1 {
            assert(active[1] == stack[0]);
            assert(parent == Some(stack[0]));
            assert(false);
        }
        let c = active.take(j + 1);
        assert(is_cycle(g, c)) by {
            assert(c.len() >= 3);
            assert forall|x: int, y: int| 0 <= x < y < c.len() implies c[x] != c[y] by {
                assert(c[x] == active[x] && c[y] == active[y]);
            }
            assert forall|i: int| 0 <= i < c.len() - 1 implies g.nbrs(#[trigger] c[i]).contains(
                c[i + 1],
            ) by {
                assert(active[i] == c[i] && active[i + 1] == c[i + 1]);
                assert(g.nbrs(active[i + 1]).contains(active[i]));
                assert(g.nbrs(active[i]).contains(active[i + 1]));
            }
            assert(c.last() == w);
            assert(g.nbrs(c.last()).contains(c[0]));
        }
        assert(cyclic(g));
    } else {
        // A finished revisit: `w` must be a child of `current`, so this
        // neighbor entry repeats an earlier one.
        assert(vis[w as int] == Some(current) || vis[current as int] == Some(w)) by {
            assert(g.nbrs(w).contains(current));
            let i = choose|i: int| 0 <= i < g.nbrs(w).len() && g.nbrs(w)[i] == current;
            assert(g.nbrs(w)[i] == current);
        }
        if vis[current as int] == Some(w) {
            assert(parent_val == w);
            assert(parent is Some);
            assert(false);
        }
        assert(g.nbrs(current).take(k).contains(w));
        let i = choose|i: int| 0 <= i < k && g.nbrs(current).take(k)[i] == w;
        assert(g.nbrs(current)[i] == w && g.nbrs(current)[k] == w);
        assert(has_parallel_edge(g));
    }
    assert(found_ok(g, vis, root, current, active)) by {
        if active.contains(w) {
            let j = choose|j: int| 0 <= j < active.len() && active[j] == w;
            assert(j != 0 && j != 1);
            assert(2 <= j < active.len() && g.nbrs(active[0]).contains(#[trigger] active[j]));
        }
    }
}

/// When the scan of `current`'s neighbors ends without a detection, the
/// whole finished region, now including `current`, is tree-edged.
proof fn lemma_finish<G: UndirectedGraph + ?Sized>(
    g: &G,
    vis: Seq<Option<usize>>,
    root: usize,
    stack: Seq<usize>,
    active: Seq<usize>,
    current: usize,
    parent: Option<usize>,
    parent_val: usize,
)
    requires
        graph_laws(g),
        vis.len() == g.node_limit(),
        current < g.node_limit(),
        active == seq![current] + stack,
        stack_ok(g, vis, root, active),
        finished_ok(g, vis, active),
        vis[current as int] == Some(parent_val),
        parent_val == (if parent is Some {
            parent.unwrap()
        } else {
            current
        }),
        forall|k2: int|
            0 <= k2 < g.nbrs(current).len() ==> {
                let u = #[trigger] g.nbrs(current)[k2];
                &&& vis[u as int].is_some()
                &&& (parent == Some(u) || vis[u as int] == Some(current))
            },
    ensures
        finished_ok(g, vis, stack),
{
    assert forall|v: usize, k2: int|
        v < vis.len() && (#[trigger] vis[v as int]).is_some() && !stack.contains(v) && 0 <= k2
            < g.nbrs(v).len() implies {
        let w = #[trigger] g.nbrs(v)[k2];
        &&& w < vis.len()
        &&& vis[w as int].is_some()
        &&& (vis[v as int] == Some(w) || vis[w as int] == Some(v))
    } by {
        if v == current {
            let u = g.nbrs(current)[k2];
            assert(u < g.node_limit());
            if parent == Some(u) {
                assert(vis[current as int] == Some(parent_val) && parent_val == u);
            } else {
                assert(vis[u as int] == Some(current));
            }
        } else {
            assert(!active.contains(v)) by {
                if active.contains(v) {
                    let i = choose|i: int| 0 <= i < active.len() && active[i] == v;
                    assert(active[0] == current);
                    assert(i != 0);
                    assert(stack[i - 1] == v);
                }
            }
        }
    }
}

/// After a child call returns without a detection, the scan invariants of
/// `current` still hold: the ancestor chain is untouched, the child is
/// recorded at its neighbor entry, and every new mark hangs below nodes that
/// were unmarked when the scan began.
proof fn lemma_after_child<G: UndirectedGraph + ?Sized>(
    g: &G,
    entry_vis: Seq<Option<usize>>,
    pre: Seq<Option<usize>>,
    vis: Seq<Option<usize>>,
    root: usize,
    stack: Seq<usize>,
    active: Seq<usize>,
    current: usize,
    k: int,
    w: usize,
)
    requires
        graph_laws(g),
        entry_vis.len() == g.node_limit(),
        pre.len() == g.node_limit(),
        vis.len() == g.node_limit(),
        current < g.node_limit(),
        active == seq![current] + stack,
        0 <= k < g.nbrs(current).len(),
        g.nbrs(current)[k] == w,
        stack_ok(g, pre, root, active),
        entry_vis[current as int].is_none(),
        pre[current as int].is_some(),
        forall|v: int|
            0 <= v < g.node_limit() && entry_vis[v].is_some() ==> pre[v] == entry_vis[v],
        forall|v: int|
            0 <= v < g.node_limit() && v != current && #[trigger] pre[v] == Some(current)
                ==> g.nbrs(current).take(k).contains(v as usize),
        forall|v: int|
            0 <= v < g.node_limit() && entry_vis[v].is_none() && pre[v].is_some() && v != current
                ==> entry_vis[(#[trigger] pre[v]).unwrap() as int].is_none(),
        pre[w as int].is_none(),
        vis_ok(g, vis, root),
        forall|v: int| 0 <= v < g.node_limit() && pre[v].is_some() ==> vis[v] == pre[v],
        vis[w as int] == Some(current),
        forall|v: int|
            0 <= v < g.node_limit() && pre[v].is_none() && vis[v].is_some() && v != w ==> pre[(
            #[trigger] vis[v]).unwrap() as int].is_none(),
    ensures
        stack_ok(g, vis, root, active),
        forall|v: int|
            0 <= v < g.node_limit() && v != current && #[trigger] vis[v] == Some(current)
                ==> g.nbrs(current).take(k + 1).contains(v as usize),
        forall|v: int|
            0 <= v < g.node_limit() && entry_vis[v].is_none() && vis[v].is_some() && v != current
                ==> entry_vis[(#[trigger] vis[v]).unwrap() as int].is_none(),
{
    assert(stack_ok(g, vis, root, active)) by {
        assert forall|i: int| 0 <= i < active.len() implies (#[trigger] active[i]) < vis.len()
            && vis[active[i] as int] == pre[active[i] as int] by {
            assert(pre[active[i] as int].is_some());
        }
    }
    assert forall|v: int|
        0 <= v < g.node_limit() && v != current && #[trigger] vis[v] == Some(
            current,
        ) implies g.nbrs(current).take(k + 1).contains(v as usize) by {
        if pre[v].is_some() {
            assert(vis[v] == pre[v]);
            assert(g.nbrs(current).take(k).contains(v as usize));
            let i = choose|i: int| 0 <= i < k && g.nbrs(current).take(k)[i] == v as usize;
            assert(g.nbrs(current).take(k + 1)[i] == v as usize);
        } else {
            if v != w {
                assert(pre[(vis[v]).unwrap() as int].is_none());
                assert(pre[current as int].is_some());
                assert(false);
            }
            assert(g.nbrs(current).take(k + 1)[k] == w);
        }
    }
    assert forall|v: int|
        0 <= v < g.node_limit() && entry_vis[v].is_none() && vis[v].is_some() && v
            != current implies entry_vis[(#[trigger] vis[v]).unwrap() as int].is_none() by {
        if pre[v].is_some() {
            assert(vis[v] == pre[v]);
        } else {
            if v == w {
                assert(vis[v] == Some(current));
            } else if v == root {
                assert(vis[root as int] == Some(root));
            } else {
                let p = (vis[v]).unwrap() as int;
                assert(0 <= p < g.node_limit());
                assert(pre[p].is_none());
                if entry_vis[p].is_some() {
                    assert(pre[p] == entry_vis[p]);
                }
            }
        }
    }
}

/// Recursively searches the graph, marking each node with the parent that
/// discovered it. Returns the node at which a revisit was detected, or
/// `None` when the search exhausts without one. Sound: a detection implies
/// the graph is cyclic.
#[verifier::rlimit(60)]
fn dfs<G: UndirectedGraph>(
    g: &G,
    current: usize,
    parent: Option<usize>,
    visited: &mut Vec<Option<usize>>,
    Ghost(root): Ghost<usize>,
    Ghost(stack): Ghost<Seq<usize>>,
) -> (r: (Option<usize>, Ghost<Seq<usize>>))
    requires
        g.valid(),
        graph_laws(g),
        old(visited)@.len() == g.node_limit(),
        current < g.node_limit(),
        old(visited)@[current as int].is_none(),
        vis_ok(g, old(visited)@, root),
        stack_ok(g, old(visited)@, root, stack),
        finished_ok(g, old(visited)@, stack),
        stack.len() == 0 ==> current == root && parent is None,
        stack.len() > 0 ==> parent == Some(stack[0]) && g.nbrs(stack[0]).contains(current),
    ensures
        final(visited)@.len() == g.node_limit(),
        forall|v: int|
            0 <= v < g.node_limit() && old(visited)@[v].is_some()
                ==> final(visited)@[v] == old(visited)@[v],
        final(visited)@[current as int] == Some(
            if parent is Some {
                parent.unwrap()
            } else {
                current
            },
        ),
        vis_ok(g, final(visited)@, root),
        num_set(final(visited)@) >= num_set(old(visited)@) + 1,
        r.0 is None ==> {
            &&& forall|k: int|
                0 <= k < g.nbrs(current).len() ==> final(visited)@[(
                #[trigger] g.nbrs(current)[k]) as int].is_some()
            &&& finished_ok(g, final(visited)@, stack)
            &&& forall|v: int|
                0 <= v < g.node_limit() && old(visited)@[v].is_none()
                    && final(visited)@[v].is_some() && v != current
                    ==> old(visited)@[(#[trigger] final(visited)@[v]).unwrap() as int].is_none()
        },
        r.0 is Some ==> cyclic(g),
        r.0 is Some ==> found_ok(g, final(visited)@, root, r.0.unwrap(), r.1@),
    decreases g.node_limit() - num_set(old(visited)@),
{
    let parent_val: usize = match parent {
        Some(p) => p,
        None => current,
    };
    proof {
        lemma_num_set_update(visited@, current as int, parent_val);
        lemma_num_set_le(visited@);
    }
    visited[current] = Some(parent_val);
    let ghost active: Seq<usize> = seq![current] + stack;
    let nbrs = g.neighbors(current);
    proof {
        assert(active.last() == root);
        assert(vis_ok(g, visited@, root));
        assert(stack_ok(g, visited@, root, active)) by {
            assert(forall|i: int|
                0 <= i < stack.len() ==> active[i + 1] == #[trigger] stack[i]);
        }
        assert(finished_ok(g, visited@, active)) by {
            assert forall|v: usize|
                v < visited@.len() && (#[trigger] visited@[v as int]).is_some() && !active.contains(
                    v,
                ) implies visited@[v as int] == old(visited)@[v as int] && !stack.contains(v) by {
                assert(v != current);
                if stack.contains(v) {
                    let i = choose|i: int| 0 <= i < stack.len() && stack[i] == v;
                    assert(active[i + 1] == v);
                }
            }
        }
        assert forall|v: int|
            0 <= v < visited@.len() && v != current && #[trigger] visited@[v] == Some(
                current,
            ) implies false by {
            assert(old(visited)@[v] == Some(current));
            if v == root {
                assert(old(visited)@[root as int] == Some(root));
                assert(current == root);
            } else {
                assert(old(visited)@[current as int].is_some());
            }
        }
    }
    let mut k: usize = 0;
    while k < nbrs.len()
        invariant
            g.valid(),
            graph_laws(g),
            current < g.node_limit(),
            nbrs@ == g.nbrs(current),
            active == seq![current] + stack,
            old(visited)@.len() == g.node_limit(),
            old(visited)@[current as int].is_none(),
            stack.len() == 0 ==> current == root && parent is None,
            stack.len() > 0 ==> parent == Some(stack[0]) && g.nbrs(stack[0]).contains(current),
            parent_val == (if parent is Some {
                parent.unwrap()
            } else {
                current
            }),
            visited@.len() == g.node_limit(),
            k <= nbrs@.len(),
            forall|v: int|
                0 <= v < g.node_limit() && old(visited)@[v].is_some() ==> visited@[v] == old(
                    visited,
                )@[v],
            visited@[current as int] == Some(parent_val),
            vis_ok(g, visited@, root),
            stack_ok(g, visited@, root, active),
            finished_ok(g, visited@, active),
            num_set(visited@) >= num_set(old(visited)@) + 1,
            forall|v: int|
                0 <= v < g.node_limit() && v != current && #[trigger] visited@[v] == Some(current)
                    ==> g.nbrs(current).take(k as int).contains(v as usize),
            forall|k2: int|
                0 <= k2 < k ==> {
                    let u = #[trigger] nbrs@[k2];
                    &&& visited@[u as int].is_some()
                    &&& (parent == Some(u) || visited@[u as int] == Some(current))
                },
            forall|v: int|
                0 <= v < g.node_limit() && old(visited)@[v].is_none() && visited@[v].is_some() && v
                    != current ==> old(visited)@[(#[trigger] visited@[v]).unwrap() as int].is_none(),
        decreases nbrs@.len() - k,
    {
        let w = nbrs[k];
        assert(w < g.node_limit() && w != current);
        let skip = match parent {
            Some(p) => w == p,
            None => false,
        };
        if !skip {
            if visited[w].is_some() {
                proof {
                    lemma_detect(
                        g,
                        visited@,
                        root,
                        stack,
                        active,
                        current,
                        parent,
                        parent_val,
                        k as int,
                        w,
                    );
                    assert(found_ok(g, visited@, root, current, active));
                }
                return (Some(current), Ghost(active));
            }
            let ghost vis_before = visited@;
            proof {
                lemma_num_set_le(visited@);
                assert(g.nbrs(current).contains(w)) by {
                    assert(g.nbrs(current)[k as int] == w);
                }
            }
            let res = dfs(g, w, Some(current), visited, Ghost(root), Ghost(active));
            proof {
                assert forall|v: int|
                    0 <= v < g.node_limit() && old(visited)@[v].is_some() implies visited@[v]
                    == old(visited)@[v] by {
                    assert(vis_before[v] == old(visited)@[v]);
                }
            }
            if res.0.is_some() {
                return res;
            }
            proof {
                lemma_after_child(
                    g,
                    old(visited)@,
                    vis_before,
                    visited@,
                    root,
                    stack,
                    active,
                    current,
                    k as int,
                    w,
                );
            }
        }
        proof {
            let u = nbrs@[k as int];
            if skip {
                assert(parent == Some(u));
                assert(stack.contains(u)) by {
                    assert(stack[0] == u);
                }
                assert(visited@[u as int].is_some());
            }
        }
        k = k + 1;
    }
    proof {
        lemma_finish(g, visited@, root, stack, active, current, parent, parent_val);
    }
    (None, Ghost(Seq::empty()))
}

/// Searches from `root` to detect whether a cycle occurs in the graph.
/// Sound: a positive answer means the graph really is cyclic.
pub fn has_cycle<G: UndirectedGraph>(g: &G, root: usize) -> (r: bool)
    requires
        g.valid(),
        graph_laws(g),
        root < g.node_limit(),
    ensures
        r ==> cyclic(g),
        !r ==> !cycle_through(g, root),
{
    let n = g.node_count();
    let mut visited: Vec<Option<usize>> = vec![None; n];
    let (res, _chain) = dfs(g, root, None, &mut visited, Ghost(root), Ghost(Seq::empty()));
    proof {
        if res is None {
            lemma_exhausted_root_acyclic(g, visited@, root);
        }
    }
    res.is_some()
}

/// Searches from `root` and, when a revisit is detected, retraces discovery
/// parents from the detection point back to `root`.
///
/// A returned list is never empty, ends at `root`, repeats no node, and
/// every consecutive pair are graph neighbors; moreover the graph then
/// really contains a cycle: either some prefix of the list closes into one,
/// or two fences connect the same pair of posts. No shortest-cycle guarantee
/// is made, and the list is `None` when the search exhausts without a
/// revisit.
pub fn get_cycle<G: UndirectedGraph>(g: &G, root: usize) -> (r: Option<Vec<usize>>)
    requires
        g.valid(),
        graph_laws(g),
        root < g.node_limit(),
    ensures
        r is Some ==> cyclic(g),
        r is None ==> !cycle_through(g, root),
        r matches Some(path) ==> {
            &&& path@.len() >= 1
            &&& path@.last() == root
            &&& forall|i: int, j: int| 0 <= i < j < path@.len() ==> path@[i] != path@[j]
            &&& forall|i: int|
                0 <= i < path@.len() - 1 ==> g.nbrs(#[trigger] path@[i + 1]).contains(path@[i])
            &&& (has_parallel_edge(g) || exists|k: int|
                2 <= k < path@.len() && g.nbrs(path@[0]).contains(#[trigger] path@[k]))
        },
{
    let n = g.node_count();
    let mut visited: Vec<Option<usize>> = vec![None; n];
    let (res, chain_g) = dfs(g, root, None, &mut visited, Ghost(root), Ghost(Seq::empty()));
    let end = match res {
        None => {
            proof {
                lemma_exhausted_root_acyclic(g, visited@, root);
            }
            return None;
        },
        Some(end) => end,
    };
    let ghost chain = chain_g@;
    assert(found_ok(g, visited@, root, end, chain));
    // Retrace discovery parents from the detection point back to the root.
    let mut nodes: Vec<usize> = Vec::new();
    nodes.push(end);
    let mut cur = end;
    let ghost mut idx: int = 0;
    while cur != root
        invariant
            0 <= idx < chain.len(),
            cur == chain[idx],
            nodes@ == chain.take(idx + 1),
            found_ok(g, visited@, root, end, chain),
            visited@.len() == g.node_limit(),
            g.node_limit() <= usize::MAX,
        decreases chain.len() - idx,
    {
        proof {
            if idx == chain.len() - 1 {
                assert(chain.last() == root);
                assert(false);
            }
            assert(cur < visited@.len());
        }
        let par = match &visited[cur] {
            Some(p) => *p,
            None => unreached(),
        };
        proof {
            assert(visited@[chain[idx] as int] == Some(chain[idx + 1]));
            assert(par == chain[idx + 1]);
        }
        nodes.push(par);
        cur = par;
        proof {
            idx = idx + 1;
            assert(nodes@ =~= chain.take(idx + 1));
        }
    }
    proof {
        if idx != chain.len() - 1 {
            assert(chain[chain.len() - 1] == root);
            assert(chain[idx] == root);
            assert(false);
        }
        assert(nodes@ =~= chain);
        if !has_parallel_edge(g) {
            let k = choose|k: int|
                2 <= k < chain.len() && g.nbrs(chain[0]).contains(#[trigger] chain[k]);
            assert(g.nbrs(nodes@[0]).contains(nodes@[k]));
            assert(exists|k2: int|
                2 <= k2 < nodes@.len() && g.nbrs(nodes@[0]).contains(#[trigger] nodes@[k2]));
        }
    }
    Some(nodes)
}

} // verus!
