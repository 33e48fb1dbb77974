//! The graph store: flat arenas of posts and fences keyed by stable opaque
//! handles. A fence always connects two distinct live posts, and each post
//! keeps the list of its incident fences in insertion order, so neighbor
//! traversal is deterministic. Handles are never reused; a removed slot stays
//! empty, and queries against a removed handle yield nothing.

use vstd::prelude::*;

verus! {

/// Stable handle of a post.
pub type PostId = usize;

/// Stable handle of a fence.
pub type FenceId = usize;

/// Errors the graph store reports.
#[derive(Clone, Copy, PartialEq, Eq, Structural, Debug)]
pub enum GraphError {
    /// A fence was requested between a post and itself, or with an unknown
    /// endpoint.
    InvalidEndpoints,
}

/// A post: a node of the graph, holding its incident fences in insertion
/// order, without duplicates.
pub struct PostNode {
    pub fences: Vec<FenceId>,
}

/// A fence: an edge of the graph, an ordered pair of two distinct posts.
pub struct FenceNode {
    pub a: PostId,
    pub b: PostId,
}

/// Arena-based store of posts and fences.
pub struct GraphStore {
    pub posts: Vec<Option<PostNode>>,
    pub fences: Vec<Option<FenceNode>>,
}

/// Removes the first occurrence of `x` from `list` and returns its index.
fn remove_value(list: &mut Vec<FenceId>, x: FenceId) -> (i: usize)
    requires
        old(list)@.contains(x),
    ensures
        i < old(list)@.len(),
        old(list)@[i as int] == x,
        final(list)@ == old(list)@.remove(i as int),
{
    let mut i: usize = 0;
    let n = list.len();
    while list[i] != x
        invariant
            n == list@.len(),
            i < list@.len(),
            exists|j: int| i <= j < list@.len() && list@[j] == x,
        decreases list@.len() - i,
    {
        i = i + 1;
        proof {
            let j = choose|j: int| i - 1 <= j < list@.len() && list@[j] == x;
            assert(i <= j < list@.len() && list@[j] == x);
        }
    }
    list.remove(i);
    i
}

/// An element other than the removed one is still present after `remove`.
proof fn lemma_remove_keeps(s: Seq<FenceId>, i: int, g: FenceId)
    requires
        0 <= i < s.len(),
        s.contains(g),
        s[i] != g,
    ensures
        s.remove(i).contains(g),
{
    let j = choose|j: int| 0 <= j < s.len() && s[j] == g;
    if j < i {
        assert(s.remove(i)[j] == g);
    } else {
        assert(s.remove(i)[j - 1] == g);
    }
}

/// Every element of `remove`'s result comes from the original sequence.
proof fn lemma_remove_entry_from(s: Seq<FenceId>, i: int, k: int)
    requires
        0 <= i < s.len(),
        0 <= k < s.remove(i).len(),
    ensures
        s.contains(s.remove(i)[k]),
{
    if k < i {
        assert(s.remove(i)[k] == s[k]);
    } else {
        assert(s.remove(i)[k] == s[k + 1]);
    }
}

/// In a duplicate-free sequence, removing index `i` removes every occurrence
/// of that value.
proof fn lemma_remove_no_f(s: Seq<FenceId>, i: int, k: int)
    requires
        0 <= i < s.len(),
        0 <= k < s.remove(i).len(),
        forall|x: int, y: int| 0 <= x < y < s.len() ==> s[x] != s[y],
    ensures
        s.remove(i)[k] != s[i],
{
    if k < i {
        assert(s.remove(i)[k] == s[k]);
    } else {
        assert(s.remove(i)[k] == s[k + 1]);
    }
}

/// In a duplicate-free sequence, membership after a removal is membership
/// before it, minus the removed value.
pub(crate) proof fn lemma_remove_contains(s: Seq<FenceId>, i: int, g: FenceId)
    requires
        0 <= i < s.len(),
        forall|x: int, y: int| 0 <= x < y < s.len() ==> s[x] != s[y],
    ensures
        s.remove(i).contains(g) <==> (s.contains(g) && g != s[i]),
{
    if s.contains(g) && g != s[i] {
        lemma_remove_keeps(s, i, g);
    }
    if s.remove(i).contains(g) {
        let k = choose|k: int| 0 <= k < s.remove(i).len() && s.remove(i)[k] == g;
        lemma_remove_entry_from(s, i, k);
        lemma_remove_no_f(s, i, k);
    }
}

/// Removal keeps a duplicate-free sequence duplicate-free.
proof fn lemma_remove_nodup(s: Seq<FenceId>, i: int, k: int, l: int)
    requires
        0 <= i < s.len(),
        0 <= k < l < s.remove(i).len(),
        forall|x: int, y: int| 0 <= x < y < s.len() ==> s[x] != s[y],
    ensures
        s.remove(i)[k] != s.remove(i)[l],
{
    if k < i {
        assert(s.remove(i)[k] == s[k]);
    } else {
        assert(s.remove(i)[k] == s[k + 1]);
    }
    if l < i {
        assert(s.remove(i)[l] == s[l]);
    } else {
        assert(s.remove(i)[l] == s[l + 1]);
    }
}

impl GraphStore {
    /// `p` is the handle of a live post.
    pub open spec fn post_live(&self, p: PostId) -> bool {
        p < self.posts@.len() && self.posts@[p as int].is_some()
    }

    /// `f` is the handle of a live fence.
    pub open spec fn fence_live(&self, f: FenceId) -> bool {
        f < self.fences@.len() && self.fences@[f as int].is_some()
    }

    /// First endpoint of fence `f`.
    pub open spec fn end_a(&self, f: FenceId) -> PostId {
        self.fences@[f as int].unwrap().a
    }

    /// Second endpoint of fence `f`.
    pub open spec fn end_b(&self, f: FenceId) -> PostId {
        self.fences@[f as int].unwrap().b
    }

    /// The incident-fence list of post `p`, in insertion order; empty for a
    /// dead or unknown handle.
    pub open spec fn incident(&self, p: PostId) -> Seq<FenceId> {
        if self.post_live(p) {
            self.posts@[p as int].unwrap().fences@
        } else {
            Seq::empty()
        }
    }

    /// Fence `f` has `p` as one of its endpoints.
    pub open spec fn touches(&self, f: FenceId, p: PostId) -> bool {
        self.end_a(f) == p || self.end_b(f) == p
    }

    /// The endpoint of fence `f` that is not `p`.
    pub open spec fn other_end(&self, f: FenceId, p: PostId) -> PostId {
        if self.end_a(f) == p {
            self.end_b(f)
        } else {
            self.end_a(f)
        }
    }

    /// The neighbor sequence of post `p`: for each incident fence in
    /// insertion order, the endpoint that is not `p`.
    pub open spec fn neighbors_of(&self, p: PostId) -> Seq<PostId> {
        self.incident(p).map_values(|f: FenceId| self.other_end(f, p))
    }

    /// A live fence is sound: endpoints live, distinct, and both endpoint
    /// posts list the fence as incident.
    pub open spec fn fence_ok(&self, f: FenceId) -> bool {
        &&& self.post_live(self.end_a(f))
        &&& self.post_live(self.end_b(f))
        &&& self.end_a(f) != self.end_b(f)
        &&& self.incident(self.end_a(f)).contains(f)
        &&& self.incident(self.end_b(f)).contains(f)
    }

    /// Structural invariant of the store: fences and incident lists agree in
    /// both directions, and incident lists never repeat a fence.
    pub open spec fn wf(&self) -> bool {
        &&& forall|f: FenceId| #[trigger] self.fence_live(f) ==> self.fence_ok(f)
        &&& forall|p: PostId, i: int|
            self.post_live(p) && 0 <= i < self.incident(p).len() ==> {
                let f = #[trigger] self.incident(p)[i];
                self.fence_live(f) && self.touches(f, p)
            }
        &&& forall|p: PostId, i: int, j: int|
            self.post_live(p) && 0 <= i < j < self.incident(p).len()
                ==> #[trigger] self.incident(p)[i] != #[trigger] self.incident(p)[j]
    }

    /// An empty store.
    pub fn new() -> (g: GraphStore)
        ensures
            g.wf(),
            g.posts@.len() == 0,
            g.fences@.len() == 0,
    {
        GraphStore { posts: Vec::new(), fences: Vec::new() }
    }

    /// Whether `p` is a live post.
    pub fn has_post(&self, p: PostId) -> (r: bool)
        ensures
            r == self.post_live(p),
    {
        p < self.posts.len() && self.posts[p].is_some()
    }

    /// The number of fences incident to a live post.
    pub fn post_degree(&self, p: PostId) -> (r: usize)
        requires
            self.post_live(p),
        ensures
            r == self.incident(p).len(),
    {
        match &self.posts[p] {
            Some(node) => node.fences.len(),
            None => unreached(),
        }
    }

    /// Whether `f` is a live fence.
    pub fn has_fence(&self, f: FenceId) -> (r: bool)
        ensures
            r == self.fence_live(f),
    {
        f < self.fences.len() && self.fences[f].is_some()
    }

    /// The endpoints of a live fence.
    pub fn endpoints(&self, f: FenceId) -> (r: (PostId, PostId))
        requires
            self.fence_live(f),
        ensures
            r.0 == self.end_a(f),
            r.1 == self.end_b(f),
    {
        match &self.fences[f] {
            Some(node) => (node.a, node.b),
            None => unreached(),
        }
    }

    /// Allocates a new post with no incident fences.
    pub fn create_post(&mut self) -> (p: PostId)
        requires
            old(self).wf(),
            old(self).posts@.len() < usize::MAX,
        ensures
            final(self).wf(),
            p == old(self).posts@.len(),
            final(self).posts@.len() == old(self).posts@.len() + 1,
            final(self).fences@ == old(self).fences@,
            final(self).post_live(p),
            final(self).incident(p) =~= Seq::<FenceId>::empty(),
            !old(self).post_live(p),
            forall|q: PostId| q != p
                ==> #[trigger] final(self).post_live(q) == old(self).post_live(q),
            forall|q: PostId| q != p
                ==> #[trigger] final(self).incident(q) == old(self).incident(q),
            forall|q: PostId| q != p
                ==> #[trigger] final(self).neighbors_of(q) == old(self).neighbors_of(q),
    {
        let p = self.posts.len();
        self.posts.push(Some(PostNode { fences: Vec::new() }));
        proof {
            assert forall|q: PostId| q != p implies #[trigger] self.incident(q) == old(
                self,
            ).incident(q) by {
                if q < p {
                    assert(self.posts@[q as int] == old(self).posts@[q as int]);
                }
            }
            assert forall|q: PostId| q != p implies #[trigger] self.neighbors_of(q) == old(
                self,
            ).neighbors_of(q) by {
                assert(self.neighbors_of(q) =~= old(self).neighbors_of(q));
            }
            assert forall|f: FenceId| #[trigger] self.fence_live(f) implies self.fence_ok(f) by {
                assert(old(self).fence_live(f));
                assert(self.incident(self.end_a(f)) == old(self).incident(self.end_a(f)));
                assert(self.incident(self.end_b(f)) == old(self).incident(self.end_b(f)));
            }
        }
        p
    }

    /// Creates a fence between two distinct live posts, appending it to both
    /// posts' incident lists; rejects anything else.
    pub fn create_fence(&mut self, a: PostId, b: PostId) -> (r: Result<FenceId, GraphError>)
        requires
            old(self).wf(),
            old(self).fences@.len() < usize::MAX,
        ensures
            final(self).wf(),
            r is Ok <==> (a != b && old(self).post_live(a) && old(self).post_live(b)),
            r is Err ==> *final(self) == *old(self) && r == Result::<FenceId, GraphError>::Err(
                GraphError::InvalidEndpoints,
            ),
            r matches Ok(f) ==> {
                &&& f == old(self).fences@.len()
                &&& !old(self).fence_live(f)
                &&& final(self).fence_live(f)
                &&& final(self).end_a(f) == a
                &&& final(self).end_b(f) == b
                &&& final(self).fences@.len() == old(self).fences@.len() + 1
                &&& final(self).posts@.len() == old(self).posts@.len()
                &&& final(self).incident(a) == old(self).incident(a).push(f)
                &&& final(self).incident(b) == old(self).incident(b).push(f)
                &&& final(self).neighbors_of(a) == old(self).neighbors_of(a).push(b)
                &&& final(self).neighbors_of(b) == old(self).neighbors_of(b).push(a)
                &&& forall|q: PostId| #[trigger] final(self).post_live(q) == old(
                    self,
                ).post_live(q)
                &&& forall|q: PostId| q != a && q != b
                    ==> #[trigger] final(self).incident(q) == old(self).incident(q)
                &&& forall|q: PostId| q != a && q != b
                    ==> #[trigger] final(self).neighbors_of(q) == old(self).neighbors_of(q)
                &&& forall|g: FenceId| g != f ==> #[trigger] final(self).fence_live(g) == old(
                    self,
                ).fence_live(g)
                &&& forall|g: FenceId| old(self).fence_live(g)
                    ==> #[trigger] final(self).fences@[g as int] == old(self).fences@[g as int]
            },
    {
        if a == b || !self.has_post(a) || !self.has_post(b) {
            return Err(GraphError::InvalidEndpoints);
        }
        let f = self.fences.len();
        self.fences.push(Some(FenceNode { a, b }));
        match &mut self.posts[a] {
            Some(node) => node.fences.push(f),
            None => {},
        }
        match &mut self.posts[b] {
            Some(node) => node.fences.push(f),
            None => {},
        }
        proof {
            self.lemma_create_fence_wf(*old(self), a, b, f);
        }
        Ok(f)
    }

    /// The neighbor list of post `p`: for every incident fence in insertion
    /// order, the endpoint that is not `p`. Empty for a dead or unknown
    /// handle.
    pub fn neighbors(&self, p: PostId) -> (r: Vec<PostId>)
        requires
            self.wf(),
        ensures
            r@ == self.neighbors_of(p),
    {
        let mut out: Vec<PostId> = Vec::new();
        if !self.has_post(p) {
            proof {
                assert(self.neighbors_of(p) =~= Seq::<PostId>::empty());
            }
            return out;
        }
        let node = match &self.posts[p] {
            Some(n) => n,
            None => unreached(),
        };
        let mut i: usize = 0;
        while i < node.fences.len()
            invariant
                self.wf(),
                self.post_live(p),
                node == self.posts@[p as int].unwrap(),
                i <= node.fences@.len(),
                out@ =~= self.neighbors_of(p).subrange(0, i as int),
            decreases node.fences@.len() - i,
        {
            let f = node.fences[i];
            assert(self.incident(p)[i as int] == f);
            let (a, b) = self.endpoints(f);
            let other = if a == p {
                b
            } else {
                a
            };
            out.push(other);
            proof {
                assert(self.neighbors_of(p)[i as int] == other);
                assert(out@ =~= self.neighbors_of(p).subrange(0, i + 1));
            }
            i = i + 1;
        }
        proof {
            assert(out@ =~= self.neighbors_of(p));
        }
        out
    }

    /// Removes a fence: it disappears from both endpoints' incident lists
    /// and its slot is cleared.
    pub fn remove_fence(&mut self, f: FenceId)
        requires
            old(self).wf(),
            old(self).fence_live(f),
        ensures
            final(self).wf(),
            !final(self).fence_live(f),
            final(self).fences@ == old(self).fences@.update(f as int, None),
            final(self).posts@.len() == old(self).posts@.len(),
            forall|q: PostId| #[trigger] final(self).post_live(q) == old(self).post_live(q),
            forall|g: FenceId| g != f
                ==> #[trigger] final(self).fence_live(g) == old(self).fence_live(g),
            forall|g: FenceId| g != f && old(self).fence_live(g)
                ==> #[trigger] final(self).fences@[g as int] == old(self).fences@[g as int],
            ({
                let a = old(self).end_a(f);
                let b = old(self).end_b(f);
                &&& exists|i: int|
                    0 <= i < old(self).incident(a).len() && old(self).incident(a)[i] == f
                        && final(self).incident(a) == old(self).incident(a).remove(i)
                        && final(self).neighbors_of(a) == old(self).neighbors_of(a).remove(i)
                &&& exists|i: int|
                    0 <= i < old(self).incident(b).len() && old(self).incident(b)[i] == f
                        && final(self).incident(b) == old(self).incident(b).remove(i)
                        && final(self).neighbors_of(b) == old(self).neighbors_of(b).remove(i)
                &&& forall|q: PostId| q != a && q != b
                    ==> #[trigger] final(self).incident(q) == old(self).incident(q)
                &&& forall|q: PostId| q != a && q != b
                    ==> #[trigger] final(self).neighbors_of(q) == old(self).neighbors_of(q)
            }),
    {
        let (a, b) = self.endpoints(f);
        assert(old(self).incident(a).contains(f));
        assert(old(self).incident(b).contains(f));
        let ghost ia: int;
        let ghost ib: int;
        match &mut self.posts[a] {
            Some(node) => {
                let i = remove_value(&mut node.fences, f);
                proof {
                    ia = i as int;
                }
            },
            None => unreached(),
        }
        match &mut self.posts[b] {
            Some(node) => {
                assert(node.fences@ == old(self).incident(b));
                let i = remove_value(&mut node.fences, f);
                proof {
                    ib = i as int;
                }
            },
            None => unreached(),
        }
        self.fences[f] = None;
        proof {
            self.lemma_remove_fence_wf(*old(self), f, a, b, ia, ib);
        }
    }

    /// Restores the invariant and the frame conditions after a fence removal.
    proof fn lemma_remove_fence_wf(
        &self,
        prev: GraphStore,
        f: FenceId,
        a: PostId,
        b: PostId,
        ia: int,
        ib: int,
    )
        requires
            prev.wf(),
            prev.fence_live(f),
            a == prev.end_a(f),
            b == prev.end_b(f),
            0 <= ia < prev.incident(a).len(),
            prev.incident(a)[ia] == f,
            0 <= ib < prev.incident(b).len(),
            prev.incident(b)[ib] == f,
            self.posts@.len() == prev.posts@.len(),
            self.fences@ == prev.fences@.update(f as int, None),
            self.posts@[a as int].is_some(),
            self.posts@[a as int].unwrap().fences@ == prev.incident(a).remove(ia),
            self.posts@[b as int].is_some(),
            self.posts@[b as int].unwrap().fences@ == prev.incident(b).remove(ib),
            forall|q: PostId| q < prev.posts@.len() && q != a && q != b
                ==> #[trigger] self.posts@[q as int] == prev.posts@[q as int],
        ensures
            self.wf(),
            !self.fence_live(f),
            forall|q: PostId| #[trigger] self.post_live(q) == prev.post_live(q),
            forall|g: FenceId| g != f
                ==> #[trigger] self.fence_live(g) == prev.fence_live(g),
            self.incident(a) == prev.incident(a).remove(ia),
            self.neighbors_of(a) == prev.neighbors_of(a).remove(ia),
            self.incident(b) == prev.incident(b).remove(ib),
            self.neighbors_of(b) == prev.neighbors_of(b).remove(ib),
            forall|q: PostId| q != a && q != b
                ==> #[trigger] self.incident(q) == prev.incident(q),
            forall|q: PostId| q != a && q != b
                ==> #[trigger] self.neighbors_of(q) == prev.neighbors_of(q),
    {
        assert(a != b);
        assert forall|q: PostId| q != a && q != b implies #[trigger] self.incident(q)
            == prev.incident(q) by {
            if q < self.posts@.len() {
                assert(self.posts@[q as int] == prev.posts@[q as int]);
            }
        }
        // The only incident entry equal to `f` in each endpoint list is the
        // removed one, by duplicate freedom.
        assert forall|j: int| 0 <= j < prev.incident(a).len() && j != ia implies prev.incident(
            a,
        )[j] != f by {}
        assert forall|j: int| 0 <= j < prev.incident(b).len() && j != ib implies prev.incident(
            b,
        )[j] != f by {}
        // Fences other than `f` stay sound.
        assert forall|g: FenceId| #[trigger] self.fence_live(g) implies self.fence_ok(g) by {
            assert(g != f);
            assert(prev.fence_live(g));
            assert(prev.fence_ok(g));
            let pa = prev.end_a(g);
            let pb = prev.end_b(g);
            assert(self.end_a(g) == pa && self.end_b(g) == pb);
            assert(self.incident(pa).contains(g)) by {
                if pa == a {
                    lemma_remove_keeps(prev.incident(a), ia, g);
                } else if pa == b {
                    lemma_remove_keeps(prev.incident(b), ib, g);
                } else {
                    assert(self.incident(pa) == prev.incident(pa));
                }
            }
            assert(self.incident(pb).contains(g)) by {
                if pb == a {
                    lemma_remove_keeps(prev.incident(a), ia, g);
                } else if pb == b {
                    lemma_remove_keeps(prev.incident(b), ib, g);
                } else {
                    assert(self.incident(pb) == prev.incident(pb));
                }
            }
        }
        assert forall|p: PostId, i: int|
            self.post_live(p) && 0 <= i < self.incident(p).len() implies {
            let g = #[trigger] self.incident(p)[i];
            self.fence_live(g) && self.touches(g, p)
        } by {
            let g = self.incident(p)[i];
            assert(prev.incident(p).contains(g)) by {
                if p == a {
                    assert(g == prev.incident(a).remove(ia)[i]);
                    lemma_remove_entry_from(prev.incident(a), ia, i);
                } else if p == b {
                    lemma_remove_entry_from(prev.incident(b), ib, i);
                } else {
                    assert(self.incident(p) == prev.incident(p));
                }
            }
            let j = choose|j: int| 0 <= j < prev.incident(p).len() && prev.incident(p)[j] == g;
            assert(prev.fence_live(g) && prev.touches(g, p));
            assert(g != f) by {
                if p == a {
                    lemma_remove_no_f(prev.incident(a), ia, i);
                } else if p == b {
                    lemma_remove_no_f(prev.incident(b), ib, i);
                } else {
                    assert(prev.incident(p)[j] == g);
                    if g == f {
                        assert(prev.touches(f, p));
                    }
                }
            }
            assert(self.fences@[g as int] == prev.fences@[g as int]);
        }
        assert forall|p: PostId, i: int, j: int|
            self.post_live(p) && 0 <= i < j < self.incident(p).len() implies #[trigger] self
            .incident(p)[i] != #[trigger] self.incident(p)[j] by {
            if p == a {
                lemma_remove_nodup(prev.incident(a), ia, i, j);
            } else if p == b {
                lemma_remove_nodup(prev.incident(b), ib, i, j);
            } else {
                assert(self.incident(p) == prev.incident(p));
            }
        }
        // Neighbor sequences: removal commutes with taking the other
        // endpoint, since surviving fences keep their endpoints.
        assert forall|p: PostId, i: int|
            self.post_live(p) && 0 <= i < self.incident(p).len() implies #[trigger] self.other_end(
            self.incident(p)[i],
            p,
        ) == prev.other_end(self.incident(p)[i], p) by {
            let g = self.incident(p)[i];
            assert(self.fence_live(g));
            assert(self.fences@[g as int] == prev.fences@[g as int]);
        }
        assert(self.neighbors_of(a) =~= prev.neighbors_of(a).remove(ia));
        assert(self.neighbors_of(b) =~= prev.neighbors_of(b).remove(ib));
        assert forall|q: PostId| q != a && q != b implies #[trigger] self.neighbors_of(q)
            == prev.neighbors_of(q) by {
            assert(self.incident(q) == prev.incident(q));
            assert(self.neighbors_of(q) =~= prev.neighbors_of(q));
        }
    }

    /// Removes a post, cascading: every incident fence is removed first (so
    /// it also disappears from its other endpoint's list), then the post's
    /// slot is cleared.
    pub fn remove_post(&mut self, p: PostId)
        requires
            old(self).wf(),
            old(self).post_live(p),
        ensures
            final(self).wf(),
            !final(self).post_live(p),
            final(self).posts@.len() == old(self).posts@.len(),
            final(self).fences@.len() == old(self).fences@.len(),
            forall|q: PostId| q != p
                ==> #[trigger] final(self).post_live(q) == old(self).post_live(q),
            forall|g: FenceId| #[trigger] final(self).fence_live(g) == (old(self).fence_live(g)
                && !old(self).touches(g, p)),
            forall|g: FenceId| old(self).fence_live(g) && !old(self).touches(g, p)
                ==> #[trigger] final(self).fences@[g as int] == old(self).fences@[g as int],
            forall|q: PostId, g: FenceId| q != p
                ==> (#[trigger] final(self).incident(q).contains(g) <==> old(self).incident(
                    q,
                ).contains(g) && !old(self).touches(g, p)),
            forall|q: PostId|
                q != p && (forall|i: int|
                    0 <= i < old(self).incident(q).len() ==> !old(self).touches(
                        #[trigger] old(self).incident(q)[i],
                        p,
                    )) ==> #[trigger] final(self).incident(q) == old(self).incident(q)
                    && final(self).neighbors_of(q) == old(self).neighbors_of(q),
    {
        while self.post_degree(p) != 0
            invariant
                self.wf(),
                self.post_live(p),
                self.posts@.len() == old(self).posts@.len(),
                self.fences@.len() == old(self).fences@.len(),
                forall|q: PostId| #[trigger] self.post_live(q) == old(self).post_live(q),
                // A fence is still live exactly when it was live and is not a
                // removed incident fence of `p`.
                forall|g: FenceId| #[trigger] self.fence_live(g) ==> old(self).fence_live(g)
                    && self.fences@[g as int] == old(self).fences@[g as int],
                forall|g: FenceId| old(self).fence_live(g) && !old(self).touches(g, p)
                    ==> #[trigger] self.fence_live(g),
                forall|g: FenceId| #[trigger] self.fence_live(g) && old(self).touches(g, p)
                    ==> self.incident(p).contains(g),
                // Incident lists of other posts: contents filtered down.
                forall|q: PostId, g: FenceId| q != p
                    ==> (#[trigger] self.incident(q).contains(g) <==> old(self).incident(
                        q,
                    ).contains(g) && self.fence_live(g)),
                // Untouched posts are exactly unchanged.
                forall|q: PostId|
                    q != p && (forall|i: int|
                        0 <= i < old(self).incident(q).len() ==> !old(self).touches(
                            #[trigger] old(self).incident(q)[i],
                            p,
                        )) ==> #[trigger] self.incident(q) == old(self).incident(q)
                        && self.neighbors_of(q) == old(self).neighbors_of(q),
            decreases self.incident(p).len(),
        {
            let node = match &self.posts[p] {
                Some(n) => n,
                None => unreached(),
            };
            let f = node.fences[0];
            assert(self.incident(p)[0] == f);
            assert(self.fence_live(f) && self.touches(f, p));
            let ghost before = *self;
            let ghost fa = before.end_a(f);
            let ghost fb = before.end_b(f);
            self.remove_fence(f);
            proof {
                let ghost other: PostId = if fa == p {
                    fb
                } else {
                    fa
                };
                assert(other != p);
                assert(before.incident(p)[0] == f);
                let i = choose|i: int|
                    0 <= i < before.incident(p).len() && before.incident(p)[i] == f
                        && self.incident(p) == before.incident(p).remove(i);
                assert(i == 0) by {
                    if i != 0 {
                        assert(before.incident(p)[i] == before.incident(p)[0]);
                    }
                }
                assert(self.incident(p) == before.incident(p).remove(0));
                assert forall|g: FenceId|
                    #[trigger] self.fence_live(g) && old(self).touches(g, p) implies self.incident(
                    p,
                ).contains(g) by {
                    assert(g != f);
                    assert(before.fence_live(g));
                    assert(before.incident(p).contains(g));
                    let j = choose|j: int|
                        0 <= j < before.incident(p).len() && before.incident(p)[j] == g;
                    assert(j != 0);
                    assert(self.incident(p)[j - 1] == g);
                }
                // Contents of other posts' lists stay exactly the live old
                // entries.
                let io = choose|io: int|
                    0 <= io < before.incident(other).len() && before.incident(other)[io] == f
                        && self.incident(other) == before.incident(other).remove(io);
                assert forall|q: PostId, g: FenceId| q != p implies (#[trigger] self.incident(
                    q,
                ).contains(g) <==> old(self).incident(q).contains(g) && self.fence_live(g)) by {
                    if q == other {
                        if g == f {
                            assert(!self.fence_live(f));
                            assert forall|k: int|
                                0 <= k < self.incident(other).len() implies self.incident(
                                other,
                            )[k] != f by {
                                lemma_remove_no_f(before.incident(other), io, k);
                            }
                            assert(!self.incident(other).contains(f));
                        } else {
                            assert(self.fence_live(g) == before.fence_live(g));
                            if before.incident(other).contains(g) {
                                lemma_remove_keeps(before.incident(other), io, g);
                            }
                            if self.incident(other).contains(g) {
                                let k = choose|k: int|
                                    0 <= k < self.incident(other).len() && self.incident(
                                        other,
                                    )[k] == g;
                                lemma_remove_entry_from(before.incident(other), io, k);
                            }
                            assert(before.incident(other).contains(g) <==> self.incident(
                                other,
                            ).contains(g));
                        }
                    } else {
                        assert(q != fa && q != fb);
                        assert(self.incident(q) == before.incident(q));
                        if g == f {
                            assert(!self.fence_live(f));
                            if before.incident(q).contains(f) {
                                let k = choose|k: int|
                                    0 <= k < before.incident(q).len() && before.incident(
                                        q,
                                    )[k] == f;
                                assert(before.touches(f, q));
                            }
                            assert(!self.incident(q).contains(f));
                        } else {
                            assert(self.fence_live(g) == before.fence_live(g));
                        }
                    }
                }
                // Posts away from every removed fence keep their exact list.
                assert forall|q: PostId|
                    q != p && (forall|k: int|
                        0 <= k < old(self).incident(q).len() ==> !old(self).touches(
                            #[trigger] old(self).incident(q)[k],
                            p,
                        )) implies #[trigger] self.incident(q) == old(self).incident(q)
                    && self.neighbors_of(q) == old(self).neighbors_of(q) by {
                    assert(q != other) by {
                        if q == other {
                            assert(before.incident(other).contains(f));
                            assert(old(self).incident(other).contains(f));
                            let k = choose|k: int|
                                0 <= k < old(self).incident(other).len() && old(self).incident(
                                    other,
                                )[k] == f;
                            assert(old(self).fence_live(f));
                            assert(old(self).touches(f, p));
                        }
                    }
                    assert(q != fa && q != fb);
                    assert(self.incident(q) == before.incident(q));
                    assert(self.neighbors_of(q) == before.neighbors_of(q));
                }
            }
        }
        let ghost pre = *self;
        self.posts[p] = None;
        proof {
            let prev = *old(self);
            assert(pre.incident(p).len() == 0);
            assert(self.fences@ == pre.fences@);
            assert forall|q: PostId| q != p implies #[trigger] self.incident(q) == pre.incident(
                q,
            ) by {
                if q < self.posts@.len() {
                    assert(self.posts@[q as int] == pre.posts@[q as int]);
                }
            }
            assert forall|q: PostId| q != p implies #[trigger] self.post_live(q)
                == prev.post_live(q) by {
                if q < self.posts@.len() {
                    assert(self.posts@[q as int] == pre.posts@[q as int]);
                }
                assert(pre.post_live(q) == prev.post_live(q));
            }
            assert forall|g: FenceId|
                prev.fence_live(g) && !prev.touches(g, p) implies #[trigger] self.fences@[g as int]
                == prev.fences@[g as int] by {
                assert(pre.fence_live(g));
            }
            // No live fence still touches `p`: its incident list is empty.
            assert forall|g: FenceId| #[trigger] self.fence_live(g) implies !prev.touches(
                g,
                p,
            ) by {
                assert(pre.fence_live(g));
                if prev.touches(g, p) {
                    assert(pre.incident(p).contains(g));
                    assert(false);
                }
            }
            // The invariant survives clearing the post slot.
            assert forall|g: FenceId| #[trigger] self.fence_live(g) implies self.fence_ok(g) by {
                assert(pre.fence_live(g) && pre.fence_ok(g));
                assert(pre.end_a(g) != p && pre.end_b(g) != p);
                assert(self.incident(pre.end_a(g)) == pre.incident(pre.end_a(g)));
                assert(self.incident(pre.end_b(g)) == pre.incident(pre.end_b(g)));
            }
            assert forall|q: PostId, i: int|
                self.post_live(q) && 0 <= i < self.incident(q).len() implies {
                let g = #[trigger] self.incident(q)[i];
                self.fence_live(g) && self.touches(g, q)
            } by {
                assert(q != p);
                assert(self.incident(q) == pre.incident(q));
                let g = pre.incident(q)[i];
                assert(pre.fence_live(g) && pre.touches(g, q));
            }
            assert forall|q: PostId, i: int, j: int|
                self.post_live(q) && 0 <= i < j < self.incident(q).len() implies #[trigger] self
                .incident(q)[i] != #[trigger] self.incident(q)[j] by {
                assert(q != p);
                assert(self.incident(q) == pre.incident(q));
            }
            // Remaining frame facts for the postconditions.
            assert forall|g: FenceId| #[trigger] self.fence_live(g) == (prev.fence_live(g)
                && !prev.touches(g, p)) by {
                assert(self.fence_live(g) == pre.fence_live(g));
            }
            assert forall|q: PostId, g: FenceId| q != p implies (#[trigger] self.incident(
                q,
            ).contains(g) <==> prev.incident(q).contains(g) && !prev.touches(g, p)) by {
                assert(self.incident(q) == pre.incident(q));
                if pre.incident(q).contains(g) {
                    assert(pre.fence_live(g));
                }
            }
            assert forall|q: PostId|
                q != p && (forall|i: int|
                    0 <= i < prev.incident(q).len() ==> !prev.touches(
                        #[trigger] prev.incident(q)[i],
                        p,
                    )) implies #[trigger] self.incident(q) == prev.incident(q)
                && self.neighbors_of(q) == prev.neighbors_of(q) by {
                assert(self.incident(q) == pre.incident(q));
                assert(pre.incident(q) == prev.incident(q));
                assert(pre.neighbors_of(q) == prev.neighbors_of(q));
                assert(self.neighbors_of(q) =~= pre.neighbors_of(q)) by {
                    assert forall|i: int| 0 <= i < pre.incident(q).len() implies self.other_end(
                        #[trigger] pre.incident(q)[i],
                        q,
                    ) == pre.other_end(pre.incident(q)[i], q) by {
                        let g = pre.incident(q)[i];
                        assert(pre.fence_live(g));
                        assert(self.fences@[g as int] == pre.fences@[g as int]);
                    }
                }
            }
        }
    }

    /// Restores the invariant and the frame conditions after a fence append.
    proof fn lemma_create_fence_wf(&self, prev: GraphStore, a: PostId, b: PostId, f: FenceId)
        requires
            prev.wf(),
            a != b,
            prev.post_live(a),
            prev.post_live(b),
            f == prev.fences@.len(),
            self.posts@.len() == prev.posts@.len(),
            self.fences@ == prev.fences@.push(Some(FenceNode { a, b })),
            self.posts@[a as int].is_some(),
            self.posts@[a as int].unwrap().fences@ == prev.posts@[a as int].unwrap().fences@.push(
                f,
            ),
            self.posts@[b as int].is_some(),
            self.posts@[b as int].unwrap().fences@ == prev.posts@[b as int].unwrap().fences@.push(
                f,
            ),
            forall|q: PostId| q < prev.posts@.len() && q != a && q != b
                ==> #[trigger] self.posts@[q as int] == prev.posts@[q as int],
        ensures
            self.wf(),
            self.fence_live(f),
            self.end_a(f) == a,
            self.end_b(f) == b,
            self.incident(a) == prev.incident(a).push(f),
            self.incident(b) == prev.incident(b).push(f),
            self.neighbors_of(a) == prev.neighbors_of(a).push(b),
            self.neighbors_of(b) == prev.neighbors_of(b).push(a),
            forall|q: PostId| #[trigger] self.post_live(q) == prev.post_live(q),
            forall|q: PostId| q != a && q != b
                ==> #[trigger] self.incident(q) == prev.incident(q),
            forall|q: PostId| q != a && q != b
                ==> #[trigger] self.neighbors_of(q) == prev.neighbors_of(q),
            forall|g: FenceId| g != f ==> #[trigger] self.fence_live(g) == prev.fence_live(g),
            forall|g: FenceId| prev.fence_live(g)
                ==> #[trigger] self.fences@[g as int] == prev.fences@[g as int],
    {
        assert(self.incident(a) =~= prev.incident(a).push(f));
        assert(self.incident(b) =~= prev.incident(b).push(f));
        assert forall|q: PostId| q != a && q != b implies #[trigger] self.incident(q)
            == prev.incident(q) by {
            if q < self.posts@.len() {
                assert(self.posts@[q as int] == prev.posts@[q as int]);
            }
        }
        assert forall|g: FenceId| g != f && #[trigger] self.fence_live(g) implies prev.fence_live(
            g,
        ) && self.end_a(g) == prev.end_a(g) && self.end_b(g) == prev.end_b(g) by {
            assert(self.fences@[g as int] == prev.fences@[g as int]);
        }
        // Every live fence is sound in the new store.
        assert forall|g: FenceId| #[trigger] self.fence_live(g) implies self.fence_ok(g) by {
            if g == f {
                assert(self.incident(a)[self.incident(a).len() - 1] == f);
                assert(self.incident(b)[self.incident(b).len() - 1] == f);
            } else {
                assert(prev.fence_ok(g));
                let pa = prev.end_a(g);
                let pb = prev.end_b(g);
                assert(prev.incident(pa).contains(g));
                assert(prev.incident(pb).contains(g));
                assert(self.incident(pa).contains(g)) by {
                    let i = choose|i: int|
                        0 <= i < prev.incident(pa).len() && prev.incident(pa)[i] == g;
                    assert(self.incident(pa)[i] == g);
                }
                assert(self.incident(pb).contains(g)) by {
                    let i = choose|i: int|
                        0 <= i < prev.incident(pb).len() && prev.incident(pb)[i] == g;
                    assert(self.incident(pb)[i] == g);
                }
            }
        }
        // Incident lists hold live fences touching their post, without
        // duplicates.
        assert forall|p: PostId, i: int|
            self.post_live(p) && 0 <= i < self.incident(p).len() implies {
            let g = #[trigger] self.incident(p)[i];
            self.fence_live(g) && self.touches(g, p)
        } by {
            let g = self.incident(p)[i];
            if (p == a || p == b) && i == self.incident(p).len() - 1 {
                assert(g == f);
            } else {
                assert(prev.incident(p)[i] == g);
                assert(prev.fence_live(g) && prev.touches(g, p));
                assert(self.fences@[g as int] == prev.fences@[g as int]);
            }
        }
        assert forall|p: PostId, i: int, j: int|
            self.post_live(p) && 0 <= i < j < self.incident(p).len() implies #[trigger] self
            .incident(p)[i] != #[trigger] self.incident(p)[j] by {
            if (p == a || p == b) && j == self.incident(p).len() - 1 {
                let g = self.incident(p)[i];
                assert(prev.incident(p)[i] == g);
                assert(prev.fence_live(g));
                assert(g < f);
            } else {
                assert(prev.incident(p)[i] == self.incident(p)[i]);
                assert(prev.incident(p)[j] == self.incident(p)[j]);
            }
        }
        // Neighbor sequences extend by one entry.
        assert(self.neighbors_of(a) =~= prev.neighbors_of(a).push(b)) by {
            assert forall|i: int| 0 <= i < prev.incident(a).len() implies self.other_end(
                #[trigger] prev.incident(a)[i],
                a,
            ) == prev.other_end(prev.incident(a)[i], a) by {
                let g = prev.incident(a)[i];
                assert(prev.fence_live(g));
                assert(self.fences@[g as int] == prev.fences@[g as int]);
            }
        }
        assert(self.neighbors_of(b) =~= prev.neighbors_of(b).push(a)) by {
            assert forall|i: int| 0 <= i < prev.incident(b).len() implies self.other_end(
                #[trigger] prev.incident(b)[i],
                b,
            ) == prev.other_end(prev.incident(b)[i], b) by {
                let g = prev.incident(b)[i];
                assert(prev.fence_live(g));
                assert(self.fences@[g as int] == prev.fences@[g as int]);
            }
        }
        assert forall|q: PostId| q != a && q != b implies #[trigger] self.neighbors_of(q)
            == prev.neighbors_of(q) by {
            assert(self.incident(q) == prev.incident(q));
            assert(self.neighbors_of(q) =~= prev.neighbors_of(q)) by {
                assert forall|i: int| 0 <= i < prev.incident(q).len() implies self.other_end(
                    #[trigger] prev.incident(q)[i],
                    q,
                ) == prev.other_end(prev.incident(q)[i], q) by {
                    let g = prev.incident(q)[i];
                    assert(prev.fence_live(g));
                    assert(self.fences@[g as int] == prev.fences@[g as int]);
                }
            }
        }
    }
}


/// The shape of a store grown only by fences whose far endpoint was a brand
/// new post at creation time: every fence runs from an older post to a
/// younger one, and no post is the younger end of two fences.
pub open spec fn chain_built(g: &GraphStore) -> bool {
    &&& forall|f: FenceId| #[trigger] g.fence_live(f) ==> g.end_a(f) < g.end_b(f)
    &&& forall|f: FenceId, h: FenceId|
        #[trigger] g.fence_live(f) && #[trigger] g.fence_live(h) && f != h ==> g.end_b(f)
            != g.end_b(h)
}

/// Index of a maximal entry of a nonempty sequence.
spec fn max_idx(c: Seq<usize>) -> int
    decreases c.len(),
{
    if c.len() <= 1 {
        0
    } else {
        let m = max_idx(c.drop_last());
        if c.last() > c[m] {
            c.len() - 1
        } else {
            m
        }
    }
}

proof fn lemma_max_idx(c: Seq<usize>)
    requires
        c.len() > 0,
    ensures
        0 <= max_idx(c) < c.len(),
        forall|l: int| 0 <= l < c.len() ==> #[trigger] c[l] <= c[max_idx(c)],
    decreases c.len(),
{
    if c.len() > 1 {
        lemma_max_idx(c.drop_last());
        assert(forall|l: int| 0 <= l < c.len() - 1 ==> c[l] == c.drop_last()[l]);
    }
}

/// The fence behind an entry of a neighbor sequence.
pub(crate) proof fn edge_fence(g: &GraphStore, n: usize, m: usize) -> (f: FenceId)
    requires
        g.wf(),
        g.neighbors_of(n).contains(m),
    ensures
        g.fence_live(f),
        g.touches(f, n),
        g.other_end(f, n) == m,
{
    let i = choose|i: int| 0 <= i < g.neighbors_of(n).len() && g.neighbors_of(n)[i] == m;
    assert(g.post_live(n));
    let f = g.incident(n)[i];
    assert(g.fence_live(f) && g.touches(f, n));
    f
}

impl crate::cycle::UndirectedGraph for GraphStore {
    open spec fn node_limit(&self) -> nat {
        self.posts@.len()
    }

    open spec fn nbrs(&self, n: usize) -> Seq<usize> {
        self.neighbors_of(n)
    }

    open spec fn valid(&self) -> bool {
        self.wf()
    }

    fn node_count(&self) -> (r: usize) {
        self.posts.len()
    }

    fn neighbors(&self, node: usize) -> (r: Vec<usize>) {
        GraphStore::neighbors(self, node)
    }
}

/// A well-formed store satisfies everything the cycle detector asks of the
/// neighbor relation.
pub proof fn lemma_store_graph_laws(g: &GraphStore)
    requires
        g.wf(),
    ensures
        crate::cycle::graph_laws(g),
{
    broadcast use vstd::std_specs::vec::axiom_spec_len;

    assert(vstd::std_specs::vec::spec_vec_len(&g.posts) == g.posts@.len());
    assert forall|n: usize, i: int|
        0 <= i < g.neighbors_of(n).len() implies (#[trigger] g.neighbors_of(n)[i])
        < g.posts@.len() && g.neighbors_of(n)[i] != n by {
        assert(g.post_live(n));
        let f = g.incident(n)[i];
        assert(g.fence_live(f) && g.touches(f, n));
        assert(g.fence_ok(f));
        assert(g.neighbors_of(n)[i] == g.other_end(f, n));
    }
    assert forall|n: usize, m: usize| #[trigger] g.neighbors_of(n).contains(
        m,
    ) implies g.neighbors_of(m).contains(n) by {
        let f = edge_fence(g, n, m);
        assert(g.fence_ok(f));
        assert(g.touches(f, m) && g.other_end(f, m) == n);
        assert(g.incident(m).contains(f));
        let j = choose|j: int| 0 <= j < g.incident(m).len() && g.incident(m)[j] == f;
        assert(g.neighbors_of(m)[j] == n);
    }
}

/// A store without fences has no cycle in any form.
pub proof fn lemma_no_fences_acyclic(g: &GraphStore)
    requires
        g.wf(),
        forall|f: FenceId| !(#[trigger] g.fence_live(f)),
    ensures
        !crate::cycle::cyclic(g),
{
    assert forall|n: usize| #[trigger] g.neighbors_of(n) =~= Seq::<PostId>::empty() by {
        if g.incident(n).len() > 0 {
            assert(g.fence_live(g.incident(n)[0]));
        }
    }
    assert(!crate::cycle::has_parallel_edge(g)) by {
        if crate::cycle::has_parallel_edge(g) {
            let (n, i, j): (usize, int, int) = choose|n: usize, i: int, j: int|
                0 <= i < j < g.neighbors_of(n).len() && #[trigger] g.neighbors_of(n)[i]
                    == #[trigger] g.neighbors_of(n)[j];
            assert(g.neighbors_of(n) =~= Seq::<PostId>::empty());
        }
    }
    assert forall|c: Seq<usize>| !crate::cycle::is_cycle(g, c) by {
        if crate::cycle::is_cycle(g, c) {
            assert(g.neighbors_of(c[0]).contains(c[1]));
            assert(g.neighbors_of(c[0]) =~= Seq::<PostId>::empty());
        }
    }
}

/// A store whose live fences are a subset of another's (same slots, same
/// endpoints) has no cycle shape the larger store lacks: removals never
/// create a cycle.
pub proof fn lemma_store_sub_acyclic(prev: &GraphStore, cur: &GraphStore)
    requires
        prev.wf(),
        cur.wf(),
        forall|g: FenceId| #[trigger] cur.fence_live(g) ==> prev.fence_live(g)
            && cur.fences@[g as int] == prev.fences@[g as int],
    ensures
        crate::cycle::cyclic(cur) ==> crate::cycle::cyclic(prev),
{
    assert forall|u: usize, v: usize| #[trigger] cur.neighbors_of(u).contains(
        v,
    ) implies prev.neighbors_of(u).contains(v) by {
        let i = choose|i: int| 0 <= i < cur.neighbors_of(u).len() && cur.neighbors_of(u)[i] == v;
        assert(cur.post_live(u));
        let f = cur.incident(u)[i];
        assert(cur.fence_live(f) && cur.touches(f, u));
        assert(cur.other_end(f, u) == v);
        assert(prev.fence_live(f) && prev.touches(f, u) && prev.other_end(f, u) == v);
        assert(prev.fence_ok(f));
        assert(prev.incident(u).contains(f));
        let k = choose|k: int| 0 <= k < prev.incident(u).len() && prev.incident(u)[k] == f;
        assert(prev.neighbors_of(u)[k] == v);
    }
    if crate::cycle::cyclic(cur) {
        if crate::cycle::has_parallel_edge(cur) {
            let (n, i, j): (usize, int, int) = choose|n: usize, i: int, j: int|
                0 <= i < j < cur.neighbors_of(n).len() && #[trigger] cur.neighbors_of(n)[i]
                    == #[trigger] cur.neighbors_of(n)[j];
            assert(cur.post_live(n));
            let fi = cur.incident(n)[i];
            let fj = cur.incident(n)[j];
            assert(fi != fj);
            assert(cur.fence_live(fi) && cur.fence_live(fj));
            let m = cur.other_end(fi, n);
            assert(cur.other_end(fj, n) == m);
            assert(prev.fence_ok(fi) && prev.fence_ok(fj));
            assert(prev.touches(fi, n) && prev.touches(fj, n));
            assert(prev.incident(n).contains(fi) && prev.incident(n).contains(fj));
            let k1 = choose|k: int| 0 <= k < prev.incident(n).len() && prev.incident(n)[k] == fi;
            let k2 = choose|k: int| 0 <= k < prev.incident(n).len() && prev.incident(n)[k] == fj;
            assert(k1 != k2);
            assert(prev.neighbors_of(n)[k1] == m && prev.neighbors_of(n)[k2] == m);
            assert(crate::cycle::UndirectedGraph::nbrs(prev, n) == prev.neighbors_of(n));
            if k1 < k2 {
                assert(crate::cycle::UndirectedGraph::nbrs(prev, n)[k1]
                    == crate::cycle::UndirectedGraph::nbrs(prev, n)[k2]);
                assert(crate::cycle::has_parallel_edge(prev));
            } else {
                assert(crate::cycle::UndirectedGraph::nbrs(prev, n)[k2]
                    == crate::cycle::UndirectedGraph::nbrs(prev, n)[k1]);
                assert(crate::cycle::has_parallel_edge(prev));
            }
        } else {
            let c = choose|c: Seq<usize>| crate::cycle::is_cycle(cur, c);
            assert(crate::cycle::is_cycle(prev, c)) by {
                assert forall|i: int| 0 <= i < c.len() - 1 implies prev.neighbors_of(
                    #[trigger] c[i],
                ).contains(c[i + 1]) by {
                    assert(cur.neighbors_of(c[i]).contains(c[i + 1]));
                }
                assert(cur.neighbors_of(c.last()).contains(c[0]));
            }
            assert(crate::cycle::cyclic(prev));
        }
    }
}

/// Law: a store grown only by attaching each new fence to a fresh far
/// endpoint is acyclic, in the exact sense the cycle detector reports.
pub proof fn lemma_chain_built_acyclic(g: &GraphStore)
    requires
        g.wf(),
        chain_built(g),
    ensures
        !crate::cycle::cyclic(g),
{
    lemma_store_graph_laws(g);
    assert(!crate::cycle::has_parallel_edge(g)) by {
        if crate::cycle::has_parallel_edge(g) {
            let (n, i, j): (usize, int, int) = choose|n: usize, i: int, j: int|
                0 <= i < j < g.neighbors_of(n).len() && #[trigger] g.neighbors_of(n)[i]
                    == #[trigger] g.neighbors_of(n)[j];
            assert(g.post_live(n));
            let fi = g.incident(n)[i];
            let fj = g.incident(n)[j];
            assert(fi != fj);
            assert(g.fence_live(fi) && g.touches(fi, n));
            assert(g.fence_live(fj) && g.touches(fj, n));
            let m = g.other_end(fi, n);
            assert(g.other_end(fj, n) == m);
            assert(g.end_b(fi) == g.end_b(fj)) by {
                assert(g.end_a(fi) < g.end_b(fi));
                assert(g.end_a(fj) < g.end_b(fj));
            }
            assert(false);
        }
    }
    assert forall|c: Seq<usize>| !crate::cycle::is_cycle(g, c) by {
        if crate::cycle::is_cycle(g, c) {
            lemma_max_idx(c);
            let m = max_idx(c);
            let len = c.len() as int;
            let prev_i: int = if m == 0 {
                len - 1
            } else {
                m - 1
            };
            let next_i: int = if m == len - 1 {
                0
            } else {
                m + 1
            };
            let top = c[m];
            let prev = c[prev_i];
            let next = c[next_i];
            assert(prev != next && prev != top && next != top);
            assert(g.neighbors_of(top).contains(next)) by {
                if m == len - 1 {
                    assert(g.neighbors_of(c.last()).contains(c[0]));
                } else {
                    assert(g.neighbors_of(c[m]).contains(c[m + 1]));
                }
            }
            assert(g.neighbors_of(top).contains(prev)) by {
                assert(g.neighbors_of(prev).contains(top)) by {
                    if m == 0 {
                        assert(g.neighbors_of(c.last()).contains(c[0]));
                    } else {
                        assert(g.neighbors_of(c[prev_i]).contains(c[prev_i + 1]));
                    }
                }
            }
            let fp = edge_fence(g, top, prev);
            let fq = edge_fence(g, top, next);
            assert(prev < top && next < top);
            assert(g.end_b(fp) == top) by {
                assert(g.end_a(fp) < g.end_b(fp));
            }
            assert(g.end_b(fq) == top) by {
                assert(g.end_a(fq) < g.end_b(fq));
            }
            assert(fp == fq);
            assert(false);
        }
    }
}

} // verus!
