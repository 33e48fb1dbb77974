//! The interactive placement state machine. It owns the graph store, the
//! post positions and the derived fence transforms, and drives the preview
//! lifecycle: Idle, a single post preview, or a post preview plus a fence
//! preview anchored at the most recently committed permanent post. Commits
//! turn previews into permanent entities; snapping a commit onto an existing
//! permanent post closes the chain, runs the cycle detector from that post,
//! and returns to Idle.

use vstd::prelude::*;

use crate::geometry::{derive_transform, in_bounds, transform_of, FenceTransform, Vec3i};
use crate::graph::{chain_built, FenceId, GraphStore, PostId};

verus! {

/// The machine's mode: nothing previewed, one post preview, or a post
/// preview plus a fence preview anchored at a permanent post.
#[derive(Clone, Copy, PartialEq, Eq, Structural, Debug)]
pub enum PlacementState {
    Idle,
    PostOnly { preview_post: PostId },
    Connecting { anchor: PostId, preview_post: PostId, preview_fence: FenceId },
}

/// What a commit did, so collaborators (rendering, collision, economy) can
/// react to the entities it created or removed.
#[derive(Debug, Clone, PartialEq)]
pub enum CommitOutcome {
    /// No ground hit, or nothing to commit: a silent no-op.
    NoOp,
    /// A first post became permanent; a fresh fence preview and post preview
    /// now hang off it.
    PostPlaced { post: PostId, fence_preview: FenceId, post_preview: PostId },
    /// The chain grew: the previews became a permanent post and fence, and
    /// fresh previews were anchored at the new post.
    Extended { post: PostId, fence: FenceId, fence_preview: FenceId, post_preview: PostId },
    /// The chain snapped onto an existing permanent post: a permanent fence
    /// now connects the previous post to it, the previews are gone, and the
    /// cycle detector's advisory verdict from that post is attached.
    LoopClosed { fence: FenceId, root: PostId, cycle: Option<Vec<PostId>> },
}

/// Everything already committed survives a step untouched: permanent posts
/// keep their positions, permanent fences keep their endpoints and their
/// transforms, bit for bit.
pub open spec fn keeps_permanents(prev: Placement, cur: Placement) -> bool {
    &&& forall|q: PostId| #[trigger] prev.permanent_post(q) ==> cur.permanent_post(q) && cur.pos(q)
        == prev.pos(q)
    &&& forall|g: FenceId| #[trigger] prev.permanent_fence(g) ==> cur.permanent_fence(g)
        && cur.graph.fences@[g as int] == prev.graph.fences@[g as int] && cur.transform(g)
        == prev.transform(g)
}

/// The whole placement world: graph connectivity, spatial data per handle,
/// preview flags, and the machine state. A post whose position is `None` is
/// hidden (no ground hit yet); a permanent post always has a position.
pub struct Placement {
    pub graph: GraphStore,
    pub positions: Vec<Option<Vec3i>>,
    pub transforms: Vec<Option<FenceTransform>>,
    pub preview_posts: Vec<bool>,
    pub preview_fences: Vec<bool>,
    pub state: PlacementState,
    pub snap: Option<PostId>,
}

impl Placement {
    /// Position of post `p`, `None` while hidden.
    pub open spec fn pos(&self, p: PostId) -> Option<Vec3i> {
        self.positions@[p as int]
    }

    /// Stored transform of fence `f`.
    pub open spec fn transform(&self, f: FenceId) -> Option<FenceTransform> {
        self.transforms@[f as int]
    }

    /// `p` is a live post marked as a preview.
    pub open spec fn preview_post(&self, p: PostId) -> bool {
        self.graph.post_live(p) && self.preview_posts@[p as int]
    }

    /// `f` is a live fence marked as a preview.
    pub open spec fn preview_fence(&self, f: FenceId) -> bool {
        self.graph.fence_live(f) && self.preview_fences@[f as int]
    }

    /// `p` is a live, committed (non-preview) post.
    pub open spec fn permanent_post(&self, p: PostId) -> bool {
        self.graph.post_live(p) && !self.preview_posts@[p as int]
    }

    /// `f` is a live, committed (non-preview) fence.
    pub open spec fn permanent_fence(&self, f: FenceId) -> bool {
        self.graph.fence_live(f) && !self.preview_fences@[f as int]
    }

    /// The spatial arrays run in step with the graph arenas.
    pub open spec fn aligned(&self) -> bool {
        &&& self.positions@.len() == self.graph.posts@.len()
        &&& self.preview_posts@.len() == self.graph.posts@.len()
        &&& self.transforms@.len() == self.graph.fences@.len()
        &&& self.preview_fences@.len() == self.graph.fences@.len()
    }

    /// Every stored position is in bounds, and a permanent post is never
    /// hidden.
    pub open spec fn positions_ok(&self) -> bool {
        &&& forall|p: int|
            0 <= p < self.positions@.len() && (#[trigger] self.positions@[p]).is_some()
                ==> in_bounds(self.positions@[p].unwrap())
        &&& forall|p: PostId| #[trigger] self.permanent_post(p) ==> self.pos(p).is_some()
    }

    /// The geometry invariant: whenever both endpoints of a live fence are
    /// placed, the stored transform is exactly the one derived from their
    /// current positions.
    pub open spec fn geometry_ok(&self) -> bool {
        forall|f: FenceId|
            #[trigger] self.graph.fence_live(f) && self.pos(self.graph.end_a(f)).is_some()
                && self.pos(self.graph.end_b(f)).is_some() ==> self.transform(f) == Some(
                transform_of(
                    self.pos(self.graph.end_a(f)).unwrap(),
                    self.pos(self.graph.end_b(f)).unwrap(),
                ),
            )
    }

    /// The preview population matches the machine state: exactly the
    /// previews the state names exist, the fence preview connects the anchor
    /// to the post preview, and a snap candidate is only ever a permanent
    /// post while connecting.
    pub open spec fn state_ok(&self) -> bool {
        match self.state {
            PlacementState::Idle => {
                &&& forall|p: PostId| #[trigger] self.graph.post_live(p) ==> !self.preview_post(p)
                &&& forall|f: FenceId| #[trigger] self.graph.fence_live(f) ==> !self.preview_fence(
                    f,
                )
                &&& self.snap is None
            },
            PlacementState::PostOnly { preview_post } => {
                &&& self.preview_post(preview_post)
                &&& self.graph.incident(preview_post).len() == 0
                &&& forall|p: PostId|
                    #[trigger] self.graph.post_live(p) && p != preview_post ==> !self.preview_post(
                        p,
                    )
                &&& forall|f: FenceId| #[trigger] self.graph.fence_live(f) ==> !self.preview_fence(
                    f,
                )
                &&& self.snap is None
            },
            PlacementState::Connecting { anchor, preview_post, preview_fence } => {
                &&& self.preview_post(preview_post)
                &&& self.permanent_post(anchor)
                &&& self.preview_fence(preview_fence)
                &&& self.graph.end_a(preview_fence) == anchor
                &&& self.graph.end_b(preview_fence) == preview_post
                &&& self.graph.incident(preview_post) == seq![preview_fence]
                &&& forall|p: PostId|
                    #[trigger] self.graph.post_live(p) && p != preview_post ==> !self.preview_post(
                        p,
                    )
                &&& forall|f: FenceId|
                    #[trigger] self.graph.fence_live(f) && f != preview_fence
                        ==> !self.preview_fence(f)
                &&& (self.snap matches Some(c) ==> self.permanent_post(c))
            },
        }
    }

    /// The spatial and structural invariants, independent of the machine
    /// state.
    pub open spec fn base_wf(&self) -> bool {
        &&& self.graph.wf()
        &&& self.aligned()
        &&& self.positions_ok()
        &&& self.geometry_ok()
    }

    /// Full well-formedness of the placement world.
    pub open spec fn wf(&self) -> bool {
        self.base_wf() && self.state_ok()
    }

    /// A fresh world: empty graph, no previews, Idle.
    pub fn new() -> (w: Placement)
        ensures
            w.wf(),
            w.graph.posts@.len() == 0,
            w.graph.fences@.len() == 0,
            w.state == PlacementState::Idle,
            chain_built(&w.graph),
            !crate::cycle::cyclic(&w.graph),
    {
        let w = Placement {
            graph: GraphStore::new(),
            positions: Vec::new(),
            transforms: Vec::new(),
            preview_posts: Vec::new(),
            preview_fences: Vec::new(),
            state: PlacementState::Idle,
            snap: None,
        };
        proof {
            crate::graph::lemma_no_fences_acyclic(&w.graph);
        }
        w
    }

    /// Allocates a post slot together with its spatial entries.
    fn spawn_post(&mut self, pos: Option<Vec3i>, preview: bool) -> (p: PostId)
        requires
            old(self).base_wf(),
            old(self).graph.posts@.len() < usize::MAX,
            pos matches Some(v) ==> in_bounds(v),
            pos is None ==> preview,
        ensures
            final(self).base_wf(),
            p == old(self).graph.posts@.len(),
            final(self).graph.post_live(p),
            !old(self).graph.post_live(p),
            final(self).graph.posts@.len() == old(self).graph.posts@.len() + 1,
            final(self).graph.fences@ == old(self).graph.fences@,
            final(self).graph.incident(p) == Seq::<FenceId>::empty(),
            final(self).pos(p) == pos,
            final(self).preview_posts@[p as int] == preview,
            final(self).transforms@ == old(self).transforms@,
            final(self).preview_fences@ == old(self).preview_fences@,
            final(self).state == old(self).state,
            final(self).snap == old(self).snap,
            forall|q: PostId| q != p
                ==> #[trigger] final(self).graph.post_live(q) == old(self).graph.post_live(q),
            forall|q: PostId| q != p
                ==> #[trigger] final(self).graph.incident(q) == old(self).graph.incident(q),
            forall|q: PostId| q != p
                ==> #[trigger] final(self).graph.neighbors_of(q) == old(self).graph.neighbors_of(
                    q,
                ),
            forall|q: PostId| q != p && q < old(self).positions@.len()
                ==> #[trigger] final(self).pos(q) == old(self).pos(q),
            forall|q: PostId| q != p && q < old(self).preview_posts@.len()
                ==> #[trigger] final(self).preview_posts@[q as int] == old(
                    self,
                ).preview_posts@[q as int],
            chain_built(&old(self).graph) ==> chain_built(&final(self).graph),
    {
        let p = self.graph.create_post();
        self.positions.push(pos);
        self.preview_posts.push(preview);
        proof {
            assert(self.graph.incident(p) =~= Seq::<FenceId>::empty());
            assert forall|f: FenceId| #[trigger] self.graph.fence_live(f) implies self.graph.end_a(
                f,
            ) == old(self).graph.end_a(f) && self.graph.end_b(f) == old(self).graph.end_b(f)
                && old(self).graph.fence_live(f) by {
                assert(self.graph.fences@[f as int] == old(self).graph.fences@[f as int]);
            }
            assert forall|q: PostId| #[trigger] self.permanent_post(q) implies self.pos(
                q,
            ).is_some() by {
                if q != p {
                    assert(old(self).permanent_post(q));
                }
            }
        }
        p
    }

    /// Creates a fence slot between two placed posts, deriving its transform
    /// from their current positions.
    fn spawn_fence(&mut self, a: PostId, b: PostId, preview: bool) -> (f: FenceId)
        requires
            old(self).base_wf(),
            old(self).graph.fences@.len() < usize::MAX,
            a != b,
            old(self).graph.post_live(a),
            old(self).graph.post_live(b),
            old(self).pos(a).is_some(),
            old(self).pos(b).is_some(),
        ensures
            final(self).base_wf(),
            f == old(self).graph.fences@.len(),
            !old(self).graph.fence_live(f),
            final(self).graph.fence_live(f),
            final(self).graph.end_a(f) == a,
            final(self).graph.end_b(f) == b,
            final(self).graph.fences@.len() == old(self).graph.fences@.len() + 1,
            final(self).graph.posts@.len() == old(self).graph.posts@.len(),
            final(self).graph.incident(a) == old(self).graph.incident(a).push(f),
            final(self).graph.incident(b) == old(self).graph.incident(b).push(f),
            final(self).graph.neighbors_of(a) == old(self).graph.neighbors_of(a).push(b),
            final(self).graph.neighbors_of(b) == old(self).graph.neighbors_of(b).push(a),
            final(self).transform(f) == Some(
                transform_of(old(self).pos(a).unwrap(), old(self).pos(b).unwrap()),
            ),
            final(self).preview_fences@[f as int] == preview,
            final(self).positions@ == old(self).positions@,
            final(self).preview_posts@ == old(self).preview_posts@,
            final(self).state == old(self).state,
            final(self).snap == old(self).snap,
            forall|q: PostId| #[trigger] final(self).graph.post_live(q) == old(
                self,
            ).graph.post_live(q),
            forall|q: PostId| q != a && q != b
                ==> #[trigger] final(self).graph.incident(q) == old(self).graph.incident(q),
            forall|q: PostId| q != a && q != b
                ==> #[trigger] final(self).graph.neighbors_of(q) == old(self).graph.neighbors_of(
                    q,
                ),
            forall|g: FenceId| g != f
                ==> #[trigger] final(self).graph.fence_live(g) == old(self).graph.fence_live(g),
            forall|g: FenceId| old(self).graph.fence_live(g)
                ==> #[trigger] final(self).graph.fences@[g as int] == old(
                    self,
                ).graph.fences@[g as int],
            forall|g: FenceId| g != f && g < old(self).transforms@.len()
                ==> #[trigger] final(self).transform(g) == old(self).transform(g),
            forall|g: FenceId| g != f && g < old(self).preview_fences@.len()
                ==> #[trigger] final(self).preview_fences@[g as int] == old(
                    self,
                ).preview_fences@[g as int],
            chain_built(&old(self).graph) && a < b && (forall|g: FenceId|
                #[trigger] old(self).graph.fence_live(g) ==> old(self).graph.end_b(g) != b)
                ==> chain_built(&final(self).graph),
    {
        let pa = match &self.positions[a] {
            Some(v) => *v,
            None => unreached(),
        };
        let pb = match &self.positions[b] {
            Some(v) => *v,
            None => unreached(),
        };
        let t = derive_transform(pa, pb);
        let f = match self.graph.create_fence(a, b) {
            Ok(f) => f,
            Err(_) => unreached(),
        };
        self.transforms.push(Some(t));
        self.preview_fences.push(preview);
        proof {
            assert forall|g: FenceId|
                #[trigger] self.graph.fence_live(g) && self.pos(self.graph.end_a(g)).is_some()
                    && self.pos(self.graph.end_b(g)).is_some() implies self.transform(g) == Some(
                transform_of(
                    self.pos(self.graph.end_a(g)).unwrap(),
                    self.pos(self.graph.end_b(g)).unwrap(),
                ),
            ) by {
                if g != f {
                    assert(self.graph.fences@[g as int] == old(self).graph.fences@[g as int]);
                    assert(old(self).graph.fence_live(g));
                }
            }
            assert forall|q: PostId| #[trigger] self.permanent_post(q) implies self.pos(
                q,
            ).is_some() by {
                assert(old(self).permanent_post(q));
            }
            if chain_built(&old(self).graph) && a < b && (forall|g: FenceId|
                #[trigger] old(self).graph.fence_live(g) ==> old(self).graph.end_b(g) != b) {
                assert forall|g: FenceId| #[trigger] self.graph.fence_live(g) implies (g == f
                    || old(self).graph.fence_live(g)) by {}
                assert(chain_built(&self.graph));
            }
        }
        f
    }

    /// Snap resolution for one tick: while connecting, a hit on an existing
    /// permanent post locks the preview onto that post's exact position;
    /// otherwise the raw ground point is used and no candidate is held.
    pub fn resolve_snap(&self, ground: Option<Vec3i>, hit: Option<PostId>) -> (r: (
        Option<PostId>,
        Option<Vec3i>,
    ))
        requires
            self.wf(),
        ensures
            ({
                let snapping = self.state matches PlacementState::Connecting { .. } && hit is Some
                    && self.permanent_post(hit.unwrap());
                if snapping {
                    r == (hit, self.pos(hit.unwrap())) && r.1 is Some
                } else {
                    r == (None::<PostId>, ground)
                }
            }),
    {
        let connecting = match self.state {
            PlacementState::Connecting { .. } => true,
            _ => false,
        };
        if connecting {
            if let Some(h) = hit {
                if self.graph.has_post(h) && !self.preview_posts[h] {
                    assert(self.permanent_post(h));
                    let p = match &self.positions[h] {
                        Some(v) => *v,
                        None => unreached(),
                    };
                    return (Some(h), Some(p));
                }
            }
        }
        (None, ground)
    }

    /// Entering placement: spawns a hidden post preview and moves the
    /// machine from Idle to PostOnly.
    pub fn select_barrier(&mut self) -> (p: PostId)
        requires
            old(self).wf(),
            old(self).state == PlacementState::Idle,
            old(self).graph.posts@.len() < usize::MAX,
        ensures
            final(self).wf(),
            p == old(self).graph.posts@.len(),
            final(self).state == (PlacementState::PostOnly { preview_post: p }),
            final(self).preview_post(p),
            final(self).pos(p) is None,
            final(self).snap is None,
            final(self).graph.posts@.len() == old(self).graph.posts@.len() + 1,
            final(self).graph.fences@ == old(self).graph.fences@,
            final(self).transforms@ == old(self).transforms@,
            final(self).preview_fences@ == old(self).preview_fences@,
            forall|q: PostId| q != p
                ==> #[trigger] final(self).graph.post_live(q) == old(self).graph.post_live(q),
            forall|q: PostId| q != p
                ==> #[trigger] final(self).graph.neighbors_of(q) == old(self).graph.neighbors_of(
                    q,
                ),
            forall|q: PostId| q != p && q < old(self).positions@.len()
                ==> #[trigger] final(self).pos(q) == old(self).pos(q),
            forall|q: PostId| q != p && q < old(self).preview_posts@.len()
                ==> #[trigger] final(self).preview_posts@[q as int] == old(
                    self,
                ).preview_posts@[q as int],
            chain_built(&old(self).graph) ==> chain_built(&final(self).graph),
            !crate::cycle::cyclic(&old(self).graph) ==> !crate::cycle::cyclic(&final(self).graph),
    {
        let p = self.spawn_post(None, true);
        let ghost mid = *self;
        self.state = PlacementState::PostOnly { preview_post: p };
        proof {
            assert(self.positions@ == mid.positions@);
            assert forall|q: PostId|
                q != p && q < old(self).positions@.len() implies #[trigger] self.pos(q) == old(
                self,
            ).pos(q) by {
                assert(mid.pos(q) == old(self).pos(q));
            }
            assert forall|q: PostId| #[trigger] self.permanent_post(q) implies self.pos(
                q,
            ).is_some() by {
                assert(mid.permanent_post(q));
                assert(mid.pos(q).is_some());
            }
            assert forall|q: PostId|
                #[trigger] self.graph.post_live(q) && q != p implies !self.preview_post(q) by {
                assert(old(self).graph.post_live(q));
                assert(!old(self).preview_post(q));
            }
            assert forall|f: FenceId| #[trigger] self.graph.fence_live(f) implies !self
                .preview_fence(f) by {
                assert(old(self).graph.fence_live(f));
            }
            assert(self.geometry_ok()) by {
                assert forall|f: FenceId|
                    #[trigger] self.graph.fence_live(f) && self.pos(self.graph.end_a(f)).is_some()
                        && self.pos(self.graph.end_b(f)).is_some() implies self.transform(f)
                    == Some(
                    transform_of(
                        self.pos(self.graph.end_a(f)).unwrap(),
                        self.pos(self.graph.end_b(f)).unwrap(),
                    ),
                ) by {
                    assert(mid.graph.fence_live(f));
                    assert(mid.pos(mid.graph.end_a(f)) == self.pos(self.graph.end_a(f)));
                    assert(mid.pos(mid.graph.end_b(f)) == self.pos(self.graph.end_b(f)));
                    assert(mid.transform(f) == self.transform(f));
                }
            }
            assert forall|g: FenceId| #[trigger] self.graph.fence_live(g) implies old(
                self,
            ).graph.fence_live(g) && self.graph.fences@[g as int] == old(
                self,
            ).graph.fences@[g as int] by {}
            crate::graph::lemma_store_sub_acyclic(&old(self).graph, &self.graph);
        }
        p
    }

    /// A cursor update for this tick. While a post preview is active it
    /// follows the ground point, hiding when there is none; while connecting,
    /// the snap resolver may lock the preview onto a permanent post, and the
    /// fence preview's geometry is re-derived whenever the preview is
    /// placed.
    pub fn cursor_move(&mut self, ground: Option<Vec3i>, hit: Option<PostId>)
        requires
            old(self).wf(),
            ground matches Some(v) ==> in_bounds(v),
        ensures
            final(self).wf(),
            final(self).state == old(self).state,
            final(self).graph == old(self).graph,
            final(self).preview_posts@ == old(self).preview_posts@,
            final(self).preview_fences@ == old(self).preview_fences@,
            chain_built(&old(self).graph) ==> chain_built(&final(self).graph),
            match old(self).state {
                PlacementState::Idle => *final(self) == *old(self),
                PlacementState::PostOnly { preview_post } => {
                    &&& final(self).pos(preview_post) == ground
                    &&& final(self).snap is None
                    &&& final(self).transforms@ == old(self).transforms@
                    &&& forall|q: PostId| q != preview_post && q < old(self).positions@.len()
                        ==> #[trigger] final(self).pos(q) == old(self).pos(q)
                },
                PlacementState::Connecting { anchor, preview_post, preview_fence } => {
                    let snapping = hit is Some && old(self).permanent_post(hit.unwrap());
                    let newpos = if snapping {
                        old(self).pos(hit.unwrap())
                    } else {
                        ground
                    };
                    &&& final(self).snap == (if snapping {
                        hit
                    } else {
                        None::<PostId>
                    })
                    &&& final(self).pos(preview_post) == newpos
                    &&& forall|q: PostId| q != preview_post && q < old(self).positions@.len()
                        ==> #[trigger] final(self).pos(q) == old(self).pos(q)
                    &&& newpos is Some ==> final(self).transform(preview_fence) == Some(
                        transform_of(old(self).pos(anchor).unwrap(), newpos.unwrap()),
                    )
                    &&& newpos is None ==> final(self).transform(preview_fence) == old(
                        self,
                    ).transform(preview_fence)
                    &&& forall|g: FenceId| g != preview_fence && g < old(self).transforms@.len()
                        ==> #[trigger] final(self).transform(g) == old(self).transform(g)
                },
            },
    {
        match self.state {
            PlacementState::Idle => {},
            PlacementState::PostOnly { preview_post } => {
                self.positions[preview_post] = ground;
                proof {
                    self.lemma_preview_post_detached(*old(self), preview_post);
                }
            },
            PlacementState::Connecting { anchor, preview_post, preview_fence } => {
                let (cand, newpos) = self.resolve_snap(ground, hit);
                self.snap = cand;
                self.positions[preview_post] = newpos;
                if newpos.is_some() {
                    let ap = match &self.positions[anchor] {
                        Some(v) => *v,
                        None => unreached(),
                    };
                    let np = match &newpos {
                        Some(v) => *v,
                        None => unreached(),
                    };
                    let t = derive_transform(ap, np);
                    self.transforms[preview_fence] = Some(t);
                }
                proof {
                    self.lemma_connecting_geometry(*old(self), anchor, preview_post, preview_fence);
                }
            },
        }
    }

    /// Fences touch the post preview of the PostOnly state through no list,
    /// so its position is free to move without touching any geometry.
    proof fn lemma_preview_post_detached(&self, prev: Placement, pp: PostId)
        requires
            prev.wf(),
            prev.state == (PlacementState::PostOnly { preview_post: pp }),
            self.graph == prev.graph,
            self.transforms@ == prev.transforms@,
            self.preview_posts@ == prev.preview_posts@,
            self.preview_fences@ == prev.preview_fences@,
            self.state == prev.state,
            self.snap == prev.snap,
            self.positions@.len() == prev.positions@.len(),
            forall|q: int| 0 <= q < prev.positions@.len() && q != pp
                ==> #[trigger] self.positions@[q] == prev.positions@[q],
            self.positions@[pp as int].is_some() ==> in_bounds(self.positions@[pp as int].unwrap()),
        ensures
            self.wf(),
    {
        assert forall|q: PostId| #[trigger] self.permanent_post(q) implies self.pos(
            q,
        ).is_some() by {
            assert(prev.permanent_post(q));
            assert(q != pp);
        }
        assert forall|f: FenceId|
            #[trigger] self.graph.fence_live(f) && self.pos(self.graph.end_a(f)).is_some()
                && self.pos(self.graph.end_b(f)).is_some() implies self.transform(f) == Some(
            transform_of(
                self.pos(self.graph.end_a(f)).unwrap(),
                self.pos(self.graph.end_b(f)).unwrap(),
            ),
        ) by {
            assert(self.graph.end_a(f) != pp && self.graph.end_b(f) != pp) by {
                assert(self.graph.fence_ok(f));
                if self.graph.end_a(f) == pp || self.graph.end_b(f) == pp {
                    assert(self.graph.incident(pp).contains(f));
                }
            }
            assert(prev.pos(prev.graph.end_a(f)) == self.pos(self.graph.end_a(f)));
            assert(prev.pos(prev.graph.end_b(f)) == self.pos(self.graph.end_b(f)));
        }
    }

    /// While connecting, only the fence preview touches the post preview, so
    /// re-deriving just that fence restores the geometry invariant.
    proof fn lemma_connecting_geometry(
        &self,
        prev: Placement,
        anchor: PostId,
        pp: PostId,
        pf: FenceId,
    )
        requires
            prev.wf(),
            prev.state == (PlacementState::Connecting {
                anchor,
                preview_post: pp,
                preview_fence: pf,
            }),
            self.graph == prev.graph,
            self.preview_posts@ == prev.preview_posts@,
            self.preview_fences@ == prev.preview_fences@,
            self.state == prev.state,
            self.snap matches Some(c) ==> prev.permanent_post(c),
            self.positions@.len() == prev.positions@.len(),
            self.transforms@.len() == prev.transforms@.len(),
            forall|q: int| 0 <= q < prev.positions@.len() && q != pp
                ==> #[trigger] self.positions@[q] == prev.positions@[q],
            self.positions@[pp as int].is_some() ==> in_bounds(self.positions@[pp as int].unwrap()),
            forall|g: int| 0 <= g < prev.transforms@.len() && g != pf
                ==> #[trigger] self.transforms@[g] == prev.transforms@[g],
            self.pos(pp).is_some() ==> self.transform(pf) == Some(
                transform_of(self.pos(anchor).unwrap(), self.pos(pp).unwrap()),
            ),
            self.pos(pp).is_none() ==> self.transforms@[pf as int] == prev.transforms@[pf as int],
        ensures
            self.wf(),
    {
        assert(anchor != pp);
        assert forall|q: PostId| #[trigger] self.permanent_post(q) implies self.pos(
            q,
        ).is_some() by {
            assert(prev.permanent_post(q));
            assert(q != pp);
        }
        assert forall|f: FenceId|
            #[trigger] self.graph.fence_live(f) && self.pos(self.graph.end_a(f)).is_some()
                && self.pos(self.graph.end_b(f)).is_some() implies self.transform(f) == Some(
            transform_of(
                self.pos(self.graph.end_a(f)).unwrap(),
                self.pos(self.graph.end_b(f)).unwrap(),
            ),
        ) by {
            if f != pf {
                assert(self.graph.end_a(f) != pp && self.graph.end_b(f) != pp) by {
                    assert(self.graph.fence_ok(f));
                    if self.graph.end_a(f) == pp || self.graph.end_b(f) == pp {
                        assert(self.graph.incident(pp).contains(f));
                        assert(self.graph.incident(pp) == seq![pf]);
                    }
                }
                assert(prev.pos(prev.graph.end_a(f)) == self.pos(self.graph.end_a(f)));
                assert(prev.pos(prev.graph.end_b(f)) == self.pos(self.graph.end_b(f)));
            } else {
                assert(self.graph.end_a(pf) == anchor && self.graph.end_b(pf) == pp);
                assert(self.pos(anchor) == prev.pos(anchor));
            }
        }
    }

    /// Moving a post re-derives the geometry of exactly the fences incident
    /// to it, and of no others: every other fence keeps its stored transform
    /// bit for bit.
    pub fn move_post(&mut self, p: PostId, to: Vec3i)
        requires
            old(self).wf(),
            old(self).graph.post_live(p),
            in_bounds(to),
        ensures
            final(self).wf(),
            final(self).graph == old(self).graph,
            final(self).state == old(self).state,
            final(self).snap == old(self).snap,
            final(self).preview_posts@ == old(self).preview_posts@,
            final(self).preview_fences@ == old(self).preview_fences@,
            final(self).pos(p) == Some(to),
            forall|q: PostId| q != p && q < old(self).positions@.len()
                ==> #[trigger] final(self).pos(q) == old(self).pos(q),
            forall|f: FenceId|
                #[trigger] old(self).graph.fence_live(f) && !old(self).graph.touches(f, p)
                    ==> final(self).transform(f) == old(self).transform(f),
            forall|f: FenceId|
                #[trigger] old(self).graph.fence_live(f) && old(self).graph.touches(f, p)
                    && final(self).pos(old(self).graph.end_a(f)).is_some() && final(self).pos(
                    old(self).graph.end_b(f),
                ).is_some() ==> final(self).transform(f) == Some(
                    transform_of(
                        final(self).pos(old(self).graph.end_a(f)).unwrap(),
                        final(self).pos(old(self).graph.end_b(f)).unwrap(),
                    ),
                ),
    {
        self.positions[p] = Some(to);
        let deg = self.graph.post_degree(p);
        let mut i: usize = 0;
        while i < deg
            invariant
                self.graph == old(self).graph,
                self.graph.wf(),
                self.graph.post_live(p),
                deg == self.graph.incident(p).len(),
                i <= deg,
                self.state == old(self).state,
                self.snap == old(self).snap,
                self.preview_posts@ == old(self).preview_posts@,
                self.preview_fences@ == old(self).preview_fences@,
                self.positions@ == old(self).positions@.update(p as int, Some(to)),
                self.positions@.len() == self.graph.posts@.len(),
                self.transforms@.len() == self.graph.fences@.len(),
                in_bounds(to),
                forall|q: int|
                    0 <= q < self.positions@.len() && (#[trigger] self.positions@[q]).is_some()
                        ==> in_bounds(self.positions@[q].unwrap()),
                forall|g: FenceId| g < self.transforms@.len() && !self.graph.incident(p).take(
                    i as int,
                ).contains(g) ==> #[trigger] self.transforms@[g as int] == old(
                    self,
                ).transforms@[g as int],
                forall|j: int|
                    0 <= j < i ==> {
                        let f = #[trigger] self.graph.incident(p)[j];
                        (self.pos(self.graph.end_a(f)).is_some() && self.pos(
                            self.graph.end_b(f),
                        ).is_some()) ==> self.transform(f) == Some(
                            transform_of(
                                self.pos(self.graph.end_a(f)).unwrap(),
                                self.pos(self.graph.end_b(f)).unwrap(),
                            ),
                        )
                    },
                forall|j: int|
                    0 <= j < i ==> {
                        let f = #[trigger] self.graph.incident(p)[j];
                        !(self.pos(self.graph.end_a(f)).is_some() && self.pos(
                            self.graph.end_b(f),
                        ).is_some()) ==> self.transforms@[f as int] == old(
                            self,
                        ).transforms@[f as int]
                    },
            decreases deg - i,
        {
            let f = match &self.graph.posts[p] {
                Some(n) => n.fences[i],
                None => unreached(),
            };
            assert(f == self.graph.incident(p)[i as int]);
            assert(self.graph.fence_live(f) && self.graph.touches(f, p));
            let (a, b) = self.graph.endpoints(f);
            let pa = self.positions[a];
            let pb = self.positions[b];
            let ghost pre_t = self.transforms@;
            match (pa, pb) {
                (Some(va), Some(vb)) => {
                    let t = derive_transform(va, vb);
                    self.transforms[f] = Some(t);
                },
                _ => {},
            }
            proof {
                assert forall|g: FenceId|
                    g < self.transforms@.len() && !self.graph.incident(p).take(
                        i + 1,
                    ).contains(g) implies #[trigger] self.transforms@[g as int] == old(
                    self,
                ).transforms@[g as int] by {
                    assert(g != f) by {
                        if g == f {
                            assert(self.graph.incident(p).take(i + 1)[i as int] == f);
                        }
                    }
                    assert(self.transforms@[g as int] == pre_t[g as int]);
                    assert(!self.graph.incident(p).take(i as int).contains(g)) by {
                        if self.graph.incident(p).take(i as int).contains(g) {
                            let j = choose|j: int|
                                0 <= j < i && self.graph.incident(p).take(i as int)[j] == g;
                            assert(self.graph.incident(p).take(i + 1)[j] == g);
                        }
                    }
                }
                assert forall|j: int| 0 <= j < i + 1 implies {
                    let ff = #[trigger] self.graph.incident(p)[j];
                    ((self.pos(self.graph.end_a(ff)).is_some() && self.pos(
                        self.graph.end_b(ff),
                    ).is_some()) ==> self.transform(ff) == Some(
                        transform_of(
                            self.pos(self.graph.end_a(ff)).unwrap(),
                            self.pos(self.graph.end_b(ff)).unwrap(),
                        ),
                    )) && (!(self.pos(self.graph.end_a(ff)).is_some() && self.pos(
                        self.graph.end_b(ff),
                    ).is_some()) ==> self.transforms@[ff as int] == old(
                        self,
                    ).transforms@[ff as int])
                } by {
                    let ff = self.graph.incident(p)[j];
                    if j < i {
                        if ff != f {
                            assert(self.transforms@[ff as int] == pre_t[ff as int]);
                        }
                    } else {
                        assert(ff == f);
                    }
                }
            }
            i = i + 1;
        }
        proof {
            self.lemma_move_post_wf(*old(self), p, to);
        }
    }

    /// After re-deriving every incident fence, the geometry invariant holds
    /// again.
    proof fn lemma_move_post_wf(&self, prev: Placement, p: PostId, to: Vec3i)
        requires
            prev.wf(),
            prev.graph.post_live(p),
            in_bounds(to),
            self.graph == prev.graph,
            self.state == prev.state,
            self.snap == prev.snap,
            self.preview_posts@ == prev.preview_posts@,
            self.preview_fences@ == prev.preview_fences@,
            self.positions@ == prev.positions@.update(p as int, Some(to)),
            self.transforms@.len() == prev.transforms@.len(),
            forall|g: FenceId| g < self.transforms@.len() && !self.graph.incident(p).contains(g)
                ==> #[trigger] self.transforms@[g as int] == prev.transforms@[g as int],
            forall|j: int|
                0 <= j < self.graph.incident(p).len() ==> {
                    let f = #[trigger] self.graph.incident(p)[j];
                    (self.pos(self.graph.end_a(f)).is_some() && self.pos(
                        self.graph.end_b(f),
                    ).is_some()) ==> self.transform(f) == Some(
                        transform_of(
                            self.pos(self.graph.end_a(f)).unwrap(),
                            self.pos(self.graph.end_b(f)).unwrap(),
                        ),
                    )
                },
        ensures
            self.wf(),
    {
        assert forall|q: PostId| #[trigger] self.permanent_post(q) implies self.pos(
            q,
        ).is_some() by {
            assert(prev.permanent_post(q));
            if q != p {
                assert(self.pos(q) == prev.pos(q));
            }
        }
        assert forall|f: FenceId|
            #[trigger] self.graph.fence_live(f) && self.pos(self.graph.end_a(f)).is_some()
                && self.pos(self.graph.end_b(f)).is_some() implies self.transform(f) == Some(
            transform_of(
                self.pos(self.graph.end_a(f)).unwrap(),
                self.pos(self.graph.end_b(f)).unwrap(),
            ),
        ) by {
            assert(self.graph.fence_ok(f));
            if self.graph.touches(f, p) {
                assert(self.graph.incident(p).contains(f));
                let j = choose|j: int|
                    0 <= j < self.graph.incident(p).len() && self.graph.incident(p)[j] == f;
            } else {
                assert(self.graph.end_a(f) != p && self.graph.end_b(f) != p);
                assert(self.pos(self.graph.end_a(f)) == prev.pos(prev.graph.end_a(f)));
                assert(self.pos(self.graph.end_b(f)) == prev.pos(prev.graph.end_b(f)));
                assert(!self.graph.incident(p).contains(f)) by {
                    if self.graph.incident(p).contains(f) {
                        let j = choose|j: int|
                            0 <= j < self.graph.incident(p).len() && self.graph.incident(p)[j]
                                == f;
                    }
                }
            }
        }
    }

    /// Escape or deselect: despawns every outstanding preview entity and
    /// returns the machine to Idle; permanent entities are untouched, and a
    /// neighbor query against a despawned preview handle yields nothing.
    pub fn cancel(&mut self)
        requires
            old(self).wf(),
        ensures
            final(self).wf(),
            final(self).state == PlacementState::Idle,
            final(self).snap is None,
            final(self).positions@.len() == old(self).positions@.len(),
            final(self).transforms@ == old(self).transforms@,
            forall|q: PostId| #[trigger] final(self).graph.post_live(q) == old(
                self,
            ).permanent_post(q),
            forall|g: FenceId| #[trigger] final(self).graph.fence_live(g) == old(
                self,
            ).permanent_fence(g),
            forall|q: PostId| old(self).permanent_post(q)
                ==> #[trigger] final(self).pos(q) == old(self).pos(q) && final(self).permanent_post(
                    q,
                ),
            forall|g: FenceId| old(self).permanent_fence(g)
                ==> #[trigger] final(self).graph.fences@[g as int] == old(
                    self,
                ).graph.fences@[g as int] && final(self).permanent_fence(g),
            forall|q: PostId, g: FenceId| old(self).permanent_post(q)
                ==> (#[trigger] final(self).graph.incident(q).contains(g) <==> old(
                    self,
                ).graph.incident(q).contains(g) && old(self).permanent_fence(g)),
            match old(self).state {
                PlacementState::Idle => *final(self) == *old(self),
                PlacementState::PostOnly { preview_post } => !final(self).graph.post_live(
                    preview_post,
                ) && final(self).graph.neighbors_of(preview_post) == Seq::<PostId>::empty(),
                PlacementState::Connecting { anchor, preview_post, preview_fence } => {
                    &&& !final(self).graph.post_live(preview_post)
                    &&& !final(self).graph.fence_live(preview_fence)
                    &&& final(self).graph.neighbors_of(preview_post) == Seq::<PostId>::empty()
                },
            },
            chain_built(&old(self).graph) ==> chain_built(&final(self).graph),
            !crate::cycle::cyclic(&old(self).graph) ==> !crate::cycle::cyclic(&final(self).graph),
    {
        let ghost prev = *old(self);
        match self.state {
            PlacementState::Idle => {
                proof {
                    assert forall|q: PostId, g: FenceId|
                        prev.permanent_post(q) && #[trigger] self.graph.incident(q).contains(
                            g,
                        ) implies self.permanent_fence(g) by {
                        let i = choose|i: int|
                            0 <= i < self.graph.incident(q).len() && self.graph.incident(q)[i]
                                == g;
                        assert(self.graph.fence_live(g));
                    }
                }
            },
            PlacementState::PostOnly { preview_post } => {
                self.graph.remove_post(preview_post);
                self.state = PlacementState::Idle;
                proof {
                    self.lemma_cancel_wf(prev, preview_post, None);
                    assert forall|q: PostId, g: FenceId|
                        prev.permanent_post(q) implies (#[trigger] self.graph.incident(q).contains(
                        g,
                    ) <==> prev.graph.incident(q).contains(g) && prev.permanent_fence(g)) by {
                        assert(q != preview_post);
                        if prev.graph.incident(q).contains(g) {
                            let i = choose|i: int|
                                0 <= i < prev.graph.incident(q).len() && prev.graph.incident(
                                    q,
                                )[i] == g;
                            assert(prev.graph.fence_live(g));
                            assert(!prev.preview_fence(g));
                            assert(!prev.graph.touches(g, preview_post)) by {
                                if prev.graph.touches(g, preview_post) {
                                    assert(prev.graph.incident(preview_post).contains(g));
                                }
                            }
                        }
                    }
                }
            },
            PlacementState::Connecting { anchor, preview_post, preview_fence } => {
                self.graph.remove_fence(preview_fence);
                assert(self.graph.incident(preview_post) =~= Seq::<FenceId>::empty()) by {
                    assert(prev.graph.incident(preview_post) == seq![preview_fence]);
                    let i = choose|i: int|
                        0 <= i < prev.graph.incident(preview_post).len() && prev.graph.incident(
                            preview_post,
                        )[i] == preview_fence && self.graph.incident(preview_post)
                            == prev.graph.incident(preview_post).remove(i);
                }
                let ghost mid = self.graph;
                self.graph.remove_post(preview_post);
                self.snap = None;
                self.state = PlacementState::Idle;
                proof {
                    self.lemma_cancel_wf(prev, preview_post, Some(preview_fence));
                    assert forall|q: PostId, g: FenceId|
                        prev.permanent_post(q) implies (#[trigger] self.graph.incident(q).contains(
                        g,
                    ) <==> prev.graph.incident(q).contains(g) && prev.permanent_fence(g)) by {
                        assert(q != preview_post);
                        // Relate the list before and after the fence removal.
                        assert(mid.incident(q).contains(g) <==> prev.graph.incident(q).contains(g)
                            && g != preview_fence) by {
                            if q == anchor {
                                let i = choose|i: int|
                                    0 <= i < prev.graph.incident(anchor).len()
                                        && prev.graph.incident(anchor)[i] == preview_fence
                                        && mid.incident(anchor) == prev.graph.incident(
                                        anchor,
                                    ).remove(i);
                                crate::graph::lemma_remove_contains(
                                    prev.graph.incident(anchor),
                                    i,
                                    g,
                                );
                            } else {
                                assert(mid.incident(q) == prev.graph.incident(q));
                                if prev.graph.incident(q).contains(g) && g == preview_fence {
                                    let i = choose|i: int|
                                        0 <= i < prev.graph.incident(q).len()
                                            && prev.graph.incident(q)[i] == g;
                                    assert(prev.graph.touches(preview_fence, q));
                                }
                            }
                        }
                        // The post removal cannot take away anything more:
                        // nothing live still touches the detached preview.
                        assert(self.graph.incident(q).contains(g) <==> mid.incident(q).contains(g)
                            && !mid.touches(g, preview_post));
                        if mid.incident(q).contains(g) {
                            let i = choose|i: int|
                                0 <= i < mid.incident(q).len() && mid.incident(q)[i] == g;
                            assert(mid.fence_live(g));
                            assert(!mid.touches(g, preview_post)) by {
                                if mid.touches(g, preview_post) {
                                    assert(mid.incident(preview_post).contains(g));
                                }
                            }
                        }
                        if prev.graph.incident(q).contains(g) {
                            let i = choose|i: int|
                                0 <= i < prev.graph.incident(q).len() && prev.graph.incident(
                                    q,
                                )[i] == g;
                            assert(prev.graph.fence_live(g));
                            if g != preview_fence {
                                assert(!prev.preview_fence(g));
                            }
                        }
                    }
                }
            },
        }
        proof {
            assert forall|g: FenceId| #[trigger] self.graph.fence_live(g) implies
                prev.graph.fence_live(g) && self.graph.fences@[g as int]
                == prev.graph.fences@[g as int] by {
                assert(prev.permanent_fence(g));
            }
            crate::graph::lemma_store_sub_acyclic(&prev.graph, &self.graph);
        }
    }

    /// Re-derives the spatial invariants across a change that kept every
    /// spatial field's value.
    proof fn lemma_restate_base(&self, mid: Placement)
        requires
            mid.base_wf(),
            self.graph == mid.graph,
            self.positions@ == mid.positions@,
            self.transforms@ == mid.transforms@,
            self.preview_posts@ == mid.preview_posts@,
            self.preview_fences@ == mid.preview_fences@,
        ensures
            self.base_wf(),
    {
        assert forall|q: PostId| #[trigger] self.permanent_post(q) implies self.pos(
            q,
        ).is_some() by {
            assert(mid.permanent_post(q));
            assert(mid.pos(q).is_some());
        }
        assert forall|f: FenceId|
            #[trigger] self.graph.fence_live(f) && self.pos(self.graph.end_a(f)).is_some()
                && self.pos(self.graph.end_b(f)).is_some() implies self.transform(f) == Some(
            transform_of(
                self.pos(self.graph.end_a(f)).unwrap(),
                self.pos(self.graph.end_b(f)).unwrap(),
            ),
        ) by {
            assert(mid.graph.fence_live(f));
            assert(mid.pos(mid.graph.end_a(f)) == self.pos(self.graph.end_a(f)));
            assert(mid.pos(mid.graph.end_b(f)) == self.pos(self.graph.end_b(f)));
            assert(mid.transform(f) == self.transform(f));
        }
    }

    /// Commit while a single post preview is active: the preview becomes
    /// permanent at its position, and fresh fence and post previews are
    /// anchored at it.
    fn commit_post_only(&mut self, pp: PostId) -> (r: CommitOutcome)
        requires
            old(self).wf(),
            old(self).state == (PlacementState::PostOnly { preview_post: pp }),
            old(self).pos(pp).is_some(),
            old(self).graph.posts@.len() < usize::MAX,
            old(self).graph.fences@.len() < usize::MAX,
        ensures
            final(self).wf(),
            keeps_permanents(*old(self), *final(self)),
            chain_built(&old(self).graph) ==> chain_built(&final(self).graph),
            !crate::cycle::cyclic(&old(self).graph) ==> !crate::cycle::cyclic(&final(self).graph),
            r == (CommitOutcome::PostPlaced {
                post: pp,
                fence_preview: old(self).graph.fences@.len() as usize,
                post_preview: old(self).graph.posts@.len() as usize,
            }),
            ({
                let np = old(self).graph.posts@.len() as usize;
                let nf = old(self).graph.fences@.len() as usize;
                &&& final(self).state == (PlacementState::Connecting {
                    anchor: pp,
                    preview_post: np,
                    preview_fence: nf,
                })
                &&& final(self).permanent_post(pp)
                &&& final(self).pos(pp) == old(self).pos(pp)
                &&& final(self).preview_post(np)
                &&& final(self).pos(np) == old(self).pos(pp)
                &&& final(self).preview_fence(nf)
                &&& final(self).graph.end_a(nf) == pp
                &&& final(self).graph.end_b(nf) == np
                &&& final(self).graph.posts@.len() == old(self).graph.posts@.len() + 1
                &&& final(self).graph.fences@.len() == old(self).graph.fences@.len() + 1
            }),
    {
        let ghost prev = *old(self);
        self.preview_posts[pp] = false;
        let ghost s1 = *self;
        proof {
            assert forall|q: PostId| #[trigger] self.permanent_post(q) implies self.pos(
                q,
            ).is_some() by {
                if q != pp {
                    assert(prev.permanent_post(q));
                }
            }
            assert(self.base_wf()) by {
                self.lemma_restate_flags(prev);
            }
        }
        let v = match &self.positions[pp] {
            Some(v) => *v,
            None => unreached(),
        };
        let np = self.spawn_post(Some(v), true);
        let ghost s2 = *self;
        let nf = self.spawn_fence(pp, np, true);
        let ghost mid = *self;
        self.state = PlacementState::Connecting { anchor: pp, preview_post: np, preview_fence: nf };
        proof {
            self.lemma_restate_base(mid);
            assert(self.graph.incident(np) =~= seq![nf]);
            assert forall|q: PostId|
                q != np && q < prev.positions@.len() implies #[trigger] self.pos(q) == prev.pos(
                q,
            ) by {
                assert(self.pos(q) == mid.pos(q));
                assert(mid.pos(q) == s2.pos(q));
                assert(s2.pos(q) == s1.pos(q));
                assert(s1.pos(q) == prev.pos(q));
            }
            assert forall|q: PostId|
                q != np && q != pp && q < prev.preview_posts@.len()
                    implies #[trigger] self.preview_posts@[q as int]
                    == prev.preview_posts@[q as int] by {
                assert(self.preview_posts@[q as int] == s2.preview_posts@[q as int]);
                assert(s2.preview_posts@[q as int] == s1.preview_posts@[q as int]);
                assert(s1.preview_posts@[q as int] == prev.preview_posts@[q as int]);
            }
            assert forall|g: FenceId|
                g != nf && g < prev.preview_fences@.len() implies #[trigger] self
                .preview_fences@[g as int] == prev.preview_fences@[g as int] by {
                assert(self.preview_fences@[g as int] == s2.preview_fences@[g as int]);
                assert(s2.preview_fences@[g as int] == prev.preview_fences@[g as int]);
            }
            assert forall|g: FenceId|
                g != nf && g < prev.transforms@.len() implies #[trigger] self.transform(g)
                    == prev.transform(g) by {
                assert(self.transform(g) == mid.transform(g));
                assert(mid.transform(g) == s2.transform(g));
            }
            assert forall|q: PostId|
                #[trigger] self.graph.post_live(q) && q != np implies !self.preview_post(q) by {
                if q != pp {
                    assert(prev.graph.post_live(q));
                    assert(!prev.preview_post(q));
                }
            }
            assert forall|g: FenceId|
                #[trigger] self.graph.fence_live(g) && g != nf implies !self.preview_fence(g) by {
                assert(prev.graph.fence_live(g));
                assert(!prev.preview_fence(g));
            }
            assert(keeps_permanents(prev, *self)) by {
                assert forall|q: PostId| #[trigger] prev.permanent_post(q) implies self
                    .permanent_post(q) && self.pos(q) == prev.pos(q) by {
                    assert(q != np);
                }
                assert forall|g: FenceId| #[trigger] prev.permanent_fence(g) implies self
                    .permanent_fence(g) && self.graph.fences@[g as int]
                    == prev.graph.fences@[g as int] && self.transform(g) == prev.transform(g) by {
                    assert(g != nf);
                }
            }
            if chain_built(&prev.graph) {
                assert(chain_built(&s2.graph));
                assert forall|g: FenceId| #[trigger] s2.graph.fence_live(g) implies s2.graph.end_b(
                    g,
                ) != np by {
                    assert(s2.graph.fences@[g as int] == prev.graph.fences@[g as int]);
                    assert(prev.graph.fence_live(g));
                    assert(prev.graph.fence_ok(g));
                    assert(prev.graph.post_live(prev.graph.end_b(g)));
                    assert(prev.graph.end_b(g) < np);
                }
                assert(chain_built(&self.graph));
            }
            if !crate::cycle::cyclic(&prev.graph) {
                assert(s1.graph == prev.graph);
                assert forall|g: FenceId| #[trigger] s2.graph.fence_live(g) implies
                    s1.graph.fence_live(g) && s2.graph.fences@[g as int]
                    == s1.graph.fences@[g as int] by {}
                crate::graph::lemma_store_sub_acyclic(&s1.graph, &s2.graph);
                crate::graph::lemma_store_graph_laws(&s2.graph);
                crate::graph::lemma_store_graph_laws(&mid.graph);
                assert(s2.graph.neighbors_of(np) =~= Seq::<PostId>::empty());
                crate::cycle::lemma_isolated_unconnected(&s2.graph, pp, np);
                crate::cycle::lemma_add_edge_acyclic(&s2.graph, &mid.graph, pp, np);
                assert(!crate::cycle::cyclic(&self.graph));
            }
        }
        CommitOutcome::PostPlaced { post: pp, fence_preview: nf, post_preview: np }
    }

    /// Commit while connecting with no snap candidate: the previews become a
    /// permanent post and fence, and fresh previews are anchored at the new
    /// post.
    fn commit_extend(&mut self, anchor: PostId, pp: PostId, pf: FenceId) -> (r: CommitOutcome)
        requires
            old(self).wf(),
            old(self).state == (PlacementState::Connecting {
                anchor,
                preview_post: pp,
                preview_fence: pf,
            }),
            old(self).snap is None,
            old(self).pos(pp).is_some(),
            old(self).graph.posts@.len() < usize::MAX,
            old(self).graph.fences@.len() < usize::MAX,
        ensures
            final(self).wf(),
            keeps_permanents(*old(self), *final(self)),
            chain_built(&old(self).graph) ==> chain_built(&final(self).graph),
            !crate::cycle::cyclic(&old(self).graph) ==> !crate::cycle::cyclic(&final(self).graph),
            r == (CommitOutcome::Extended {
                post: pp,
                fence: pf,
                fence_preview: old(self).graph.fences@.len() as usize,
                post_preview: old(self).graph.posts@.len() as usize,
            }),
            ({
                let np = old(self).graph.posts@.len() as usize;
                let nf = old(self).graph.fences@.len() as usize;
                &&& final(self).state == (PlacementState::Connecting {
                    anchor: pp,
                    preview_post: np,
                    preview_fence: nf,
                })
                &&& final(self).permanent_post(pp)
                &&& final(self).pos(pp) == old(self).pos(pp)
                &&& final(self).permanent_fence(pf)
                &&& final(self).graph.fences@[pf as int] == old(self).graph.fences@[pf as int]
                &&& final(self).transform(pf) == old(self).transform(pf)
                &&& final(self).preview_post(np)
                &&& final(self).pos(np) == old(self).pos(pp)
                &&& final(self).preview_fence(nf)
                &&& final(self).graph.end_a(nf) == pp
                &&& final(self).graph.end_b(nf) == np
                &&& final(self).graph.posts@.len() == old(self).graph.posts@.len() + 1
                &&& final(self).graph.fences@.len() == old(self).graph.fences@.len() + 1
            }),
    {
        let ghost prev = *old(self);
        self.preview_posts[pp] = false;
        self.preview_fences[pf] = false;
        let ghost s1 = *self;
        proof {
            assert forall|q: PostId| #[trigger] self.permanent_post(q) implies self.pos(
                q,
            ).is_some() by {
                if q != pp {
                    assert(prev.permanent_post(q));
                }
            }
            assert(self.base_wf()) by {
                self.lemma_restate_flags(prev);
            }
        }
        let v = match &self.positions[pp] {
            Some(v) => *v,
            None => unreached(),
        };
        let np = self.spawn_post(Some(v), true);
        let ghost s2 = *self;
        let nf = self.spawn_fence(pp, np, true);
        let ghost mid = *self;
        self.state = PlacementState::Connecting { anchor: pp, preview_post: np, preview_fence: nf };
        proof {
            self.lemma_restate_base(mid);
            assert(self.graph.incident(np) =~= seq![nf]);
            assert forall|q: PostId|
                q != np && q < prev.positions@.len() implies #[trigger] self.pos(q) == prev.pos(
                q,
            ) by {
                assert(self.pos(q) == mid.pos(q));
                assert(mid.pos(q) == s2.pos(q));
                assert(s2.pos(q) == s1.pos(q));
                assert(s1.pos(q) == prev.pos(q));
            }
            assert forall|q: PostId|
                q != np && q != pp && q < prev.preview_posts@.len()
                    implies #[trigger] self.preview_posts@[q as int]
                    == prev.preview_posts@[q as int] by {
                assert(self.preview_posts@[q as int] == s2.preview_posts@[q as int]);
                assert(s2.preview_posts@[q as int] == s1.preview_posts@[q as int]);
                assert(s1.preview_posts@[q as int] == prev.preview_posts@[q as int]);
            }
            assert(self.preview_posts@[pp as int] == false) by {
                assert(self.preview_posts@[pp as int] == s2.preview_posts@[pp as int]);
                assert(s2.preview_posts@[pp as int] == s1.preview_posts@[pp as int]);
            }
            assert forall|g: FenceId|
                g != nf && g != pf && g < prev.preview_fences@.len() implies #[trigger] self
                .preview_fences@[g as int] == prev.preview_fences@[g as int] by {
                assert(self.preview_fences@[g as int] == s2.preview_fences@[g as int]);
                assert(s2.preview_fences@[g as int] == s1.preview_fences@[g as int]);
                assert(s1.preview_fences@[g as int] == prev.preview_fences@[g as int]);
            }
            assert(self.preview_fences@[pf as int] == false) by {
                assert(self.preview_fences@[pf as int] == s2.preview_fences@[pf as int]);
                assert(s2.preview_fences@[pf as int] == s1.preview_fences@[pf as int]);
            }
            assert forall|g: FenceId|
                g != nf && g < prev.transforms@.len() implies #[trigger] self.transform(g)
                    == prev.transform(g) by {
                assert(self.transform(g) == mid.transform(g));
                assert(mid.transform(g) == s2.transform(g));
            }
            assert forall|g: FenceId|
                g != nf && prev.graph.fence_live(g) implies #[trigger] self.graph.fences@[g as int]
                    == prev.graph.fences@[g as int] by {
                assert(s2.graph.fences@[g as int] == prev.graph.fences@[g as int]);
            }
            assert forall|q: PostId|
                #[trigger] self.graph.post_live(q) && q != np implies !self.preview_post(q) by {
                if q != pp {
                    assert(prev.graph.post_live(q));
                    assert(!prev.preview_post(q));
                }
            }
            assert forall|g: FenceId|
                #[trigger] self.graph.fence_live(g) && g != nf implies !self.preview_fence(g) by {
                if g != pf {
                    assert(prev.graph.fence_live(g));
                    assert(!prev.preview_fence(g));
                }
            }
            assert(keeps_permanents(prev, *self)) by {
                assert forall|q: PostId| #[trigger] prev.permanent_post(q) implies self
                    .permanent_post(q) && self.pos(q) == prev.pos(q) by {
                    assert(q != np);
                    if q != pp {
                        assert(self.preview_posts@[q as int] == prev.preview_posts@[q as int]);
                    }
                }
                assert forall|g: FenceId| #[trigger] prev.permanent_fence(g) implies self
                    .permanent_fence(g) && self.graph.fences@[g as int]
                    == prev.graph.fences@[g as int] && self.transform(g) == prev.transform(g) by {
                    assert(g != nf);
                    if g != pf {
                        assert(self.preview_fences@[g as int] == prev.preview_fences@[g as int]);
                    }
                }
            }
            if chain_built(&prev.graph) {
                assert(chain_built(&s2.graph)) by {
                    assert forall|g: FenceId| #[trigger] s2.graph.fence_live(g) implies prev
                        .graph.fence_live(g) && s2.graph.end_a(g) == prev.graph.end_a(g)
                        && s2.graph.end_b(g) == prev.graph.end_b(g) by {
                        assert(s2.graph.fences@[g as int] == prev.graph.fences@[g as int]);
                    }
                }
                assert forall|g: FenceId| #[trigger] s2.graph.fence_live(g) implies s2.graph.end_b(
                    g,
                ) != np by {
                    assert(s2.graph.fences@[g as int] == prev.graph.fences@[g as int]);
                    assert(prev.graph.fence_live(g));
                    assert(prev.graph.fence_ok(g));
                    assert(prev.graph.post_live(prev.graph.end_b(g)));
                    assert(prev.graph.end_b(g) < np);
                }
                assert(chain_built(&self.graph));
            }
            if !crate::cycle::cyclic(&prev.graph) {
                assert(s1.graph == prev.graph);
                assert forall|g: FenceId| #[trigger] s2.graph.fence_live(g) implies
                    s1.graph.fence_live(g) && s2.graph.fences@[g as int]
                    == s1.graph.fences@[g as int] by {}
                crate::graph::lemma_store_sub_acyclic(&s1.graph, &s2.graph);
                crate::graph::lemma_store_graph_laws(&s2.graph);
                crate::graph::lemma_store_graph_laws(&mid.graph);
                assert(s2.graph.neighbors_of(np) =~= Seq::<PostId>::empty());
                crate::cycle::lemma_isolated_unconnected(&s2.graph, pp, np);
                crate::cycle::lemma_add_edge_acyclic(&s2.graph, &mid.graph, pp, np);
                assert(!crate::cycle::cyclic(&self.graph));
            }
        }
        CommitOutcome::Extended { post: pp, fence: pf, fence_preview: nf, post_preview: np }
    }

    /// Commit while connecting with a snap candidate: a permanent fence now
    /// connects the previous post directly to the candidate, the previews
    /// are despawned, the cycle detector runs from the candidate, and the
    /// machine returns to Idle.
    fn commit_snap(&mut self, anchor: PostId, pp: PostId, pf: FenceId, cand: PostId) -> (r:
        CommitOutcome)
        requires
            old(self).wf(),
            old(self).state == (PlacementState::Connecting {
                anchor,
                preview_post: pp,
                preview_fence: pf,
            }),
            old(self).snap == Some(cand),
            cand != anchor,
            old(self).graph.fences@.len() < usize::MAX,
        ensures
            final(self).wf(),
            keeps_permanents(*old(self), *final(self)),
            final(self).state == PlacementState::Idle,
            final(self).snap is None,
            (!crate::cycle::cyclic(&old(self).graph) && !crate::cycle::connected(
                &old(self).graph,
                anchor,
                cand,
            )) ==> !crate::cycle::cyclic(&final(self).graph),
            (crate::cycle::connected(&old(self).graph, anchor, cand) && !old(
                self,
            ).graph.neighbors_of(anchor).contains(cand)) ==> crate::cycle::cycle_through(
                &final(self).graph,
                cand,
            ),
            ({
                let nf = old(self).graph.fences@.len() as usize;
                &&& r matches CommitOutcome::LoopClosed { fence, root, cycle } && fence == nf
                    && root == cand && {
                    &&& cycle is Some ==> crate::cycle::cyclic(&final(self).graph)
                    &&& cycle is None ==> !crate::cycle::cycle_through(&final(self).graph, cand)
                    &&& chain_built(&final(self).graph) ==> cycle is None
                    &&& cycle matches Some(path) ==> {
                        &&& path@.len() >= 1
                        &&& path@.last() == cand
                        &&& forall|i: int, j: int|
                            0 <= i < j < path@.len() ==> path@[i] != path@[j]
                        &&& forall|i: int|
                            0 <= i < path@.len() - 1 ==> final(self).graph.neighbors_of(
                                #[trigger] path@[i + 1],
                            ).contains(path@[i])
                    }
                }
                &&& final(self).permanent_fence(nf)
                &&& final(self).graph.end_a(nf) == anchor
                &&& final(self).graph.end_b(nf) == cand
                &&& !final(self).graph.post_live(pp)
                &&& !final(self).graph.fence_live(pf)
                &&& final(self).graph.neighbors_of(pp) == Seq::<PostId>::empty()
                &&& final(self).graph.posts@.len() == old(self).graph.posts@.len()
                &&& final(self).graph.fences@.len() == old(self).graph.fences@.len() + 1
            }),
    {
        let ghost prev = *old(self);
        let nf = self.spawn_fence(anchor, cand, false);
        let ghost s1 = *self;
        proof {
            assert(pp != anchor && pp != cand);
            assert(s1.graph.incident(pp) == prev.graph.incident(pp));
            assert(s1.graph.fence_live(pf)) by {
                assert(pf != nf);
            }
        }
        self.graph.remove_fence(pf);
        proof {
            assert(self.graph.incident(pp) =~= Seq::<FenceId>::empty()) by {
                assert(s1.graph.incident(pp) == seq![pf]);
                let i = choose|i: int|
                    0 <= i < s1.graph.incident(pp).len() && s1.graph.incident(pp)[i] == pf
                        && self.graph.incident(pp) == s1.graph.incident(pp).remove(i);
            }
        }
        let ghost s2 = *self;
        self.graph.remove_post(pp);
        self.snap = None;
        self.state = PlacementState::Idle;
        proof {
            self.lemma_snap_wf(prev, s1, s2, anchor, pp, pf, cand, nf);
            if !crate::cycle::cyclic(&prev.graph) && !crate::cycle::connected(
                &prev.graph,
                anchor,
                cand,
            ) {
                crate::graph::lemma_store_graph_laws(&prev.graph);
                crate::graph::lemma_store_graph_laws(&s1.graph);
                crate::cycle::lemma_add_edge_acyclic(&prev.graph, &s1.graph, anchor, cand);
                assert forall|g: FenceId| #[trigger] s2.graph.fence_live(g) implies
                    s1.graph.fence_live(g) && s2.graph.fences@[g as int]
                    == s1.graph.fences@[g as int] by {
                    assert(g != pf);
                }
                crate::graph::lemma_store_sub_acyclic(&s1.graph, &s2.graph);
                assert forall|g: FenceId| #[trigger] self.graph.fence_live(g) implies
                    s2.graph.fence_live(g) && self.graph.fences@[g as int]
                    == s2.graph.fences@[g as int] by {}
                crate::graph::lemma_store_sub_acyclic(&s2.graph, &self.graph);
            }
            if crate::cycle::connected(&prev.graph, anchor, cand) && !prev.graph.neighbors_of(
                anchor,
            ).contains(cand) {
                self.lemma_snap_closes_loop(prev, anchor, pp, pf, cand, nf);
            }
        }
        proof {
            crate::graph::lemma_store_graph_laws(&self.graph);
        }
        let cycle = crate::cycle::get_cycle(&self.graph, cand);
        proof {
            if chain_built(&self.graph) {
                crate::graph::lemma_chain_built_acyclic(&self.graph);
            }
        }
        CommitOutcome::LoopClosed { fence: nf, root: cand, cycle }
    }

    /// After a snap commit's removals, the world is well formed, preview
    /// free, and keeps every permanent entity.
    proof fn lemma_snap_wf(
        &self,
        prev: Placement,
        s1: Placement,
        s2: Placement,
        anchor: PostId,
        pp: PostId,
        pf: FenceId,
        cand: PostId,
        nf: FenceId,
    )
        requires
            prev.wf(),
            prev.state == (PlacementState::Connecting {
                anchor,
                preview_post: pp,
                preview_fence: pf,
            }),
            s1.base_wf(),
            pf != nf,
            pp != anchor && pp != cand,
            cand != anchor,
            prev.permanent_post(cand),
            s1.graph.fence_live(nf),
            !prev.graph.fence_live(nf),
            s1.graph.end_a(nf) == anchor,
            s1.graph.end_b(nf) == cand,
            !s1.preview_fences@[nf as int],
            s1.positions@ == prev.positions@,
            s1.preview_posts@ == prev.preview_posts@,
            forall|g: FenceId| g != nf && g < prev.preview_fences@.len()
                ==> #[trigger] s1.preview_fences@[g as int] == prev.preview_fences@[g as int],
            forall|g: FenceId| g != nf
                ==> #[trigger] s1.graph.fence_live(g) == prev.graph.fence_live(g),
            forall|g: FenceId| prev.graph.fence_live(g)
                ==> #[trigger] s1.graph.fences@[g as int] == prev.graph.fences@[g as int],
            forall|g: FenceId| g != nf && g < prev.transforms@.len()
                ==> #[trigger] s1.transform(g) == prev.transform(g),
            s1.transforms@.len() == s1.graph.fences@.len(),
            forall|q: PostId| #[trigger] s1.graph.post_live(q) == prev.graph.post_live(q),
            // after the fence removal
            s2.graph.wf(),
            s2.positions@ == s1.positions@,
            s2.transforms@ == s1.transforms@,
            s2.preview_posts@ == s1.preview_posts@,
            s2.preview_fences@ == s1.preview_fences@,
            s2.graph.posts@.len() == s1.graph.posts@.len(),
            s2.graph.fences@.len() == s1.graph.fences@.len(),
            !s2.graph.fence_live(pf),
            s2.graph.incident(pp) == Seq::<FenceId>::empty(),
            forall|q: PostId| #[trigger] s2.graph.post_live(q) == s1.graph.post_live(q),
            forall|g: FenceId| g != pf
                ==> #[trigger] s2.graph.fence_live(g) == s1.graph.fence_live(g),
            forall|g: FenceId| g != pf && s1.graph.fence_live(g)
                ==> #[trigger] s2.graph.fences@[g as int] == s1.graph.fences@[g as int],
            // after the post removal and the state reset
            self.graph.wf(),
            self.positions@ == s2.positions@,
            self.transforms@ == s2.transforms@,
            self.preview_posts@ == s2.preview_posts@,
            self.preview_fences@ == s2.preview_fences@,
            self.graph.posts@.len() == s2.graph.posts@.len(),
            self.graph.fences@.len() == s2.graph.fences@.len(),
            !self.graph.post_live(pp),
            forall|q: PostId| q != pp
                ==> #[trigger] self.graph.post_live(q) == s2.graph.post_live(q),
            forall|g: FenceId| #[trigger] self.graph.fence_live(g) == (s2.graph.fence_live(g)
                && !s2.graph.touches(g, pp)),
            forall|g: FenceId| s2.graph.fence_live(g) && !s2.graph.touches(g, pp)
                ==> #[trigger] self.graph.fences@[g as int] == s2.graph.fences@[g as int],
            self.state == PlacementState::Idle,
            self.snap is None,
        ensures
            self.wf(),
            keeps_permanents(prev, *self),
            self.graph.fence_live(nf),
            !self.preview_fences@[nf as int],
            self.graph.end_a(nf) == anchor,
            self.graph.end_b(nf) == cand,
            !self.graph.fence_live(pf),
    {
        assert forall|g: FenceId| #[trigger] s2.graph.fence_live(g) implies !s2.graph.touches(
            g,
            pp,
        ) by {
            if s2.graph.touches(g, pp) {
                assert(s2.graph.fence_ok(g));
                assert(s2.graph.incident(pp).contains(g));
            }
        }
        assert(self.graph.fence_live(nf) && self.graph.fences@[nf as int]
            == s1.graph.fences@[nf as int]);
        // Well-formedness of the final world.
        assert forall|q: PostId| #[trigger] self.permanent_post(q) implies self.pos(
            q,
        ).is_some() by {
            assert(q != pp);
            assert(prev.graph.post_live(q));
            if !prev.preview_posts@[q as int] {
                assert(prev.permanent_post(q));
            } else {
                assert(prev.preview_post(q));
                assert(q == pp);
            }
        }
        assert forall|f: FenceId|
            #[trigger] self.graph.fence_live(f) && self.pos(self.graph.end_a(f)).is_some()
                && self.pos(self.graph.end_b(f)).is_some() implies self.transform(f) == Some(
            transform_of(
                self.pos(self.graph.end_a(f)).unwrap(),
                self.pos(self.graph.end_b(f)).unwrap(),
            ),
        ) by {
            assert(s2.graph.fence_live(f) && f != pf);
            assert(s1.graph.fence_live(f));
            assert(self.graph.fences@[f as int] == s1.graph.fences@[f as int]);
            assert(s1.graph.fence_live(f) && s1.pos(s1.graph.end_a(f)).is_some() && s1.pos(
                s1.graph.end_b(f),
            ).is_some());
            assert(s1.transform(f) == Some(
                transform_of(s1.pos(s1.graph.end_a(f)).unwrap(), s1.pos(s1.graph.end_b(f)).unwrap()),
            ));
        }
        assert forall|p: PostId| #[trigger] self.graph.post_live(p) implies !self.preview_post(
            p,
        ) by {
            assert(p != pp);
            assert(prev.graph.post_live(p));
            assert(!prev.preview_post(p));
        }
        assert forall|f: FenceId| #[trigger] self.graph.fence_live(f) implies !self.preview_fence(
            f,
        ) by {
            if f != nf {
                assert(f != pf);
                assert(prev.graph.fence_live(f));
                assert(!prev.preview_fence(f));
                assert(self.preview_fences@[f as int] == prev.preview_fences@[f as int]);
            }
        }
        // Permanent entities survive.
        assert forall|q: PostId| #[trigger] prev.permanent_post(q) implies self.permanent_post(q)
            && self.pos(q) == prev.pos(q) by {
            assert(q != pp);
        }
        assert forall|g: FenceId| #[trigger] prev.permanent_fence(g) implies self.permanent_fence(
            g,
        ) && self.graph.fences@[g as int] == prev.graph.fences@[g as int] && self.transform(g)
            == prev.transform(g) by {
            assert(g != pf);
            assert(g != nf);
            assert(s1.graph.fence_live(g) && s2.graph.fence_live(g));
            assert(self.graph.fences@[g as int] == s1.graph.fences@[g as int]);
        }
    }

    /// A commit signal (pointer press). Without a placed preview it is a
    /// silent no-op. From PostOnly, the preview post becomes permanent and
    /// fresh previews follow it. From Connecting it either grows the chain
    /// (no snap candidate), or — when snapped onto an existing permanent
    /// post — closes it with a direct fence, runs the cycle detector from
    /// the candidate as an advisory, and returns to Idle. A candidate equal
    /// to the chain's own anchor would demand a fence from a post to itself,
    /// which the graph store rejects; that commit is a no-op as well.
    pub fn commit(&mut self) -> (r: CommitOutcome)
        requires
            old(self).wf(),
            old(self).graph.posts@.len() < usize::MAX,
            old(self).graph.fences@.len() < usize::MAX,
        ensures
            final(self).wf(),
            keeps_permanents(*old(self), *final(self)),
            chain_built(&old(self).graph) && !(r matches CommitOutcome::LoopClosed { .. })
                ==> chain_built(&final(self).graph),
            !crate::cycle::cyclic(&old(self).graph) && !(r matches CommitOutcome::LoopClosed {
                ..
            }) ==> !crate::cycle::cyclic(&final(self).graph),
            match old(self).state {
                PlacementState::Idle => r == CommitOutcome::NoOp && *final(self) == *old(self),
                PlacementState::PostOnly { preview_post } => {
                    if old(self).pos(preview_post) is None {
                        r == CommitOutcome::NoOp && *final(self) == *old(self)
                    } else {
                        let np = old(self).graph.posts@.len() as usize;
                        let nf = old(self).graph.fences@.len() as usize;
                        &&& r == (CommitOutcome::PostPlaced {
                            post: preview_post,
                            fence_preview: nf,
                            post_preview: np,
                        })
                        &&& final(self).state == (PlacementState::Connecting {
                            anchor: preview_post,
                            preview_post: np,
                            preview_fence: nf,
                        })
                        &&& final(self).permanent_post(preview_post)
                        &&& final(self).pos(preview_post) == old(self).pos(preview_post)
                        &&& final(self).preview_post(np)
                        &&& final(self).pos(np) == old(self).pos(preview_post)
                        &&& final(self).preview_fence(nf)
                        &&& final(self).graph.end_a(nf) == preview_post
                        &&& final(self).graph.end_b(nf) == np
                        &&& final(self).graph.posts@.len() == old(self).graph.posts@.len() + 1
                        &&& final(self).graph.fences@.len() == old(self).graph.fences@.len() + 1
                    }
                },
                PlacementState::Connecting { anchor, preview_post, preview_fence } => {
                    if old(self).pos(preview_post) is None {
                        r == CommitOutcome::NoOp && *final(self) == *old(self)
                    } else if old(self).snap is None {
                        let np = old(self).graph.posts@.len() as usize;
                        let nf = old(self).graph.fences@.len() as usize;
                        &&& r == (CommitOutcome::Extended {
                            post: preview_post,
                            fence: preview_fence,
                            fence_preview: nf,
                            post_preview: np,
                        })
                        &&& final(self).state == (PlacementState::Connecting {
                            anchor: preview_post,
                            preview_post: np,
                            preview_fence: nf,
                        })
                        &&& final(self).permanent_post(preview_post)
                        &&& final(self).pos(preview_post) == old(self).pos(preview_post)
                        &&& final(self).permanent_fence(preview_fence)
                        &&& final(self).graph.fences@[preview_fence as int] == old(
                            self,
                        ).graph.fences@[preview_fence as int]
                        &&& final(self).transform(preview_fence) == old(self).transform(
                            preview_fence,
                        )
                        &&& final(self).preview_post(np)
                        &&& final(self).preview_fence(nf)
                        &&& final(self).graph.end_a(nf) == preview_post
                        &&& final(self).graph.end_b(nf) == np
                        &&& final(self).graph.posts@.len() == old(self).graph.posts@.len() + 1
                        &&& final(self).graph.fences@.len() == old(self).graph.fences@.len() + 1
                    } else if old(self).snap == Some(anchor) {
                        r == CommitOutcome::NoOp && *final(self) == *old(self)
                    } else {
                        let cand = old(self).snap.unwrap();
                        let nf = old(self).graph.fences@.len() as usize;
                        &&& r matches CommitOutcome::LoopClosed { fence, root, cycle } && fence
                            == nf && root == cand && {
                            &&& cycle is Some ==> crate::cycle::cyclic(&final(self).graph)
                            &&& cycle is None ==> !crate::cycle::cycle_through(
                                &final(self).graph,
                                cand,
                            )
                            &&& chain_built(&final(self).graph) ==> cycle is None
                            &&& cycle matches Some(path) ==> {
                                &&& path@.len() >= 1
                                &&& path@.last() == cand
                                &&& forall|i: int, j: int|
                                    0 <= i < j < path@.len() ==> path@[i] != path@[j]
                                &&& forall|i: int|
                                    0 <= i < path@.len() - 1 ==> final(self).graph.neighbors_of(
                                        #[trigger] path@[i + 1],
                                    ).contains(path@[i])
                            }
                        }
                        &&& final(self).state == PlacementState::Idle
                        &&& final(self).snap is None
                        &&& final(self).permanent_fence(nf)
                        &&& final(self).graph.end_a(nf) == anchor
                        &&& final(self).graph.end_b(nf) == cand
                        &&& !final(self).graph.post_live(preview_post)
                        &&& !final(self).graph.fence_live(preview_fence)
                        &&& final(self).graph.neighbors_of(preview_post) == Seq::<PostId>::empty()
                        &&& final(self).graph.posts@.len() == old(self).graph.posts@.len()
                        &&& final(self).graph.fences@.len() == old(self).graph.fences@.len() + 1
                        &&& (!crate::cycle::cyclic(&old(self).graph) && !crate::cycle::connected(
                            &old(self).graph,
                            anchor,
                            cand,
                        )) ==> !crate::cycle::cyclic(&final(self).graph)
                        &&& (crate::cycle::connected(&old(self).graph, anchor, cand) && !old(
                            self,
                        ).graph.neighbors_of(anchor).contains(cand))
                            ==> crate::cycle::cycle_through(&final(self).graph, cand)
                    }
                },
            },
    {
        match self.state {
            PlacementState::Idle => CommitOutcome::NoOp,
            PlacementState::PostOnly { preview_post } => {
                if self.positions[preview_post].is_none() {
                    return CommitOutcome::NoOp;
                }
                self.commit_post_only(preview_post)
            },
            PlacementState::Connecting { anchor, preview_post, preview_fence } => {
                if self.positions[preview_post].is_none() {
                    return CommitOutcome::NoOp;
                }
                match self.snap {
                    None => self.commit_extend(anchor, preview_post, preview_fence),
                    Some(cand) => {
                        if cand == anchor {
                            return CommitOutcome::NoOp;
                        }
                        self.commit_snap(anchor, preview_post, preview_fence, cand)
                    },
                }
            },
        }
    }

    /// Runs the cycle detector over the current graph from `root`. The
    /// verdict is advisory and two-sided: a returned list means the graph
    /// really holds a cycle, while `None` means no simple cycle passes
    /// through `root`; a graph grown purely by fresh-endpoint fences (no
    /// commit ever snapped back) always answers `None`.
    pub fn find_cycle(&self, root: PostId) -> (r: Option<Vec<PostId>>)
        requires
            self.wf(),
            root < self.graph.posts@.len(),
        ensures
            r is Some ==> crate::cycle::cyclic(&self.graph),
            r is None ==> !crate::cycle::cycle_through(&self.graph, root),
            !crate::cycle::cyclic(&self.graph) ==> r is None,
            chain_built(&self.graph) ==> r is None,
            r matches Some(path) ==> {
                &&& path@.len() >= 1
                &&& path@.last() == root
                &&& forall|i: int, j: int| 0 <= i < j < path@.len() ==> path@[i] != path@[j]
                &&& forall|i: int|
                    0 <= i < path@.len() - 1 ==> self.graph.neighbors_of(
                        #[trigger] path@[i + 1],
                    ).contains(path@[i])
            },
    {
        proof {
            crate::graph::lemma_store_graph_laws(&self.graph);
            if chain_built(&self.graph) {
                crate::graph::lemma_chain_built_acyclic(&self.graph);
            }
        }
        crate::cycle::get_cycle(&self.graph, root)
    }

    /// When the snap target was already joined to the anchor by fences (but
    /// not directly adjacent to it), closing the chain really creates a
    /// simple cycle through the target in the remaining graph.
    proof fn lemma_snap_closes_loop(
        &self,
        prev: Placement,
        anchor: PostId,
        pp: PostId,
        pf: FenceId,
        cand: PostId,
        nf: FenceId,
    )
        requires
            prev.wf(),
            prev.state == (PlacementState::Connecting {
                anchor,
                preview_post: pp,
                preview_fence: pf,
            }),
            self.wf(),
            anchor != cand,
            pp != anchor && pp != cand,
            prev.permanent_post(cand),
            !prev.graph.fence_live(nf),
            self.graph.fence_live(nf),
            self.graph.end_a(nf) == anchor,
            self.graph.end_b(nf) == cand,
            !self.graph.post_live(pp),
            !self.graph.fence_live(pf),
            forall|g: FenceId| prev.graph.fence_live(g) && g != pf && !prev.graph.touches(g, pp)
                ==> #[trigger] self.graph.fence_live(g) && self.graph.fences@[g as int]
                == prev.graph.fences@[g as int],
            crate::cycle::connected(&prev.graph, anchor, cand),
            !prev.graph.neighbors_of(anchor).contains(cand),
        ensures
            crate::cycle::cycle_through(&self.graph, cand),
    {
        crate::graph::lemma_store_graph_laws(&prev.graph);
        crate::graph::lemma_store_graph_laws(&self.graph);
        let walk = choose|p: Seq<usize>|
            crate::cycle::is_path(&prev.graph, p) && p[0] == anchor && p.last() == cand;
        crate::cycle::lemma_walk_to_simple(&prev.graph, walk);
        let q = choose|q: Seq<usize>|
            crate::cycle::is_simple_path(&prev.graph, q) && q[0] == anchor && q.last() == cand
                && #[trigger] q.len() <= walk.len();
        let l = q.len() as int;
        assert(l >= 2);
        if l == 2 {
            assert(prev.graph.neighbors_of(q[0]).contains(q[1]));
            assert(false);
        }
        // The path never runs through the preview post, whose only neighbor
        // is the anchor.
        assert(prev.graph.neighbors_of(pp) =~= seq![anchor]) by {
            assert(prev.graph.incident(pp) == seq![pf]);
            assert(prev.graph.other_end(pf, pp) == anchor);
        }
        assert forall|k: int| 0 <= k < l implies #[trigger] q[k] != pp by {
            if q[k] == pp {
                assert(k != 0 && k != l - 1);
                assert(prev.graph.neighbors_of(q[k - 1]).contains(pp));
                assert(prev.graph.neighbors_of(pp).contains(q[k - 1]));
                assert(q[k - 1] == anchor);
                assert(prev.graph.neighbors_of(pp).contains(q[k + 1]));
                assert(q[k + 1] == anchor);
            }
        }
        // Every step of the path survives into the committed graph.
        assert forall|k: int| 0 <= k < l - 1 implies self.graph.neighbors_of(
            #[trigger] q[k],
        ).contains(q[k + 1]) by {
            let g = crate::graph::edge_fence(&prev.graph, q[k], q[k + 1]);
            assert(g != pf) by {
                if g == pf {
                    assert(prev.graph.other_end(pf, q[k]) == q[k + 1]);
                    assert(prev.graph.end_a(pf) == anchor && prev.graph.end_b(pf) == pp);
                }
            }
            assert(!prev.graph.touches(g, pp)) by {
                if prev.graph.touches(g, pp) {
                    assert(prev.graph.incident(pp).contains(g));
                }
            }
            assert(self.graph.fence_live(g));
            assert(self.graph.touches(g, q[k]) && self.graph.other_end(g, q[k]) == q[k + 1]);
            assert(self.graph.fence_ok(g));
            assert(self.graph.incident(q[k]).contains(g));
            let idx = choose|idx: int|
                0 <= idx < self.graph.incident(q[k]).len() && self.graph.incident(q[k])[idx] == g;
            assert(self.graph.neighbors_of(q[k])[idx] == q[k + 1]);
        }
        // The new fence closes the path into a cycle through the target.
        assert(self.graph.neighbors_of(cand).contains(anchor)) by {
            assert(self.graph.fence_ok(nf));
            assert(self.graph.incident(cand).contains(nf));
            let idx = choose|idx: int|
                0 <= idx < self.graph.incident(cand).len() && self.graph.incident(cand)[idx] == nf;
            assert(self.graph.other_end(nf, cand) == anchor);
            assert(self.graph.neighbors_of(cand)[idx] == anchor);
        }
        assert(crate::cycle::is_cycle(&self.graph, q)) by {
            assert(q.last() == cand && q[0] == anchor);
            assert(crate::cycle::UndirectedGraph::nbrs(&self.graph, q.last()).contains(q[0]));
        }
        assert(q.contains(cand)) by {
            assert(q[l - 1] == cand);
        }
    }

    /// Toggling preview flags alone never disturbs the spatial invariants.
    proof fn lemma_restate_flags(&self, prev: Placement)
        requires
            prev.base_wf(),
            self.graph == prev.graph,
            self.positions@ == prev.positions@,
            self.transforms@ == prev.transforms@,
            self.preview_fences@.len() == prev.preview_fences@.len(),
            self.preview_posts@.len() == prev.preview_posts@.len(),
            forall|q: PostId| #[trigger] self.permanent_post(q) ==> self.pos(q).is_some(),
        ensures
            self.base_wf(),
    {
        assert forall|f: FenceId|
            #[trigger] self.graph.fence_live(f) && self.pos(self.graph.end_a(f)).is_some()
                && self.pos(self.graph.end_b(f)).is_some() implies self.transform(f) == Some(
            transform_of(
                self.pos(self.graph.end_a(f)).unwrap(),
                self.pos(self.graph.end_b(f)).unwrap(),
            ),
        ) by {
            assert(prev.graph.fence_live(f));
            assert(prev.pos(prev.graph.end_a(f)) == self.pos(self.graph.end_a(f)));
            assert(prev.pos(prev.graph.end_b(f)) == self.pos(self.graph.end_b(f)));
            assert(prev.transform(f) == self.transform(f));
        }
    }

    /// Despawning the previews leaves a well-formed, preview-free world.
    proof fn lemma_cancel_wf(&self, prev: Placement, pp: PostId, pf: Option<FenceId>)
        requires
            prev.wf(),
            self.positions@ == prev.positions@,
            self.transforms@ == prev.transforms@,
            self.preview_posts@ == prev.preview_posts@,
            self.preview_fences@ == prev.preview_fences@,
            self.state == PlacementState::Idle,
            self.snap is None,
            self.graph.wf(),
            self.graph.posts@.len() == prev.graph.posts@.len(),
            self.graph.fences@.len() == prev.graph.fences@.len(),
            prev.graph.post_live(pp),
            prev.preview_posts@[pp as int],
            !self.graph.post_live(pp),
            forall|q: PostId| q != pp
                ==> #[trigger] self.graph.post_live(q) == prev.graph.post_live(q),
            forall|g: FenceId| #[trigger] self.graph.fence_live(g) ==> prev.graph.fence_live(g)
                && self.graph.fences@[g as int] == prev.graph.fences@[g as int],
            pf matches Some(f) ==> !self.graph.fence_live(f) && prev.preview_fences@[f as int],
            forall|g: FenceId| prev.graph.fence_live(g) && (pf matches Some(f) ==> g != f)
                && !prev.graph.touches(g, pp) ==> #[trigger] self.graph.fence_live(g),
            forall|p: PostId|
                #[trigger] prev.graph.post_live(p) && p != pp && prev.preview_posts@[p as int]
                    ==> false,
            forall|g: FenceId|
                #[trigger] prev.graph.fence_live(g) && prev.preview_fences@[g as int] ==> (
                pf matches Some(f) && g == f),
            prev.graph.incident(pp).len() <= 1,
        ensures
            self.wf(),
    {
        assert forall|q: PostId| #[trigger] self.permanent_post(q) implies self.pos(
            q,
        ).is_some() by {
            assert(prev.permanent_post(q));
        }
        assert forall|f: FenceId|
            #[trigger] self.graph.fence_live(f) && self.pos(self.graph.end_a(f)).is_some()
                && self.pos(self.graph.end_b(f)).is_some() implies self.transform(f) == Some(
            transform_of(
                self.pos(self.graph.end_a(f)).unwrap(),
                self.pos(self.graph.end_b(f)).unwrap(),
            ),
        ) by {
            assert(prev.graph.fence_live(f));
            assert(self.graph.fences@[f as int] == prev.graph.fences@[f as int]);
        }
        assert forall|p: PostId| #[trigger] self.graph.post_live(p) implies !self.preview_post(
            p,
        ) by {
            assert(p != pp);
            assert(prev.graph.post_live(p));
        }
        assert forall|f: FenceId| #[trigger] self.graph.fence_live(f) implies !self.preview_fence(
            f,
        ) by {
            assert(prev.graph.fence_live(f));
        }
    }
}

} // verus!
