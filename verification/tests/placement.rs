use fence_graph::geometry::{isqrt, Vec3i};
use fence_graph::placement::{CommitOutcome, Placement, PlacementState};

fn v(x: i64, y: i64, z: i64) -> Vec3i {
    Vec3i { x, y, z }
}

fn ground(x: i64, y: i64, z: i64) -> Option<Vec3i> {
    Some(v(x, y, z))
}

/// Walks the square of the guided tour: posts at (0,0,0), (5,0,0), (5,0,5),
/// (0,0,5), then snaps back onto the first post.
fn build_square() -> (Placement, Vec<CommitOutcome>) {
    let mut w = Placement::new();
    let mut outcomes = Vec::new();
    w.select_barrier();
    w.cursor_move(ground(0, 0, 0), None);
    outcomes.push(w.commit());
    w.cursor_move(ground(5, 0, 0), None);
    outcomes.push(w.commit());
    w.cursor_move(ground(5, 0, 5), None);
    outcomes.push(w.commit());
    w.cursor_move(ground(0, 0, 5), None);
    outcomes.push(w.commit());
    // Hover the preview over the first post: it becomes the snap candidate.
    w.cursor_move(ground(0, 0, 5), Some(0));
    outcomes.push(w.commit());
    (w, outcomes)
}

#[test]
fn first_commit_places_a_permanent_post_with_fresh_previews() {
    let mut w = Placement::new();
    let p = w.select_barrier();
    assert_eq!(p, 0);
    assert_eq!(w.state, PlacementState::PostOnly { preview_post: 0 });
    w.cursor_move(ground(0, 0, 0), None);
    let outcome = w.commit();
    assert_eq!(
        outcome,
        CommitOutcome::PostPlaced { post: 0, fence_preview: 0, post_preview: 1 }
    );
    assert_eq!(
        w.state,
        PlacementState::Connecting { anchor: 0, preview_post: 1, preview_fence: 0 }
    );
    assert_eq!(w.positions[0], Some(v(0, 0, 0)));
    assert!(!w.preview_posts[0]);
    assert!(w.preview_posts[1]);
    assert!(w.preview_fences[0]);
    // The fence preview spans the committed post and the new preview post.
    assert_eq!(w.graph.neighbors(0), vec![1]);
}

#[test]
fn committing_without_a_ground_hit_is_a_silent_no_op() {
    let mut w = Placement::new();
    w.select_barrier();
    // No cursor hit yet: the preview is hidden and commit does nothing.
    assert_eq!(w.commit(), CommitOutcome::NoOp);
    assert_eq!(w.state, PlacementState::PostOnly { preview_post: 0 });
    w.cursor_move(None, None);
    assert_eq!(w.commit(), CommitOutcome::NoOp);
    // Commit in Idle is also a no-op.
    let mut idle = Placement::new();
    assert_eq!(idle.commit(), CommitOutcome::NoOp);
}

#[test]
fn guided_square_matches_the_expected_geometry() {
    let (w, outcomes) = build_square();
    assert_eq!(
        outcomes[0],
        CommitOutcome::PostPlaced { post: 0, fence_preview: 0, post_preview: 1 }
    );
    assert_eq!(
        outcomes[1],
        CommitOutcome::Extended { post: 1, fence: 0, fence_preview: 1, post_preview: 2 }
    );
    assert_eq!(
        outcomes[2],
        CommitOutcome::Extended { post: 2, fence: 1, fence_preview: 2, post_preview: 3 }
    );
    assert_eq!(
        outcomes[3],
        CommitOutcome::Extended { post: 3, fence: 2, fence_preview: 3, post_preview: 4 }
    );
    // The snapped commit creates one fence directly to post 0; no new post.
    match &outcomes[4] {
        CommitOutcome::LoopClosed { fence, root, cycle } => {
            assert_eq!(*fence, 4);
            assert_eq!(*root, 0);
            // The advisory lists the four posts of the loop, ending at the
            // root (a reversal of placement order).
            assert_eq!(cycle.as_ref().unwrap(), &vec![3, 2, 1, 0]);
        }
        other => panic!("expected a closed loop, got {:?}", other),
    }
    assert_eq!(w.state, PlacementState::Idle);
    // Post positions.
    assert_eq!(w.positions[0], Some(v(0, 0, 0)));
    assert_eq!(w.positions[1], Some(v(5, 0, 0)));
    assert_eq!(w.positions[2], Some(v(5, 0, 5)));
    assert_eq!(w.positions[3], Some(v(0, 0, 5)));
    // The preview post of the snapped commit is gone: no post 4 remains.
    assert!(!w.graph.has_post(4));
    assert_eq!(w.graph.neighbors(4), Vec::<usize>::new());
    // First permanent fence: midpoint (2.5, 0, 0), length 5, yaw 0.
    let t = w.transforms[0].unwrap();
    assert_eq!(t.mid_double, v(5, 0, 0));
    assert_eq!(isqrt(t.len_sq), 5);
    assert_eq!(t.len_sq, 25);
    assert!(t.dir_x > 0 && t.dir_z == 0);
    // The closing fence connects post 3 back to post 0.
    assert_eq!(w.graph.neighbors(0), vec![1, 3]);
    // Re-running the detector finds the same loop.
    assert_eq!(w.find_cycle(0), Some(vec![3, 2, 1, 0]));
}

#[test]
fn chains_that_never_snap_stay_acyclic() {
    let mut w = Placement::new();
    w.select_barrier();
    w.cursor_move(ground(0, 0, 0), None);
    w.commit();
    w.cursor_move(ground(3, 0, 0), None);
    w.commit();
    w.cursor_move(ground(6, 0, 0), None);
    w.commit();
    w.cursor_move(ground(6, 0, 3), None);
    w.commit();
    for root in 0..w.graph.posts.len() {
        if w.graph.has_post(root) {
            assert_eq!(w.find_cycle(root), None);
        }
    }
    // Also after cancelling the outstanding previews.
    w.cancel();
    for root in 0..4 {
        assert_eq!(w.find_cycle(root), None);
    }
}

#[test]
fn placement_restarts_cleanly_after_a_closed_loop() {
    let (mut w, _) = build_square();
    assert_eq!(w.state, PlacementState::Idle);
    // A new chain can start, and it can snap onto the old square.
    let preview = w.select_barrier();
    w.cursor_move(ground(10, 0, 0), None);
    w.commit();
    w.cursor_move(ground(5, 0, 0), Some(1));
    let outcome = w.commit();
    match outcome {
        CommitOutcome::LoopClosed { root, cycle, .. } => {
            assert_eq!(root, 1);
            // The square's loop passes through the join point, so the
            // advisory reports it.
            assert!(cycle.is_some());
        }
        other => panic!("expected a snap commit, got {:?}", other),
    }
    assert!(w.graph.has_post(preview));
    assert!(!w.preview_posts[preview]);
}

#[test]
fn snap_resolver_locks_onto_permanent_posts_only_while_connecting() {
    let mut w = Placement::new();
    w.select_barrier();
    w.cursor_move(ground(0, 0, 0), None);
    // PostOnly: no snap, even when hovering an entity.
    assert_eq!(w.resolve_snap(ground(1, 0, 0), Some(0)), (None, ground(1, 0, 0)));
    w.commit();
    // Connecting now; post 0 is permanent.
    assert_eq!(w.resolve_snap(ground(1, 0, 0), Some(0)), (Some(0), ground(0, 0, 0)));
    // A hit on the preview post itself does not snap.
    assert_eq!(w.resolve_snap(ground(1, 0, 0), Some(1)), (None, ground(1, 0, 0)));
    // A hit on an unknown entity does not snap.
    assert_eq!(w.resolve_snap(ground(1, 0, 0), Some(9)), (None, ground(1, 0, 0)));
}

#[test]
fn snapping_onto_the_chains_own_anchor_is_rejected() {
    let mut w = Placement::new();
    w.select_barrier();
    w.cursor_move(ground(0, 0, 0), None);
    w.commit();
    // Hover the preview over the anchor itself and commit: the store would
    // have to connect the post to itself, so nothing happens.
    w.cursor_move(ground(0, 0, 0), Some(0));
    assert_eq!(w.commit(), CommitOutcome::NoOp);
    assert_eq!(
        w.state,
        PlacementState::Connecting { anchor: 0, preview_post: 1, preview_fence: 0 }
    );
}

#[test]
fn escape_removes_every_preview_and_keeps_permanents() {
    let mut w = Placement::new();
    w.select_barrier();
    w.cursor_move(ground(0, 0, 0), None);
    w.commit();
    w.cursor_move(ground(5, 0, 0), None);
    w.commit();
    // Connecting: permanent posts 0 and 1, permanent fence 0, previews 2/1.
    w.cancel();
    assert_eq!(w.state, PlacementState::Idle);
    assert!(w.graph.has_post(0));
    assert!(w.graph.has_post(1));
    assert!(w.graph.has_fence(0));
    assert!(!w.graph.has_post(2));
    assert!(!w.graph.has_fence(1));
    // Neighbor queries against the removed preview ids return empty.
    assert_eq!(w.graph.neighbors(2), Vec::<usize>::new());
    // The permanent chain is intact.
    assert_eq!(w.graph.neighbors(0), vec![1]);
    assert_eq!(w.graph.neighbors(1), vec![0]);
    assert_eq!(w.positions[0], Some(v(0, 0, 0)));
    assert_eq!(w.positions[1], Some(v(5, 0, 0)));
}

#[test]
fn escape_from_post_only_removes_the_lone_preview() {
    let mut w = Placement::new();
    w.select_barrier();
    w.cursor_move(ground(2, 0, 2), None);
    w.cancel();
    assert_eq!(w.state, PlacementState::Idle);
    assert!(!w.graph.has_post(0));
    assert_eq!(w.graph.neighbors(0), Vec::<usize>::new());
}

#[test]
fn moving_a_post_updates_exactly_its_incident_fences() {
    let mut w = Placement::new();
    // Chain 0 - 1 - 2 - 3, then stop placing.
    w.select_barrier();
    w.cursor_move(ground(0, 0, 0), None);
    w.commit();
    w.cursor_move(ground(5, 0, 0), None);
    w.commit();
    w.cursor_move(ground(10, 0, 0), None);
    w.commit();
    w.cursor_move(ground(15, 0, 0), None);
    w.commit();
    w.cancel();
    // Fences: 0 between 0-1, 1 between 1-2, 2 between 2-3.
    let far_before = w.transforms[2].unwrap();
    let near_before = w.transforms[0].unwrap();
    w.move_post(1, v(5, 0, 5));
    // Both fences incident to post 1 were re-derived...
    let t0 = w.transforms[0].unwrap();
    assert_eq!(t0.mid_double, v(5, 0, 5));
    assert_eq!(t0.len_sq, 50);
    assert_ne!(t0, near_before);
    let t1 = w.transforms[1].unwrap();
    assert_eq!(t1.mid_double, v(15, 0, 5));
    assert_eq!(t1.dir_z, -5);
    // ...and the fence not incident to post 1 is bit-for-bit unchanged.
    assert_eq!(w.transforms[2].unwrap(), far_before);
}

#[test]
fn hiding_the_cursor_hides_the_previews() {
    let mut w = Placement::new();
    w.select_barrier();
    w.cursor_move(ground(1, 0, 1), None);
    assert_eq!(w.positions[0], Some(v(1, 0, 1)));
    w.cursor_move(None, None);
    assert_eq!(w.positions[0], None);
}
