use fence_graph::cycle::{get_cycle, has_cycle};
use fence_graph::graph::GraphStore;

/// A path a-b-c-d: no cycle from any root.
fn chain() -> GraphStore {
    let mut g = GraphStore::new();
    let a = g.create_post();
    let b = g.create_post();
    let c = g.create_post();
    let d = g.create_post();
    g.create_fence(a, b).unwrap();
    g.create_fence(b, c).unwrap();
    g.create_fence(c, d).unwrap();
    g
}

#[test]
fn chain_has_no_cycle_from_any_root() {
    let g = chain();
    for root in 0..4 {
        assert!(!has_cycle(&g, root));
        assert_eq!(get_cycle(&g, root), None);
    }
}

#[test]
fn star_has_no_cycle() {
    let mut g = GraphStore::new();
    let hub = g.create_post();
    for _ in 0..3 {
        let leaf = g.create_post();
        g.create_fence(hub, leaf).unwrap();
    }
    for root in 0..4 {
        assert_eq!(get_cycle(&g, root), None);
    }
}

#[test]
fn triangle_is_detected() {
    let mut g = GraphStore::new();
    let a = g.create_post();
    let b = g.create_post();
    let c = g.create_post();
    g.create_fence(a, b).unwrap();
    g.create_fence(b, c).unwrap();
    g.create_fence(c, a).unwrap();
    assert!(has_cycle(&g, a));
    // The discovery runs a -> b -> c, revisits a, and retraces to the root.
    assert_eq!(get_cycle(&g, a), Some(vec![c, b, a]));
}

#[test]
fn square_cycle_lists_all_four_posts() {
    let mut g = GraphStore::new();
    let a = g.create_post();
    let b = g.create_post();
    let c = g.create_post();
    let d = g.create_post();
    g.create_fence(a, b).unwrap();
    g.create_fence(b, c).unwrap();
    g.create_fence(c, d).unwrap();
    g.create_fence(d, a).unwrap();
    let cycle = get_cycle(&g, a).unwrap();
    assert_eq!(cycle.len(), 4);
    assert_eq!(cycle, vec![d, c, b, a]);
    // Consecutive entries are graph neighbors.
    for w in cycle.windows(2) {
        assert!(g.neighbors(w[0]).contains(&w[1]));
    }
}

#[test]
fn cycle_behind_a_tail_is_found() {
    // root - a - b - c - a: the loop does not pass through the root.
    let mut g = GraphStore::new();
    let root = g.create_post();
    let a = g.create_post();
    let b = g.create_post();
    let c = g.create_post();
    g.create_fence(root, a).unwrap();
    g.create_fence(a, b).unwrap();
    g.create_fence(b, c).unwrap();
    g.create_fence(c, a).unwrap();
    assert!(has_cycle(&g, root));
    // The retrace runs from the detection point back to the root.
    assert_eq!(get_cycle(&g, root), Some(vec![c, b, a, root]));
}

#[test]
fn two_fences_between_the_same_posts_count_as_a_cycle() {
    let mut g = GraphStore::new();
    let a = g.create_post();
    let b = g.create_post();
    g.create_fence(a, b).unwrap();
    g.create_fence(a, b).unwrap();
    assert!(has_cycle(&g, a));
    assert_eq!(get_cycle(&g, a), Some(vec![a]));
}

#[test]
fn back_and_forth_to_distinct_neighbors_is_no_cycle() {
    // b - a - c: walking a's two fences must not report a revisit.
    let mut g = GraphStore::new();
    let a = g.create_post();
    let b = g.create_post();
    let c = g.create_post();
    g.create_fence(a, b).unwrap();
    g.create_fence(a, c).unwrap();
    assert!(!has_cycle(&g, a));
    assert!(!has_cycle(&g, b));
}
