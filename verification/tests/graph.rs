use fence_graph::graph::{GraphError, GraphStore};

#[test]
fn create_fence_rejects_self_loop() {
    let mut g = GraphStore::new();
    let a = g.create_post();
    assert_eq!(g.create_fence(a, a), Err(GraphError::InvalidEndpoints));
}

#[test]
fn create_fence_rejects_unknown_posts() {
    let mut g = GraphStore::new();
    let a = g.create_post();
    assert_eq!(g.create_fence(a, a + 7), Err(GraphError::InvalidEndpoints));
    assert_eq!(g.create_fence(a + 7, a), Err(GraphError::InvalidEndpoints));
}

#[test]
fn neighbors_follow_insertion_order() {
    let mut g = GraphStore::new();
    let a = g.create_post();
    let b = g.create_post();
    let c = g.create_post();
    let d = g.create_post();
    g.create_fence(a, b).unwrap();
    g.create_fence(a, c).unwrap();
    g.create_fence(d, a).unwrap();
    assert_eq!(g.neighbors(a), vec![b, c, d]);
    assert_eq!(g.neighbors(b), vec![a]);
}

#[test]
fn neighbors_of_unknown_post_is_empty() {
    let g = GraphStore::new();
    assert_eq!(g.neighbors(3), Vec::<usize>::new());
}

#[test]
fn remove_fence_detaches_both_endpoints() {
    let mut g = GraphStore::new();
    let a = g.create_post();
    let b = g.create_post();
    let c = g.create_post();
    let ab = g.create_fence(a, b).unwrap();
    g.create_fence(a, c).unwrap();
    g.remove_fence(ab);
    assert_eq!(g.neighbors(a), vec![c]);
    assert_eq!(g.neighbors(b), Vec::<usize>::new());
    assert!(!g.has_fence(ab));
}

#[test]
fn remove_post_cascades_to_incident_fences() {
    let mut g = GraphStore::new();
    let a = g.create_post();
    let b = g.create_post();
    let c = g.create_post();
    let ab = g.create_fence(a, b).unwrap();
    let bc = g.create_fence(b, c).unwrap();
    g.remove_post(b);
    assert!(!g.has_post(b));
    assert!(!g.has_fence(ab));
    assert!(!g.has_fence(bc));
    // The other endpoints no longer list the removed fences.
    assert_eq!(g.neighbors(a), Vec::<usize>::new());
    assert_eq!(g.neighbors(c), Vec::<usize>::new());
    // Queries against the removed handle yield nothing.
    assert_eq!(g.neighbors(b), Vec::<usize>::new());
}

#[test]
fn handles_are_not_reused() {
    let mut g = GraphStore::new();
    let a = g.create_post();
    let b = g.create_post();
    g.remove_post(a);
    let c = g.create_post();
    assert_ne!(a, c);
    assert!(g.has_post(b));
}
