use view3d::scene::{apply_layers_recursive, disable_cameras_recursive, SceneGraph, SceneNode};

fn node(children: Vec<usize>, layer: u8, is_camera: bool, active: bool) -> SceneNode {
    SceneNode { children, layer, is_camera, active }
}

/// A graph of five nodes: node 0 is a model root with children 1 and 2;
/// node 2 has a child 3 that is an embedded, active camera; node 4 is an
/// unrelated object outside the subtree.
fn sample_graph() -> SceneGraph {
    SceneGraph {
        nodes: vec![
            node(vec![1, 2], 0, false, false),
            node(vec![], 0, false, false),
            node(vec![3], 0, false, false),
            node(vec![], 0, true, true),
            node(vec![], 0, true, true),
        ],
    }
}

#[test]
fn layers_propagate_over_the_subtree() {
    let mut g = sample_graph();
    apply_layers_recursive(&mut g, 0, 7);
    assert_eq!(g.nodes[0].layer, 7);
    assert_eq!(g.nodes[1].layer, 7);
    assert_eq!(g.nodes[2].layer, 7);
    assert_eq!(g.nodes[3].layer, 7);
    // Objects outside the subtree keep their layer.
    assert_eq!(g.nodes[4].layer, 0);
}

#[test]
fn embedded_cameras_are_deactivated() {
    let mut g = sample_graph();
    disable_cameras_recursive(&mut g, 0);
    // The camera inside the loaded subtree goes inactive…
    assert!(!g.nodes[3].active);
    // …while cameras elsewhere, and non-camera flags, are untouched.
    assert!(g.nodes[4].active);
    assert!(!g.nodes[0].active);
    assert!(g.nodes[3].is_camera);
}

#[test]
fn walks_only_touch_their_own_fields() {
    let mut g = sample_graph();
    apply_layers_recursive(&mut g, 2, 9);
    // Only the subtree of node 2 is retagged.
    assert_eq!(g.nodes[0].layer, 0);
    assert_eq!(g.nodes[1].layer, 0);
    assert_eq!(g.nodes[2].layer, 9);
    assert_eq!(g.nodes[3].layer, 9);
    // The layer walk leaves camera activity alone.
    assert!(g.nodes[3].active);
}
