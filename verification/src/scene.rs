//! A plain-value model of the host's scene graph, and the two corrective
//! walks a render job performs on a freshly loaded asset: propagating the
//! isolation render layer over the whole subtree, and deactivating any
//! camera objects embedded in the asset.
//!
//! Children are stored as indices strictly greater than their parent's
//! index, which makes the containment relation acyclic by construction and
//! lets both walks terminate structurally.

use vstd::prelude::*;

verus! {

/// One object of the scene graph.
#[derive(Clone, Debug)]
pub struct SceneNode {
    /// Indices of the node's children in the owning graph, each strictly
    /// greater than this node's own index.
    pub children: Vec<usize>,
    /// Render layer the object is visible on.
    pub layer: u8,
    /// Whether the object carries camera behaviour.
    pub is_camera: bool,
    /// Whether a camera object is active (rendering).
    pub active: bool,
}

/// A snapshot of (part of) the host's scene graph as plain values.
#[derive(Clone, Debug)]
pub struct SceneGraph {
    pub nodes: Vec<SceneNode>,
}

/// Well-formedness of a node sequence: every child index lies strictly
/// between its parent's index and the length.
pub open spec fn nodes_wf(nodes: Seq<SceneNode>) -> bool {
    forall|i: int, k: int|
        0 <= i < nodes.len() && 0 <= k < nodes[i].children@.len() ==> i < (
        #[trigger] nodes[i].children@[k]) < nodes.len()
}

impl SceneGraph {
    /// Well-formedness of the whole graph.
    pub open spec fn wf(self) -> bool {
        nodes_wf(self.nodes@)
    }
}

/// Whether node `t` lies in the subtree rooted at `root`: it is `root`
/// itself, or lies in the subtree of one of `root`'s children.
pub open spec fn in_subtree(nodes: Seq<SceneNode>, root: int, t: int) -> bool
    decreases nodes.len() - root,
    when 0 <= root < nodes.len() && nodes_wf(nodes)
{
    t == root || exists|k: int|
        0 <= k < nodes[root].children@.len() && in_subtree(
            nodes,
            nodes[root].children@[k] as int,
            t,
        )
}

/// The same node with its render layer replaced.
pub open spec fn with_layer(n: SceneNode, layer: u8) -> SceneNode {
    SceneNode { layer, ..n }
}

/// The same node, deactivated if it carries camera behaviour.
pub open spec fn with_camera_off(n: SceneNode) -> SceneNode {
    if n.is_camera {
        SceneNode { active: false, ..n }
    } else {
        n
    }
}

/// Two node sequences with the same length and the same children lists.
/// Both walks only touch `layer` and `active`, so they preserve shape.
pub open spec fn same_shape(a: Seq<SceneNode>, b: Seq<SceneNode>) -> bool {
    &&& a.len() == b.len()
    &&& forall|i: int| 0 <= i < a.len() ==> (#[trigger] a[i]).children@ == b[i].children@
}

/// Shape determines well-formedness.
proof fn lemma_same_shape_wf(a: Seq<SceneNode>, b: Seq<SceneNode>)
    requires
        nodes_wf(a),
        same_shape(a, b),
    ensures
        nodes_wf(b),
{
    assert forall|i: int, k: int|
        0 <= i < b.len() && 0 <= k < b[i].children@.len() implies i < (
    #[trigger] b[i].children@[k]) < b.len() by {
        assert(a[i].children@ == b[i].children@);
        assert(i < a[i].children@[k] < a.len());
    }
}

/// Shape determines the containment relation.
proof fn lemma_in_subtree_same_shape(a: Seq<SceneNode>, b: Seq<SceneNode>, root: int, t: int)
    requires
        nodes_wf(a),
        same_shape(a, b),
        0 <= root < a.len(),
    ensures
        in_subtree(a, root, t) == in_subtree(b, root, t),
    decreases a.len() - root,
{
    lemma_same_shape_wf(a, b);
    assert(a[root].children@ == b[root].children@);
    assert forall|k: int| 0 <= k < a[root].children@.len() implies in_subtree(
        a,
        a[root].children@[k] as int,
        t,
    ) == in_subtree(b, b[root].children@[k] as int, t) by {
        lemma_in_subtree_same_shape(a, b, a[root].children@[k] as int, t);
    }
}

/// Apply `layer` to the node `root` and to every node transitively
/// reachable from it through the containment relation; nothing else
/// changes.  This is the walk that forces a freshly loaded asset's whole
/// hierarchy onto the job's isolation layer, since nested content
/// defaults to the main layer and would otherwise never reach the
/// offscreen target.
pub fn apply_layers_recursive(g: &mut SceneGraph, root: usize, layer: u8)
    requires
        old(g).wf(),
        root < old(g).nodes@.len(),
    ensures
        final(g).wf(),
        same_shape(old(g).nodes@, final(g).nodes@),
        forall|t: int|
            0 <= t < old(g).nodes@.len() ==> final(g).nodes@[t] == (if in_subtree(
                old(g).nodes@,
                root as int,
                t,
            ) {
                with_layer(old(g).nodes@[t], layer)
            } else {
                old(g).nodes@[t]
            }),
    decreases old(g).nodes@.len() - root,
{
    let ghost orig = g.nodes@;
    g.nodes[root].layer = layer;
    proof {
        assert(same_shape(orig, g.nodes@));
        lemma_same_shape_wf(orig, g.nodes@);
    }
    let n = g.nodes[root].children.len();
    let mut k: usize = 0;
    while k < n
        invariant
            orig == old(g).nodes@,
            nodes_wf(orig),
            root < orig.len(),
            n == orig[root as int].children@.len(),
            0 <= k <= n,
            same_shape(orig, g.nodes@),
            nodes_wf(g.nodes@),
            forall|t: int|
                0 <= t < orig.len() ==> g.nodes@[t] == (if (t == root as int || exists|m: int|
                    0 <= m < k && in_subtree(orig, orig[root as int].children@[m] as int, t)) {
                    with_layer(orig[t], layer)
                } else {
                    orig[t]
                }),
        decreases n - k,
    {
        let c = g.nodes[root].children[k];
        proof {
            assert(g.nodes@[root as int].children@ == orig[root as int].children@);
            assert(root < c < orig.len());
            assert(g.nodes@.len() == orig.len());
        }
        let ghost pre = g.nodes@;
        apply_layers_recursive(g, c, layer);
        proof {
            assert forall|t: int| 0 <= t < orig.len() implies in_subtree(pre, c as int, t)
                == in_subtree(orig, c as int, t) by {
                lemma_in_subtree_same_shape(orig, pre, c as int, t);
            }
            assert forall|t: int| 0 <= t < orig.len() implies g.nodes@[t] == (if (t == root as int
                || exists|m: int|
                0 <= m < k + 1 && in_subtree(orig, orig[root as int].children@[m] as int, t)) {
                with_layer(orig[t], layer)
            } else {
                orig[t]
            }) by {
                if in_subtree(pre, c as int, t) {
                    assert(g.nodes@[t] == with_layer(pre[t], layer));
                    assert(in_subtree(orig, orig[root as int].children@[k as int] as int, t));
                } else {
                    assert(g.nodes@[t] == pre[t]);
                    if t == root as int || exists|m: int|
                        0 <= m < k && in_subtree(orig, orig[root as int].children@[m] as int, t) {
                        assert(pre[t] == with_layer(orig[t], layer));
                    } else {
                        assert(pre[t] == orig[t]);
                        if exists|m: int|
                            0 <= m < k + 1 && in_subtree(
                                orig,
                                orig[root as int].children@[m] as int,
                                t,
                            ) {
                            let m = choose|m: int|
                                0 <= m < k + 1 && in_subtree(
                                    orig,
                                    orig[root as int].children@[m] as int,
                                    t,
                                );
                            assert(m == k);
                            assert(false);
                        }
                    }
                }
            }
        }
        k = k + 1;
    }
    proof {
        assert forall|t: int| 0 <= t < orig.len() implies final(g).nodes@[t] == (if in_subtree(
            orig,
            root as int,
            t,
        ) {
            with_layer(orig[t], layer)
        } else {
            orig[t]
        }) by {
            if in_subtree(orig, root as int, t) {
                if t != root as int {
                    let m = choose|m: int|
                        0 <= m < orig[root as int].children@.len() && in_subtree(
                            orig,
                            orig[root as int].children@[m] as int,
                            t,
                        );
                    assert(0 <= m < n);
                }
            }
        }
    }
}

/// Deactivate every camera object in the subtree rooted at `root`;
/// nothing else changes.  This is the walk that keeps cameras embedded in
/// a loaded asset from rendering into the main window.
pub fn disable_cameras_recursive(g: &mut SceneGraph, root: usize)
    requires
        old(g).wf(),
        root < old(g).nodes@.len(),
    ensures
        final(g).wf(),
        same_shape(old(g).nodes@, final(g).nodes@),
        forall|t: int|
            0 <= t < old(g).nodes@.len() ==> final(g).nodes@[t] == (if in_subtree(
                old(g).nodes@,
                root as int,
                t,
            ) {
                with_camera_off(old(g).nodes@[t])
            } else {
                old(g).nodes@[t]
            }),
    decreases old(g).nodes@.len() - root,
{
    let ghost orig = g.nodes@;
    if g.nodes[root].is_camera {
        g.nodes[root].active = false;
    }
    proof {
        assert(same_shape(orig, g.nodes@));
        lemma_same_shape_wf(orig, g.nodes@);
        assert(g.nodes@[root as int] == with_camera_off(orig[root as int]));
    }
    let n = g.nodes[root].children.len();
    let mut k: usize = 0;
    while k < n
        invariant
            orig == old(g).nodes@,
            nodes_wf(orig),
            root < orig.len(),
            n == orig[root as int].children@.len(),
            0 <= k <= n,
            same_shape(orig, g.nodes@),
            nodes_wf(g.nodes@),
            forall|t: int|
                0 <= t < orig.len() ==> g.nodes@[t] == (if (t == root as int || exists|m: int|
                    0 <= m < k && in_subtree(orig, orig[root as int].children@[m] as int, t)) {
                    with_camera_off(orig[t])
                } else {
                    orig[t]
                }),
        decreases n - k,
    {
        let c = g.nodes[root].children[k];
        proof {
            assert(g.nodes@[root as int].children@ == orig[root as int].children@);
            assert(root < c < orig.len());
            assert(g.nodes@.len() == orig.len());
        }
        let ghost pre = g.nodes@;
        disable_cameras_recursive(g, c);
        proof {
            assert forall|t: int| 0 <= t < orig.len() implies in_subtree(pre, c as int, t)
                == in_subtree(orig, c as int, t) by {
                lemma_in_subtree_same_shape(orig, pre, c as int, t);
            }
            assert forall|t: int| 0 <= t < orig.len() implies g.nodes@[t] == (if (t == root as int
                || exists|m: int|
                0 <= m < k + 1 && in_subtree(orig, orig[root as int].children@[m] as int, t)) {
                with_camera_off(orig[t])
            } else {
                orig[t]
            }) by {
                if in_subtree(pre, c as int, t) {
                    assert(g.nodes@[t] == with_camera_off(pre[t]));
                    assert(in_subtree(orig, orig[root as int].children@[k as int] as int, t));
                } else {
                    assert(g.nodes@[t] == pre[t]);
                    if t == root as int || exists|m: int|
                        0 <= m < k && in_subtree(orig, orig[root as int].children@[m] as int, t) {
                        assert(pre[t] == with_camera_off(orig[t]));
                    } else {
                        assert(pre[t] == orig[t]);
                        if exists|m: int|
                            0 <= m < k + 1 && in_subtree(
                                orig,
                                orig[root as int].children@[m] as int,
                                t,
                            ) {
                            let m = choose|m: int|
                                0 <= m < k + 1 && in_subtree(
                                    orig,
                                    orig[root as int].children@[m] as int,
                                    t,
                                );
                            assert(m == k);
                            assert(false);
                        }
                    }
                }
            }
        }
        k = k + 1;
    }
    proof {
        assert forall|t: int| 0 <= t < orig.len() implies final(g).nodes@[t] == (if in_subtree(
            orig,
            root as int,
            t,
        ) {
            with_camera_off(orig[t])
        } else {
            orig[t]
        }) by {
            if in_subtree(orig, root as int, t) {
                if t != root as int {
                    let m = choose|m: int|
                        0 <= m < orig[root as int].children@.len() && in_subtree(
                            orig,
                            orig[root as int].children@[m] as int,
                            t,
                        );
                    assert(0 <= m < n);
                }
            }
        }
    }
}

} // verus!
