//! Geometry extraction: roots, visibility, colors, rotation, and the
//! exclusion of unreachable nodes.

use arbor::fixed::{rot_z, Vec3, FX_ONE};
use arbor::node::{Node, NodeBuffer, STATUS_ALIVE};
use arbor::vertex::{color_end, color_start};

fn live_node(length: i64) -> Node {
    let mut n = Node::new();
    n.status = STATUS_ALIVE;
    n.visible = 1;
    n.length = length;
    n
}

#[test]
fn empty_arena_yields_no_geometry() {
    let nb = NodeBuffer::new(10);
    assert_eq!(nb.gen_vertex().len(), 0);
}

#[test]
fn single_root_yields_one_upward_segment() {
    let mut nb = NodeBuffer::new(10);
    let i = nb.allocate().unwrap();
    let mut n = live_node(400_000);
    n.absolutePosition = Vec3 { x: 0, y: 0, z: 0 };
    nb.set(i, n);
    let verts = nb.gen_vertex();
    assert_eq!(verts.len(), 2);
    assert_eq!(verts[0].loc, Vec3 { x: 0, y: 0, z: 0 });
    assert_eq!(verts[0].color, color_start());
    // The growth axis is +y: a length of 0.4 units ends at (0, 0.4, 0).
    assert_eq!(verts[1].loc, Vec3 { x: 0, y: 400_000, z: 0 });
    assert_eq!(verts[1].color, color_end());
}

#[test]
fn invisible_node_emits_no_segment_but_children_still_traverse() {
    let mut nb = NodeBuffer::new(10);
    let root = nb.allocate().unwrap();
    let c = nb.allocate().unwrap();
    let mut rn = live_node(300_000);
    rn.visible = 0;
    nb.set(root, rn);
    nb.set(c, live_node(100_000));
    nb.set_left_child(root, c);
    let verts = nb.gen_vertex();
    // Only the child is visible; it starts at the invisible root's end.
    assert_eq!(verts.len(), 2);
    assert_eq!(verts[0].loc, Vec3 { x: 0, y: 300_000, z: 0 });
    assert_eq!(verts[1].loc, Vec3 { x: 0, y: 400_000, z: 0 });
}

#[test]
fn unreachable_node_is_excluded() {
    let mut nb = NodeBuffer::new(10);
    let a = nb.allocate().unwrap();
    let b = nb.allocate().unwrap();
    nb.set(a, live_node(100_000));
    // b claims a as its parent, but a holds no link to b: b is an orphan,
    // reachable from no root, so it contributes nothing.
    let mut orphan = live_node(999_000);
    orphan.parentIndex = a;
    nb.set(b, orphan);
    let verts = nb.gen_vertex();
    assert_eq!(verts.len(), 2);
    assert_eq!(verts[1].loc, Vec3 { x: 0, y: 100_000, z: 0 });
}

#[test]
fn roots_are_visited_in_ascending_index_order() {
    let mut nb = NodeBuffer::new(10);
    let a = nb.allocate().unwrap();
    let b = nb.allocate().unwrap();
    assert!(b < a);
    let mut na = live_node(100_000);
    na.absolutePosition = Vec3 { x: 1_000_000, y: 0, z: 0 };
    nb.set(a, na);
    let mut nc = live_node(200_000);
    nc.absolutePosition = Vec3 { x: 2_000_000, y: 0, z: 0 };
    nb.set(b, nc);
    let verts = nb.gen_vertex();
    assert_eq!(verts.len(), 4);
    // b has the lower index, so its segment comes first.
    assert_eq!(verts[0].loc, Vec3 { x: 2_000_000, y: 0, z: 0 });
    assert_eq!(verts[2].loc, Vec3 { x: 1_000_000, y: 0, z: 0 });
}

#[test]
fn rotated_child_bends_by_the_fixed_point_angle() {
    let mut nb = NodeBuffer::new(10);
    let root = nb.allocate().unwrap();
    let c = nb.allocate().unwrap();
    nb.set(root, live_node(1_000_000));
    let mut cn = live_node(1_000_000);
    // Half a radian about the z axis: cosine 875_000, sine 479_167 in
    // fixed-point quadratic/cubic approximation.
    cn.transformation = rot_z(FX_ONE / 2);
    nb.set(c, cn);
    nb.set_left_child(root, c);
    let verts = nb.gen_vertex();
    assert_eq!(verts.len(), 4);
    assert_eq!(verts[2].loc, Vec3 { x: 0, y: 1_000_000, z: 0 });
    assert_eq!(
        verts[3].loc,
        Vec3 { x: -479_167, y: 1_000_000 + 875_000, z: 0 }
    );
}

#[test]
fn rotation_by_zero_is_identity() {
    let m = rot_z(0);
    assert_eq!(m.m00, FX_ONE);
    assert_eq!(m.m01, 0);
    assert_eq!(m.m10, 0);
    assert_eq!(m.m11, FX_ONE);
    assert_eq!(m.m22, FX_ONE);
}
