//! Attach, split and branch edits: back-reference consistency and length
//! conservation.

use arbor::fixed::Vec3;
use arbor::node::{Node, NodeBuffer, INVALID_INDEX, STATUS_ALIVE};

fn live_node(length: i64) -> Node {
    let mut n = Node::new();
    n.status = STATUS_ALIVE;
    n.visible = 1;
    n.length = length;
    n
}

#[test]
fn attach_sets_back_references() {
    let mut nb = NodeBuffer::new(10);
    let p = nb.allocate().unwrap();
    let c = nb.allocate().unwrap();
    nb.set(p, live_node(100));
    nb.set(c, live_node(200));
    nb.set_left_child(p, c);
    assert_eq!(nb.get(p).leftChildIndex, c);
    assert_eq!(nb.get(c).parentIndex, p);
    let d = nb.allocate().unwrap();
    nb.set(d, live_node(300));
    nb.set_right_child(p, d);
    assert_eq!(nb.get(p).rightChildIndex, d);
    assert_eq!(nb.get(d).parentIndex, p);
    // Clearing a link leaves the old child's parent alone.
    nb.set_right_child(p, INVALID_INDEX);
    assert_eq!(nb.get(p).rightChildIndex, INVALID_INDEX);
    assert_eq!(nb.get(d).parentIndex, p);
}

#[test]
fn divide_conserves_length_and_reparents_children() {
    let mut nb = NodeBuffer::new(10);
    let root = nb.allocate().unwrap();
    let l = nb.allocate().unwrap();
    let r = nb.allocate().unwrap();
    nb.set(root, live_node(400_000));
    nb.set(l, live_node(50_000));
    nb.set(r, live_node(60_000));
    nb.set_left_child(root, l);
    nb.set_right_child(root, r);

    let m = nb.divide(500_000, root).unwrap();
    // The original keeps half, the new node takes the rest.
    assert_eq!(nb.get(root).length, 200_000);
    assert_eq!(nb.get(m).length, 200_000);
    assert_eq!(nb.get(root).length + nb.get(m).length, 400_000);
    // The new node takes the original children, re-parented.
    assert_eq!(nb.get(m).leftChildIndex, l);
    assert_eq!(nb.get(m).rightChildIndex, r);
    assert_eq!(nb.get(l).parentIndex, m);
    assert_eq!(nb.get(r).parentIndex, m);
    // The original now points at the new node and has a free right slot.
    assert_eq!(nb.get(root).leftChildIndex, m);
    assert_eq!(nb.get(root).rightChildIndex, INVALID_INDEX);
    assert_eq!(nb.get(m).parentIndex, root);
}

#[test]
fn divide_at_uneven_fraction_conserves_length() {
    let mut nb = NodeBuffer::new(4);
    let root = nb.allocate().unwrap();
    nb.set(root, live_node(1_000_001));
    let m = nb.divide(333_333, root).unwrap();
    // 1_000_001 * 333_333 / 1_000_000 truncates; the pieces still sum back.
    assert_eq!(nb.get(root).length, 333_333);
    assert_eq!(nb.get(m).length, 666_668);
    assert_eq!(nb.get(root).length + nb.get(m).length, 1_000_001);
}

#[test]
fn divide_on_full_arena_signals_exhaustion() {
    let mut nb = NodeBuffer::new(1);
    let root = nb.allocate().unwrap();
    nb.set(root, live_node(400_000));
    assert_eq!(nb.divide(500_000, root), None);
    assert_eq!(nb.get(root).length, 400_000);
    assert_eq!(nb.current_size(), 1);
}

#[test]
fn branch_inserts_lateral_child_at_split_point() {
    let mut nb = NodeBuffer::new(10);
    let root = nb.allocate().unwrap();
    nb.set(root, live_node(400_000));
    let c = nb.allocate().unwrap();
    nb.set(c, live_node(100_000));
    let m = nb.branch(root, 500_000, c).unwrap();
    assert_eq!(nb.get(root).leftChildIndex, m);
    assert_eq!(nb.get(root).rightChildIndex, c);
    assert_eq!(nb.get(c).parentIndex, root);
    assert_eq!(nb.get(m).parentIndex, root);
    assert_eq!(nb.get(root).length + nb.get(m).length, 400_000);
}

#[test]
fn split_then_branch_chain_geometry_is_contiguous() {
    let mut nb = NodeBuffer::new(10);
    let root = nb.allocate().unwrap();
    let l = nb.allocate().unwrap();
    let r = nb.allocate().unwrap();
    let mut rn = live_node(400_000);
    rn.absolutePosition = Vec3 { x: 0, y: 0, z: 0 };
    nb.set(root, rn);
    nb.set(l, live_node(50_000));
    nb.set(r, live_node(60_000));
    nb.set_left_child(root, l);
    nb.set_right_child(root, r);
    nb.divide(500_000, root).unwrap();

    let verts = nb.gen_vertex();
    // Four visible nodes, two vertices each: root, middle, left, right.
    assert_eq!(verts.len(), 8);
    // Depth-first from the only root: root, middle, then its left and right.
    let seg_root = (verts[0].loc, verts[1].loc);
    let seg_mid = (verts[2].loc, verts[3].loc);
    let seg_l = (verts[4].loc, verts[5].loc);
    let seg_r = (verts[6].loc, verts[7].loc);
    assert_eq!(seg_root.0, Vec3 { x: 0, y: 0, z: 0 });
    assert_eq!(seg_root.1, Vec3 { x: 0, y: 200_000, z: 0 });
    // Each segment along the trunk starts where the previous one ended.
    assert_eq!(seg_mid.0, seg_root.1);
    assert_eq!(seg_mid.1, Vec3 { x: 0, y: 400_000, z: 0 });
    assert_eq!(seg_l.0, seg_mid.1);
    assert_eq!(seg_l.1, Vec3 { x: 0, y: 450_000, z: 0 });
    assert_eq!(seg_r.0, seg_mid.1);
    assert_eq!(seg_r.1, Vec3 { x: 0, y: 460_000, z: 0 });
}

#[test]
fn repeated_splits_keep_total_length_and_stay_contiguous() {
    let mut nb = NodeBuffer::new(100);
    let root = nb.allocate().unwrap();
    nb.set(root, live_node(1_000_000));
    for _ in 0..50 {
        nb.divide(500_000, root).unwrap();
    }
    let verts = nb.gen_vertex();
    // 51 colinear segments; truncation moves length between pieces but the
    // total is conserved exactly, so the chain still ends at one full unit.
    assert_eq!(verts.len(), 2 * 51);
    for w in verts.chunks(2).collect::<Vec<_>>().windows(2) {
        assert_eq!(w[1][0].loc, w[0][1].loc);
    }
    assert_eq!(verts[verts.len() - 1].loc, Vec3 { x: 0, y: 1_000_000, z: 0 });
}
