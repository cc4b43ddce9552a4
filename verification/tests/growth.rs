//! The per-tick growth pass, the deterministic random source, fixed-point
//! arithmetic edge cases, and the archetype table.

use arbor::archetype::{Archetype, ArchetypeTable};
use arbor::fixed::{fx_add, fx_mul, fx_sub, FX_LIM, FX_ONE};
use arbor::node::{Node, NodeBuffer, GROWTH_FACTOR_FX, STATUS_ALIVE};
use arbor::rng::GrowthRng;

fn live_node(length: i64) -> Node {
    let mut n = Node::new();
    n.status = STATUS_ALIVE;
    n.visible = 1;
    n.length = length;
    n
}

#[test]
fn zero_branch_probability_grows_every_node_and_allocates_nothing() {
    let mut nb = NodeBuffer::new(10);
    let a = nb.allocate().unwrap();
    let b = nb.allocate().unwrap();
    nb.set(a, live_node(400_000));
    nb.set(b, live_node(10_000));
    let mut rng = GrowthRng::new(12345);
    nb.update_all_with(0, &mut rng);
    assert_eq!(nb.get(a).length, 400_040);
    assert_eq!(nb.get(b).length, 10_001);
    assert_eq!(nb.current_size(), 2);
    // Applied again, lengths keep strictly increasing and nothing appears.
    nb.update_all_with(0, &mut rng);
    nb.update_all_with(0, &mut rng);
    assert_eq!(nb.get(a).length, 400_120);
    assert_eq!(nb.get(b).length, 10_003);
    assert_eq!(nb.current_size(), 2);
}

#[test]
fn certain_branch_probability_splits_and_conserves_length() {
    let mut nb = NodeBuffer::new(10);
    let root = nb.allocate().unwrap();
    nb.set(root, live_node(400_000));
    let mut rng = GrowthRng::new(7);
    nb.update_all_with(1_000_000, &mut rng);
    // The one live node grew, then split at its midpoint with a new leaf:
    // three nodes now live.
    assert_eq!(nb.current_size(), 3);
    let rn = nb.get(root);
    let m = rn.leftChildIndex;
    let leaf = rn.rightChildIndex;
    assert_eq!(nb.get(m).parentIndex, root);
    assert_eq!(nb.get(leaf).parentIndex, root);
    assert_eq!(rn.length + nb.get(m).length, 400_040);
    assert_eq!(nb.get(leaf).length, 100_000);
    assert_eq!(nb.get(leaf).status, STATUS_ALIVE);
    assert_eq!(nb.get(leaf).visible, 1);
}

#[test]
fn branch_leaf_rotation_follows_the_seeded_draws() {
    let mut nb = NodeBuffer::new(10);
    let root = nb.allocate().unwrap();
    nb.set(root, live_node(400_000));
    let mut rng = GrowthRng::new(7);
    nb.update_all_with(1_000_000, &mut rng);
    let leaf = nb.get(root).rightChildIndex;
    // Replaying the generator from the same seed gives the angle the pass
    // drew: one probability draw, then one angle draw.
    let mut replay = GrowthRng::new(7);
    let _ = replay.next_ppm();
    let t = replay.next_angle();
    assert_eq!(nb.get(leaf).transformation, arbor::fixed::rot_z(t));
}

#[test]
fn branching_transplants_existing_children_to_the_middle_node() {
    let mut nb = NodeBuffer::new(10);
    let root = nb.allocate().unwrap();
    let c = nb.allocate().unwrap();
    nb.set(root, live_node(400_000));
    nb.set(c, live_node(50_000));
    nb.set_left_child(root, c);
    let mut rng = GrowthRng::new(3);
    nb.update_all_with(1_000_000, &mut rng);
    // Both live nodes branched; root's old child now hangs off the middle
    // node that root's split created.
    let m = nb.get(root).leftChildIndex;
    assert_eq!(nb.get(m).leftChildIndex, c);
    assert_eq!(nb.get(c).parentIndex, m);
    assert_eq!(nb.get(m).parentIndex, root);
}

#[test]
fn growth_skips_branching_when_fewer_than_two_slots_remain() {
    let mut nb = NodeBuffer::new(2);
    let root = nb.allocate().unwrap();
    nb.set(root, live_node(400_000));
    let mut rng = GrowthRng::new(9);
    nb.update_all_with(1_000_000, &mut rng);
    // Only one free slot: the branch is skipped, the node still grows.
    assert_eq!(nb.current_size(), 1);
    assert_eq!(nb.get(root).length, 400_040);
}

#[test]
fn new_nodes_do_not_grow_in_the_tick_that_made_them() {
    let mut nb = NodeBuffer::new(10);
    let root = nb.allocate().unwrap();
    nb.set(root, live_node(400_000));
    let mut rng = GrowthRng::new(7);
    nb.update_all_with(1_000_000, &mut rng);
    let leaf = nb.get(root).rightChildIndex;
    // The leaf was created mid-pass with its initial length and was not
    // itself visited.
    assert_eq!(nb.get(leaf).length, 100_000);
}

#[test]
fn update_all_draws_from_process_entropy() {
    let mut nb = NodeBuffer::new(64);
    let root = nb.allocate().unwrap();
    nb.set(root, live_node(400_000));
    let before = nb.current_size();
    nb.update_all();
    assert_eq!(nb.size(), 64);
    assert!(nb.current_size() >= before);
    assert!(nb.get(root).length >= 400_000);
}

#[test]
fn growth_rng_is_deterministic_per_seed() {
    let mut a = GrowthRng::new(42);
    let mut b = GrowthRng::new(42);
    for _ in 0..10 {
        assert_eq!(a.next_ppm(), b.next_ppm());
        assert_eq!(a.next_angle(), b.next_angle());
    }
    let p = GrowthRng::new(42).next_ppm();
    assert!(p < 1_000_000);
    let t = GrowthRng::new(43).next_angle();
    assert!((-500_000..=500_000).contains(&t));
}

#[test]
fn fixed_point_products_and_sums_behave() {
    assert_eq!(fx_mul(3_000_000, 2_000_000), 6_000_000);
    assert_eq!(fx_mul(-2_000_000, 3_000_000), -6_000_000);
    assert_eq!(fx_mul(400_000, GROWTH_FACTOR_FX), 400_040);
    // Truncation toward zero.
    assert_eq!(fx_mul(1, 500_000), 0);
    assert_eq!(fx_mul(-1, 500_000), 0);
    // Saturation at the representable limit.
    assert_eq!(fx_mul(FX_LIM, FX_LIM), FX_LIM);
    assert_eq!(fx_mul(-FX_LIM, FX_LIM), -FX_LIM);
    assert_eq!(fx_add(FX_LIM, FX_ONE), FX_LIM);
    assert_eq!(fx_sub(-FX_LIM, FX_ONE), -FX_LIM);
    assert_eq!(fx_add(200_000, 300_000), 500_000);
    assert_eq!(fx_sub(200_000, 300_000), -100_000);
}

#[test]
fn archetype_table_hands_out_consecutive_indices() {
    let mut t = ArchetypeTable::new();
    let a = t.register_archetype(Archetype { placeholder: 1 });
    let b = t.register_archetype(Archetype { placeholder: 2 });
    let c = t.register_archetype(Archetype { placeholder: 3 });
    assert_eq!((a, b, c), (0, 1, 2));
}
