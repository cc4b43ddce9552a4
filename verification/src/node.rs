//! The node arena: a fixed-capacity store of tree nodes plus a LIFO stack of
//! free indices. All structural relationships are indices into this one store;
//! the reserved maximum index value stands for "no such node".

use vstd::prelude::*;
use vstd::arithmetic::div_mod::{lemma_div_is_ordered, lemma_div_multiples_vanish, lemma_div_pos_is_pos};
use vstd::set_lib::{lemma_int_range, set_int_range};
use vstd::seq_lib::seq_to_set_is_finite;

use crate::archetype::INVALID_ARCHETYPE_INDEX;
use crate::fixed::{fx_mul, fx_mul_s, fx_sub, fx_sub_s, mat_apply_y, mat_apply_y_s, mat_identity, mat_identity_s, mat_mul, mat_mul_s, rot_z, rot_z_s, vec_add, vec_add_s, Mat3, Vec3, FX_LIM};
use crate::vertex::{color_end, color_end_s, color_start, color_start_s, Vertex};
use crate::rng::GrowthRng;

verus! {

/// The reserved index value meaning "no such node".
pub const INVALID_INDEX: u32 = 4_294_967_295;

/// Slot is unused; traversal, growth and geometry extraction skip it.
pub const STATUS_GARBAGE: u32 = 0;

/// Node was once alive but is not any more.
pub const STATUS_DEAD: u32 = 1;

/// Node is currently alive and grows.
pub const STATUS_ALIVE: u32 = 2;

/// Node is not alive and cannot die; reserved for structural nodes.
pub const STATUS_NEVER_ALIVE: u32 = 3;

/// One segment of the branching structure. Identity is the slot index in the
/// arena; `leftChildIndex`, `rightChildIndex` and `parentIndex` are slot
/// indices or `INVALID_INDEX`.
#[derive(Clone, Copy, Debug, PartialEq, Eq, Structural)]
pub struct Node {
    pub leftChildIndex: u32,
    pub rightChildIndex: u32,
    pub parentIndex: u32,
    /// Age of the node in ticks.
    pub age: u32,
    /// Index into the archetype table, or `INVALID_ARCHETYPE_INDEX`.
    pub archetype: u32,
    /// One of the `STATUS_` constants.
    pub status: u32,
    /// Cross-section area, fixed-point.
    pub area: i64,
    /// Segment length, fixed-point; drives geometry extraction.
    pub length: i64,
    /// 1 when the node contributes a rendered segment, 0 otherwise.
    pub visible: u32,
    /// World-space anchor; meaningful only when `parentIndex` is none.
    pub absolutePosition: Vec3,
    /// Orientation relative to the parent's end point.
    pub transformation: Mat3,
}

/// The value every slot holds at construction and that `Node::new` returns.
pub open spec fn blank_node() -> Node {
    Node {
        leftChildIndex: INVALID_INDEX,
        rightChildIndex: INVALID_INDEX,
        parentIndex: INVALID_INDEX,
        age: 0,
        archetype: INVALID_ARCHETYPE_INDEX,
        status: STATUS_GARBAGE,
        area: 0,
        length: 0,
        visible: 0,
        absolutePosition: Vec3 { x: 0, y: 0, z: 0 },
        transformation: mat_identity_s(),
    }
}

impl Node {
    /// A fresh garbage node with no links and an identity transformation.
    pub fn new() -> (r: Node)
        ensures
            r == blank_node(),
    {
        Node {
            leftChildIndex: INVALID_INDEX,
            rightChildIndex: INVALID_INDEX,
            parentIndex: INVALID_INDEX,
            age: 0,
            archetype: INVALID_ARCHETYPE_INDEX,
            status: STATUS_GARBAGE,
            area: 0,
            length: 0,
            visible: 0,
            absolutePosition: Vec3 { x: 0, y: 0, z: 0 },
            transformation: mat_identity(),
        }
    }
}

/// Fixed-capacity array of nodes plus the stack of free indices. The first
/// `free_ptr` entries of `free_stack` are the currently free slots; all other
/// slots are allocated.
#[derive(Clone, Debug)]
pub struct NodeBuffer {
    pub node_list: Vec<Node>,
    pub free_stack: Vec<u32>,
    pub free_ptr: u32,
    pub max_size: u32,
}

impl NodeBuffer {
    /// Well-formedness: both backing vectors have exactly `max_size` entries,
    /// and the live prefix of the free stack holds distinct in-bounds indices.
    pub open spec fn wf(self) -> bool {
        &&& 0 < self.max_size < INVALID_INDEX
        &&& self.node_list@.len() == self.max_size as int
        &&& self.free_stack@.len() == self.max_size as int
        &&& self.free_ptr <= self.max_size
        &&& forall|k: int|
            0 <= k < self.free_ptr as int ==> (#[trigger] self.free_stack@[k]) < self.max_size
        &&& forall|j: int, k: int|
            0 <= j < k < self.free_ptr as int ==> self.free_stack@[j] != self.free_stack@[k]
    }

    /// Index `i` sits in the live prefix of the free stack.
    pub open spec fn is_free(self, i: int) -> bool {
        exists|k: int| 0 <= k < self.free_ptr as int && (#[trigger] self.free_stack@[k]) as int == i
    }

    /// The set of currently free indices.
    pub open spec fn free_set(self) -> Set<int> {
        Set::new(|i: int| self.is_free(i))
    }

    /// An in-bounds index that is not free is allocated.
    pub open spec fn allocated(self, i: int) -> bool {
        0 <= i < self.max_size as int && !self.is_free(i)
    }

    /// The set of currently allocated indices.
    pub open spec fn allocated_set(self) -> Set<int> {
        Set::new(|i: int| self.allocated(i))
    }

    /// The live prefix of the free stack, as mathematical integers.
    pub open spec fn free_prefix(self) -> Seq<int> {
        self.free_stack@.take(self.free_ptr as int).map_values(|x: u32| x as int)
    }

    /// An arena of `size` all-garbage nodes whose free stack holds every index.
    pub fn new(size: u32) -> (r: NodeBuffer)
        requires
            0 < size < INVALID_INDEX,
        ensures
            r.wf(),
            r.max_size == size,
            r.free_ptr == size,
            forall|i: int| 0 <= i < size as int ==> r.node_list@[i] == blank_node(),
            forall|k: int| 0 <= k < size as int ==> (#[trigger] r.free_stack@[k]) as int == k,
            forall|i: int| 0 <= i < size as int ==> r.is_free(i),
    {
        let mut node_list: Vec<Node> = Vec::new();
        let mut free_stack: Vec<u32> = Vec::new();
        let mut k: u32 = 0;
        while k < size
            invariant
                k <= size,
                size < INVALID_INDEX,
                node_list@.len() == k as int,
                free_stack@.len() == k as int,
                forall|i: int| 0 <= i < k as int ==> node_list@[i] == blank_node(),
                forall|j: int| 0 <= j < k as int ==> (#[trigger] free_stack@[j]) as int == j,
            decreases size - k,
        {
            node_list.push(Node::new());
            free_stack.push(k);
            k = k + 1;
        }
        let r = NodeBuffer { node_list, free_stack, free_ptr: size, max_size: size };
        proof {
            assert forall|i: int| 0 <= i < size as int implies r.is_free(i) by {
                assert(r.free_stack@[i] as int == i);
            }
        }
        r
    }

    /// Direct read of a slot; the index must be in bounds.
    pub fn get(&self, index: u32) -> (r: Node)
        requires
            self.wf(),
            index < self.max_size,
        ensures
            r == self.node_list@[index as int],
    {
        self.node_list[index as usize]
    }

    /// Direct overwrite of a slot; the index must be in bounds.
    pub fn set(&mut self, index: u32, node: Node)
        requires
            old(self).wf(),
            index < old(self).max_size,
        ensures
            final(self).wf(),
            final(self).node_list@ == old(self).node_list@.update(index as int, node),
            final(self).free_stack@ == old(self).free_stack@,
            final(self).free_ptr == old(self).free_ptr,
            final(self).max_size == old(self).max_size,
    {
        self.node_list[index as usize] = node;
    }

    /// Pops the most recently freed index, or returns `None`, leaving the
    /// arena unchanged, when no free index remains.
    pub fn allocate(&mut self) -> (r: Option<u32>)
        requires
            old(self).wf(),
        ensures
            final(self).wf(),
            final(self).node_list@ == old(self).node_list@,
            final(self).free_stack@ == old(self).free_stack@,
            final(self).max_size == old(self).max_size,
            old(self).free_ptr == 0 ==> r == None::<u32> && *final(self) == *old(self),
            old(self).free_ptr > 0 ==> ({
                let popped = old(self).free_stack@[old(self).free_ptr as int - 1];
                &&& r == Some(popped)
                &&& popped < old(self).max_size
                &&& final(self).free_ptr == old(self).free_ptr - 1
                &&& old(self).is_free(popped as int)
                &&& forall|i: int|
                    final(self).is_free(i) <==> (old(self).is_free(i) && i != popped as int)
            }),
    {
        if self.free_ptr == 0 {
            None
        } else {
            self.free_ptr = self.free_ptr - 1;
            let idx = self.free_stack[self.free_ptr as usize];
            proof {
                let popped = idx as int;
                let fp = self.free_ptr as int;
                assert(old(self).free_stack@[fp] as int == popped);
                assert(old(self).is_free(popped));
                assert forall|i: int|
                    self.is_free(i) <==> (old(self).is_free(i) && i != popped) by {
                    if self.is_free(i) {
                        let k = choose|k: int|
                            0 <= k < fp && (#[trigger] self.free_stack@[k]) as int == i;
                        assert(old(self).free_stack@[k] as int == i);
                        assert(old(self).free_stack@[k] != old(self).free_stack@[fp]);
                    }
                    if old(self).is_free(i) && i != popped {
                        let k = choose|k: int|
                            0 <= k < fp + 1 && (#[trigger] old(self).free_stack@[k]) as int == i;
                        assert(k != fp);
                        assert(self.free_stack@[k] as int == i);
                    }
                }
            }
            Some(idx)
        }
    }

    /// Marks `index` free again and forces its slot's status to garbage. The
    /// index must currently be allocated.
    pub fn free(&mut self, index: u32)
        requires
            old(self).wf(),
            index < old(self).max_size,
            !old(self).is_free(index as int),
        ensures
            final(self).wf(),
            final(self).max_size == old(self).max_size,
            final(self).free_ptr == old(self).free_ptr + 1,
            final(self).node_list@ == old(self).node_list@.update(
                index as int,
                Node { status: STATUS_GARBAGE, ..old(self).node_list@[index as int] },
            ),
            final(self).free_stack@ == old(self).free_stack@.update(
                old(self).free_ptr as int,
                index,
            ),
            forall|i: int| final(self).is_free(i) <==> (old(self).is_free(i) || i == index as int),
    {
        proof {
            lemma_free_count(*old(self));
            if old(self).free_ptr == old(self).max_size {
                let range = set_int_range(0, old(self).max_size as int);
                lemma_int_range(0, old(self).max_size as int);
                old(self).free_set().lemma_subset_not_in_lt(range, index as int);
                assert(false);
            }
        }
        let mut n = self.node_list[index as usize];
        n.status = STATUS_GARBAGE;
        self.node_list[index as usize] = n;
        self.free_stack[self.free_ptr as usize] = index;
        self.free_ptr = self.free_ptr + 1;
        proof {
            let fp = old(self).free_ptr as int;
            assert forall|i: int|
                self.is_free(i) <==> (old(self).is_free(i) || i == index as int) by {
                if self.is_free(i) {
                    let k = choose|k: int|
                        0 <= k < fp + 1 && (#[trigger] self.free_stack@[k]) as int == i;
                    if k < fp {
                        assert(old(self).free_stack@[k] as int == i);
                    }
                }
                if old(self).is_free(i) {
                    let k = choose|k: int|
                        0 <= k < fp && (#[trigger] old(self).free_stack@[k]) as int == i;
                    assert(self.free_stack@[k] as int == i);
                }
                if i == index as int {
                    assert(self.free_stack@[fp] as int == i);
                }
            }
        }
    }

    /// The capacity the arena was constructed with.
    pub fn size(&self) -> (r: u32)
        ensures
            r == self.max_size,
    {
        self.max_size
    }

    /// How many indices are currently allocated.
    pub fn current_size(&self) -> (r: u32)
        requires
            self.wf(),
        ensures
            r as int == self.max_size as int - self.free_ptr as int,
    {
        self.max_size - self.free_ptr
    }

    /// Allocates a slot and overwrites it with `node`; the arena must not be
    /// full.
    pub fn alloc_insert(&mut self, node: Node)
        requires
            old(self).wf(),
            old(self).free_ptr > 0,
        ensures
            final(self).wf(),
            final(self).max_size == old(self).max_size,
            final(self).free_ptr == old(self).free_ptr - 1,
            ({
                let popped = old(self).free_stack@[old(self).free_ptr as int - 1];
                &&& final(self).node_list@ == old(self).node_list@.update(popped as int, node)
                &&& forall|i: int|
                    final(self).is_free(i) <==> (old(self).is_free(i) && i != popped as int)
            }),
    {
        let index = self.allocate();
        match index {
            Some(i) => self.set(i, node),
            None => (),
        }
    }
}

impl NodeBuffer {
    /// Free slots hold garbage nodes: nothing that was not allocated carries
    /// live data.
    pub open spec fn statuses_ok(self) -> bool {
        forall|i: int|
            0 <= i < self.max_size as int && self.is_free(i) ==> (#[trigger] self.node_list@[i]).status
                == STATUS_GARBAGE
    }

    /// A child link of the node in slot `i` is either none, or an allocated
    /// slot other than `i` itself.
    pub open spec fn link_ok(self, c: u32, i: int) -> bool {
        c == INVALID_INDEX || (c as int != i && self.allocated(c as int))
    }

    /// Both child links of the node in slot `i` are in order.
    pub open spec fn node_links_ok(self, i: int) -> bool {
        &&& self.link_ok(self.node_list@[i].leftChildIndex, i)
        &&& self.link_ok(self.node_list@[i].rightChildIndex, i)
    }

    /// Every allocated node's child links are in order.
    pub open spec fn links_ok(self) -> bool {
        forall|i: int|
            0 <= i < self.max_size as int && !self.is_free(i) ==> #[trigger] self.node_links_ok(i)
    }

    /// Back-reference consistency for one link: if `c` is a child link into
    /// the arena, the child's parent link points back at `p`.
    pub open spec fn back_ref_ok(self, p: int, c: u32) -> bool {
        c != INVALID_INDEX && (c as int) < self.max_size as int
            ==> self.node_list@[c as int].parentIndex as int == p
    }

    /// Arena-wide back-reference consistency: whenever a live node holds a
    /// child, that child's parent link points back at it.
    pub open spec fn back_refs_ok(self) -> bool {
        forall|p: int|
            0 <= p < self.max_size as int && (#[trigger] self.node_list@[p]).status
                != STATUS_GARBAGE ==> self.back_ref_ok(p, self.node_list@[p].leftChildIndex)
                && self.back_ref_ok(p, self.node_list@[p].rightChildIndex)
    }

    /// No live node other than the one at `q` holds `c` as a child. Attaching
    /// a child some other node still points at would break that other node's
    /// back-reference, so the consistency lemmas ask for this.
    pub open spec fn sole_claimant(self, q: int, c: u32) -> bool {
        forall|p: int|
            0 <= p < self.max_size as int && p != q && (#[trigger] self.node_list@[p]).status
                != STATUS_GARBAGE ==> self.node_list@[p].leftChildIndex != c
                && self.node_list@[p].rightChildIndex != c
    }

    /// Sets the left child link of `parent` to `child` and, when `child` is
    /// not none, points the child's parent link back at `parent`: the sole
    /// path by which back-reference consistency is established.
    pub fn set_left_child(&mut self, parent: u32, child: u32)
        requires
            old(self).wf(),
            parent < old(self).max_size,
            child != INVALID_INDEX ==> child < old(self).max_size,
        ensures
            final(self).wf(),
            final(self).free_stack@ == old(self).free_stack@,
            final(self).free_ptr == old(self).free_ptr,
            final(self).max_size == old(self).max_size,
            final(self).node_list@[parent as int].leftChildIndex == child,
            child != INVALID_INDEX ==> final(self).node_list@[child as int].parentIndex == parent,
            child == INVALID_INDEX ==> final(self).node_list@ == old(self).node_list@.update(
                parent as int,
                (Node { leftChildIndex: child, ..old(self).node_list@[parent as int] }),
            ),
            child != INVALID_INDEX && child != parent ==> final(self).node_list@ == old(self).node_list@.update(
                parent as int,
                (Node { leftChildIndex: child, ..old(self).node_list@[parent as int] }),
            ).update(
                child as int,
                (Node { parentIndex: parent, ..old(self).node_list@[child as int] }),
            ),
            child == parent ==> final(self).node_list@ == old(self).node_list@.update(
                parent as int,
                (Node {
                    leftChildIndex: child,
                    parentIndex: parent,
                    ..old(self).node_list@[parent as int]
                }),
            ),
            old(self).back_refs_ok() && (child != INVALID_INDEX ==> old(self).sole_claimant(
                parent as int,
                child,
            )) ==> final(self).back_refs_ok(),
    {
        let mut p = self.node_list[parent as usize];
        p.leftChildIndex = child;
        self.node_list[parent as usize] = p;
        if child != INVALID_INDEX {
            let mut c = self.node_list[child as usize];
            c.parentIndex = parent;
            self.node_list[child as usize] = c;
        }
        proof {
            if old(self).back_refs_ok() && (child != INVALID_INDEX ==> old(self).sole_claimant(
                parent as int,
                child,
            )) {
                let pre = *old(self);
                assert forall|p: int|
                    0 <= p < self.max_size as int && (#[trigger] self.node_list@[p]).status
                        != STATUS_GARBAGE implies self.back_ref_ok(
                    p,
                    self.node_list@[p].leftChildIndex,
                ) && self.back_ref_ok(p, self.node_list@[p].rightChildIndex) by {
                    assert(pre.node_list@[p].status != STATUS_GARBAGE);
                    assert(pre.back_ref_ok(p, pre.node_list@[p].leftChildIndex));
                    assert(pre.back_ref_ok(p, pre.node_list@[p].rightChildIndex));
                    if child != INVALID_INDEX && p != parent as int && (self.node_list@[p].leftChildIndex
                        == child || self.node_list@[p].rightChildIndex == child) {
                        assert(pre.node_list@[p].leftChildIndex
                            == self.node_list@[p].leftChildIndex && pre.node_list@[p].rightChildIndex
                            == self.node_list@[p].rightChildIndex);
                        assert(false);
                    }
                }
            }
        }
    }

    /// Sets the right child link of `parent` to `child`, pointing the child's
    /// parent link back at `parent` as `set_left_child` does.
    pub fn set_right_child(&mut self, parent: u32, child: u32)
        requires
            old(self).wf(),
            parent < old(self).max_size,
            child != INVALID_INDEX ==> child < old(self).max_size,
        ensures
            final(self).wf(),
            final(self).free_stack@ == old(self).free_stack@,
            final(self).free_ptr == old(self).free_ptr,
            final(self).max_size == old(self).max_size,
            final(self).node_list@[parent as int].rightChildIndex == child,
            child != INVALID_INDEX ==> final(self).node_list@[child as int].parentIndex == parent,
            child == INVALID_INDEX ==> final(self).node_list@ == old(self).node_list@.update(
                parent as int,
                (Node { rightChildIndex: child, ..old(self).node_list@[parent as int] }),
            ),
            child != INVALID_INDEX && child != parent ==> final(self).node_list@ == old(self).node_list@.update(
                parent as int,
                (Node { rightChildIndex: child, ..old(self).node_list@[parent as int] }),
            ).update(
                child as int,
                (Node { parentIndex: parent, ..old(self).node_list@[child as int] }),
            ),
            child == parent ==> final(self).node_list@ == old(self).node_list@.update(
                parent as int,
                (Node {
                    rightChildIndex: child,
                    parentIndex: parent,
                    ..old(self).node_list@[parent as int]
                }),
            ),
            old(self).back_refs_ok() && (child != INVALID_INDEX ==> old(self).sole_claimant(
                parent as int,
                child,
            )) ==> final(self).back_refs_ok(),
    {
        let mut p = self.node_list[parent as usize];
        p.rightChildIndex = child;
        self.node_list[parent as usize] = p;
        if child != INVALID_INDEX {
            let mut c = self.node_list[child as usize];
            c.parentIndex = parent;
            self.node_list[child as usize] = c;
        }
        proof {
            if old(self).back_refs_ok() && (child != INVALID_INDEX ==> old(self).sole_claimant(
                parent as int,
                child,
            )) {
                let pre = *old(self);
                assert forall|p: int|
                    0 <= p < self.max_size as int && (#[trigger] self.node_list@[p]).status
                        != STATUS_GARBAGE implies self.back_ref_ok(
                    p,
                    self.node_list@[p].leftChildIndex,
                ) && self.back_ref_ok(p, self.node_list@[p].rightChildIndex) by {
                    assert(pre.node_list@[p].status != STATUS_GARBAGE);
                    assert(pre.back_ref_ok(p, pre.node_list@[p].leftChildIndex));
                    assert(pre.back_ref_ok(p, pre.node_list@[p].rightChildIndex));
                    if child != INVALID_INDEX && p != parent as int && (self.node_list@[p].leftChildIndex
                        == child || self.node_list@[p].rightChildIndex == child) {
                        assert(pre.node_list@[p].leftChildIndex
                            == self.node_list@[p].leftChildIndex && pre.node_list@[p].rightChildIndex
                            == self.node_list@[p].rightChildIndex);
                        assert(false);
                    }
                }
            }
        }
    }
}

impl NodeBuffer {
    /// Divides the segment at `node_index` in two at the fraction
    /// `percentbreak` (in millionths, strictly between 0 and 1). A new node is
    /// allocated that copies every field of the old one, takes its two
    /// children (re-parented), the remaining `1 - percentbreak` share of the
    /// length, and an identity transformation; the old node keeps the
    /// `percentbreak` share, takes the new node as its left child, and has its
    /// right child cleared. Returns the new node's index, or `None`, changing
    /// nothing, when the arena is exhausted.
    pub fn divide(&mut self, percentbreak: u32, node_index: u32) -> (r: Option<u32>)
        requires
            old(self).wf(),
            0 < percentbreak < 1_000_000,
            node_index < old(self).max_size,
            !old(self).is_free(node_index as int),
            old(self).node_links_ok(node_index as int),
        ensures
            final(self).wf(),
            final(self).max_size == old(self).max_size,
            r == None::<u32> <==> old(self).free_ptr == 0,
            r == None::<u32> ==> *final(self) == *old(self),
            old(self).links_ok() && old(self).statuses_ok() ==> final(self).links_ok()
                && final(self).statuses_ok(),
            old(self).back_refs_ok() && old(self).links_ok() && old(self).statuses_ok() && (old(
                self,
            ).node_list@[node_index as int].leftChildIndex != INVALID_INDEX ==> old(
                self,
            ).sole_claimant(node_index as int, old(self).node_list@[node_index as int].leftChildIndex))
                && (old(self).node_list@[node_index as int].rightChildIndex != INVALID_INDEX
                ==> old(self).sole_claimant(
                node_index as int,
                old(self).node_list@[node_index as int].rightChildIndex,
            )) ==> final(self).back_refs_ok(),
            old(self).free_ptr > 0 ==> ({
                let m = old(self).free_stack@[old(self).free_ptr as int - 1];
                let orig = old(self).node_list@[node_index as int];
                let alen = fx_mul_s(orig.length as int, percentbreak as int);
                let blen = fx_sub_s(orig.length as int, alen);
                &&& r == Some(m)
                &&& m as int != node_index as int
                &&& m < old(self).max_size
                &&& final(self).free_ptr == old(self).free_ptr - 1
                &&& final(self).free_stack@ == old(self).free_stack@
                &&& forall|i: int|
                    final(self).is_free(i) <==> (old(self).is_free(i) && i != m as int)
                &&& final(self).node_list@[node_index as int] == (Node {
                    length: alen as i64,
                    leftChildIndex: m,
                    rightChildIndex: INVALID_INDEX,
                    ..orig
                })
                &&& final(self).node_list@[m as int] == (Node {
                    length: blen as i64,
                    transformation: mat_identity_s(),
                    parentIndex: node_index,
                    ..orig
                })
                &&& orig.leftChildIndex != INVALID_INDEX ==> final(self).node_list@[orig.leftChildIndex as int] == (Node {
                    parentIndex: m,
                    ..old(self).node_list@[orig.leftChildIndex as int]
                })
                &&& orig.rightChildIndex != INVALID_INDEX ==> final(self).node_list@[orig.rightChildIndex as int] == (Node {
                    parentIndex: m,
                    ..old(self).node_list@[orig.rightChildIndex as int]
                })
                &&& forall|i: int|
                    0 <= i < old(self).max_size as int && i != node_index as int && i != m as int
                        && i != orig.leftChildIndex as int && i != orig.rightChildIndex as int
                        ==> final(self).node_list@[i] == old(self).node_list@[i]
            }),
    {
        let new_node_index = match self.allocate() {
            None => {
                return None;
            },
            Some(i) => i,
        };
        let orig = self.get(node_index);
        let alen = fx_mul(orig.length, percentbreak as i64);
        let blen = fx_sub(orig.length, alen);
        let mut cur = orig;
        cur.length = alen;
        let mut newn = orig;
        newn.length = blen;
        newn.transformation = mat_identity();
        self.set(node_index, cur);
        self.set(new_node_index, newn);
        self.set_left_child(new_node_index, orig.leftChildIndex);
        self.set_right_child(new_node_index, orig.rightChildIndex);
        self.set_left_child(node_index, new_node_index);
        self.set_right_child(node_index, INVALID_INDEX);
        proof {
            if old(self).links_ok() && old(self).statuses_ok() {
                let pre = *old(self);
                let m = new_node_index as int;
                let li = orig.leftChildIndex;
                let ri = orig.rightChildIndex;
                assert forall|i: int|
                    0 <= i < self.max_size as int && self.is_free(i) implies (
                    #[trigger] self.node_list@[i]).status == STATUS_GARBAGE by {
                    assert(pre.is_free(i) && i != m);
                    assert(!pre.is_free(node_index as int));
                    if li != INVALID_INDEX {
                        assert(!pre.is_free(li as int));
                    }
                    if ri != INVALID_INDEX {
                        assert(!pre.is_free(ri as int));
                    }
                    assert(self.node_list@[i] == pre.node_list@[i]);
                }
                assert forall|i: int|
                    0 <= i < self.max_size as int && !self.is_free(i) implies #[trigger] self.node_links_ok(
                    i,
                ) by {
                    if i == node_index as int {
                        assert(!self.is_free(m));
                    } else if i == m {
                        if li != INVALID_INDEX {
                            assert(!pre.is_free(li as int));
                            assert(!self.is_free(li as int));
                        }
                        if ri != INVALID_INDEX {
                            assert(!pre.is_free(ri as int));
                            assert(!self.is_free(ri as int));
                        }
                    } else {
                        assert(!pre.is_free(i));
                        assert(pre.node_links_ok(i));
                        let n_pre = pre.node_list@[i];
                        assert(self.node_list@[i].leftChildIndex == n_pre.leftChildIndex
                            && self.node_list@[i].rightChildIndex == n_pre.rightChildIndex);
                        if n_pre.leftChildIndex != INVALID_INDEX {
                            assert(!self.is_free(n_pre.leftChildIndex as int));
                        }
                        if n_pre.rightChildIndex != INVALID_INDEX {
                            assert(!self.is_free(n_pre.rightChildIndex as int));
                        }
                    }
                }
            }
            if old(self).back_refs_ok() && old(self).links_ok() && old(self).statuses_ok() && (
            orig.leftChildIndex != INVALID_INDEX ==> old(self).sole_claimant(
                node_index as int,
                orig.leftChildIndex,
            )) && (orig.rightChildIndex != INVALID_INDEX ==> old(self).sole_claimant(
                node_index as int,
                orig.rightChildIndex,
            )) {
                let pre = *old(self);
                let m = new_node_index as int;
                let li = orig.leftChildIndex;
                let ri = orig.rightChildIndex;
                assert(pre.is_free(m));
                assert(pre.node_links_ok(node_index as int));
                assert forall|p: int|
                    0 <= p < self.max_size as int && (#[trigger] self.node_list@[p]).status
                        != STATUS_GARBAGE implies self.back_ref_ok(
                    p,
                    self.node_list@[p].leftChildIndex,
                ) && self.back_ref_ok(p, self.node_list@[p].rightChildIndex) by {
                    if p == node_index as int {
                        assert(self.node_list@[m].parentIndex as int == p);
                    } else if p == m {
                        if li != INVALID_INDEX {
                            assert(self.node_list@[li as int].parentIndex as int == m);
                        }
                        if ri != INVALID_INDEX {
                            assert(self.node_list@[ri as int].parentIndex as int == m);
                        }
                    } else {
                        assert(self.node_list@[p].leftChildIndex
                            == pre.node_list@[p].leftChildIndex && self.node_list@[p].rightChildIndex
                            == pre.node_list@[p].rightChildIndex);
                        assert(pre.node_list@[p].status != STATUS_GARBAGE);
                        assert(!pre.is_free(p));
                        assert(pre.node_links_ok(p));
                        assert(pre.back_ref_ok(p, pre.node_list@[p].leftChildIndex));
                        assert(pre.back_ref_ok(p, pre.node_list@[p].rightChildIndex));
                        let pl = self.node_list@[p].leftChildIndex;
                        let pr = self.node_list@[p].rightChildIndex;
                        if pl != INVALID_INDEX && (pl as int) < self.max_size as int {
                            assert(pl as int != m);
                            assert(li != INVALID_INDEX ==> pl != li);
                            assert(ri != INVALID_INDEX ==> pl != ri);
                            assert(self.node_list@[pl as int].parentIndex
                                == pre.node_list@[pl as int].parentIndex);
                        }
                        if pr != INVALID_INDEX && (pr as int) < self.max_size as int {
                            assert(pr as int != m);
                            assert(li != INVALID_INDEX ==> pr != li);
                            assert(ri != INVALID_INDEX ==> pr != ri);
                            assert(self.node_list@[pr as int].parentIndex
                                == pre.node_list@[pr as int].parentIndex);
                        }
                    }
                }
            }
        }
        Some(new_node_index)
    }

    /// Divides the segment at `branch_parent_index` at the given fraction and
    /// attaches `branch_child_index` as the right child of the original split
    /// point, inserting a lateral branch there. Returns the index of the node
    /// carrying the upper half, or `None`, changing nothing, when the arena is
    /// exhausted.
    pub fn branch(&mut self, branch_parent_index: u32, percentbreak: u32, branch_child_index: u32)
        -> (r: Option<u32>)
        requires
            old(self).wf(),
            0 < percentbreak < 1_000_000,
            branch_parent_index < old(self).max_size,
            !old(self).is_free(branch_parent_index as int),
            old(self).node_links_ok(branch_parent_index as int),
            branch_child_index != INVALID_INDEX ==> old(self).allocated(branch_child_index as int)
                && branch_child_index != branch_parent_index && branch_child_index != old(self).node_list@[branch_parent_index as int].leftChildIndex && branch_child_index != old(self).node_list@[branch_parent_index as int].rightChildIndex,
        ensures
            final(self).wf(),
            final(self).max_size == old(self).max_size,
            r == None::<u32> <==> old(self).free_ptr == 0,
            r == None::<u32> ==> *final(self) == *old(self),
            old(self).links_ok() && old(self).statuses_ok() ==> final(self).links_ok()
                && final(self).statuses_ok(),
            old(self).back_refs_ok() && old(self).links_ok() && old(self).statuses_ok() && (old(
                self,
            ).node_list@[branch_parent_index as int].leftChildIndex != INVALID_INDEX ==> old(
                self,
            ).sole_claimant(
                branch_parent_index as int,
                old(self).node_list@[branch_parent_index as int].leftChildIndex,
            )) && (old(self).node_list@[branch_parent_index as int].rightChildIndex
                != INVALID_INDEX ==> old(self).sole_claimant(
                branch_parent_index as int,
                old(self).node_list@[branch_parent_index as int].rightChildIndex,
            )) && (branch_child_index != INVALID_INDEX ==> old(self).sole_claimant(
                branch_parent_index as int,
                branch_child_index,
            )) ==> final(self).back_refs_ok(),
            old(self).free_ptr > 0 ==> ({
                let m = old(self).free_stack@[old(self).free_ptr as int - 1];
                let orig = old(self).node_list@[branch_parent_index as int];
                let alen = fx_mul_s(orig.length as int, percentbreak as int);
                let blen = fx_sub_s(orig.length as int, alen);
                &&& r == Some(m)
                &&& m as int != branch_parent_index as int
                &&& m < old(self).max_size
                &&& final(self).free_ptr == old(self).free_ptr - 1
                &&& final(self).free_stack@ == old(self).free_stack@
                &&& forall|i: int|
                    final(self).is_free(i) <==> (old(self).is_free(i) && i != m as int)
                &&& final(self).node_list@[branch_parent_index as int] == (Node {
                    length: alen as i64,
                    leftChildIndex: m,
                    rightChildIndex: branch_child_index,
                    ..orig
                })
                &&& final(self).node_list@[m as int] == (Node {
                    length: blen as i64,
                    transformation: mat_identity_s(),
                    parentIndex: branch_parent_index,
                    ..orig
                })
                &&& branch_child_index != INVALID_INDEX ==> final(self).node_list@[branch_child_index as int] == (Node {
                    parentIndex: branch_parent_index,
                    ..old(self).node_list@[branch_child_index as int]
                })
                &&& orig.leftChildIndex != INVALID_INDEX ==> final(self).node_list@[orig.leftChildIndex as int] == (Node {
                    parentIndex: m,
                    ..old(self).node_list@[orig.leftChildIndex as int]
                })
                &&& orig.rightChildIndex != INVALID_INDEX ==> final(self).node_list@[orig.rightChildIndex as int] == (Node {
                    parentIndex: m,
                    ..old(self).node_list@[orig.rightChildIndex as int]
                })
                &&& forall|i: int|
                    0 <= i < old(self).max_size as int && i != branch_parent_index as int && i
                        != m as int && i != orig.leftChildIndex as int && i
                        != orig.rightChildIndex as int && i != branch_child_index as int ==> final(self).node_list@[i] == old(self).node_list@[i]
            }),
    {
        match self.divide(percentbreak, branch_parent_index) {
            None => None,
            Some(m) => {
                let ghost mid = *self;
                self.set_right_child(branch_parent_index, branch_child_index);
                proof {
                    if old(self).links_ok() && old(self).statuses_ok() {
                        let pre = *old(self);
                        assert(mid.links_ok() && mid.statuses_ok());
                        assert forall|i: int|
                            0 <= i < self.max_size as int && self.is_free(i) implies (
                            #[trigger] self.node_list@[i]).status == STATUS_GARBAGE by {
                            assert(mid.is_free(i));
                            assert(!mid.is_free(branch_parent_index as int));
                            if branch_child_index != INVALID_INDEX {
                                assert(!pre.is_free(branch_child_index as int));
                                assert(!mid.is_free(branch_child_index as int));
                            }
                            assert(self.node_list@[i] == mid.node_list@[i]);
                        }
                        if old(self).back_refs_ok() && old(self).links_ok() && old(self).statuses_ok() && (old(
                            self,
                        ).node_list@[branch_parent_index as int].leftChildIndex != INVALID_INDEX
                            ==> old(self).sole_claimant(
                            branch_parent_index as int,
                            old(self).node_list@[branch_parent_index as int].leftChildIndex,
                        )) && (old(self).node_list@[branch_parent_index as int].rightChildIndex
                            != INVALID_INDEX ==> old(self).sole_claimant(
                            branch_parent_index as int,
                            old(self).node_list@[branch_parent_index as int].rightChildIndex,
                        )) && (branch_child_index != INVALID_INDEX ==> old(self).sole_claimant(
                            branch_parent_index as int,
                            branch_child_index,
                        )) {
                            let pre2 = *old(self);
                            let orig2 = pre2.node_list@[branch_parent_index as int];
                            assert(mid.back_refs_ok());
                            if branch_child_index != INVALID_INDEX {
                                assert(mid.sole_claimant(
                                    branch_parent_index as int,
                                    branch_child_index,
                                )) by {
                                    assert forall|p: int|
                                        0 <= p < mid.max_size as int && p
                                            != branch_parent_index as int && (
                                        #[trigger] mid.node_list@[p]).status != STATUS_GARBAGE
                                        implies mid.node_list@[p].leftChildIndex
                                        != branch_child_index && mid.node_list@[p].rightChildIndex
                                        != branch_child_index by {
                                        if p == m as int {
                                        } else {
                                            assert(mid.node_list@[p].leftChildIndex
                                                == pre2.node_list@[p].leftChildIndex
                                                && mid.node_list@[p].rightChildIndex
                                                == pre2.node_list@[p].rightChildIndex);
                                            assert(pre2.node_list@[p].status != STATUS_GARBAGE);
                                        }
                                    }
                                }
                            }
                            assert(self.back_refs_ok());
                        }
                        
                        assert forall|i: int|
                            0 <= i < self.max_size as int && !self.is_free(i)
                            implies #[trigger] self.node_links_ok(i) by {
                            assert(!mid.is_free(i));
                            assert(mid.node_links_ok(i));
                            if i == branch_parent_index as int {
                                assert(self.node_list@[i].leftChildIndex
                                    == mid.node_list@[i].leftChildIndex);
                                assert(!self.is_free(mid.node_list@[i].leftChildIndex as int));
                                if branch_child_index != INVALID_INDEX {
                                    assert(!pre.is_free(branch_child_index as int));
                                    assert(!self.is_free(branch_child_index as int));
                                }
                            } else {
                                let n_mid = mid.node_list@[i];
                                assert(self.node_list@[i].leftChildIndex == n_mid.leftChildIndex
                                    && self.node_list@[i].rightChildIndex
                                    == n_mid.rightChildIndex);
                                if n_mid.leftChildIndex != INVALID_INDEX {
                                    assert(!self.is_free(n_mid.leftChildIndex as int));
                                }
                                if n_mid.rightChildIndex != INVALID_INDEX {
                                    assert(!self.is_free(n_mid.rightChildIndex as int));
                                }
                            }
                        }
                    }
                }
                Some(m)
            },
        }
    }
}

/// Per-tick multiplicative growth factor for a segment's length, fixed-point.
pub const GROWTH_FACTOR_FX: i64 = 1_000_100;

/// Probability, in millionths per node per tick, of spawning a new lateral
/// branch.
pub const BRANCH_PROB_PPM: u32 = 500;

/// Fraction, in millionths, of the way along a segment at which a new lateral
/// branch is inserted: the midpoint.
pub const BRANCH_POINT_PPM: u32 = 500_000;

/// Initial length of a freshly spawned branch, fixed-point.
pub const BRANCH_INIT_LENGTH: i64 = 100_000;

/// A node after one growth tick: its length scaled by the growth factor,
/// everything else unchanged.
pub open spec fn grown(n: Node) -> Node {
    Node { length: fx_mul_s(n.length as int, GROWTH_FACTOR_FX as int) as i64, ..n }
}

/// After a tick, a node's parent link is either what it was, or it points at
/// a slot that was free when the tick began: the middle node of the split
/// that transplanted this node. With unique parentage that middle node is
/// the one its own parent's split created.
pub open spec fn tick_parent_ok(pre: NodeBuffer, post: NodeBuffer, i: int) -> bool {
    ||| post.node_list@[i].parentIndex == pre.node_list@[i].parentIndex
    ||| ((post.node_list@[i].parentIndex as int) < pre.max_size as int && pre.is_free(
        post.node_list@[i].parentIndex as int,
    ))
}

/// The tick only grew the node at slot `i`: its length was scaled by the
/// growth factor and every other field is untouched, apart from the parent
/// link, which a split of its parent may have rewritten.
pub open spec fn tick_grew(pre: NodeBuffer, post: NodeBuffer, i: int) -> bool {
    post.node_list@[i] == (Node {
        parentIndex: post.node_list@[i].parentIndex,
        ..grown(pre.node_list@[i])
    })
}

/// The tick grew the node at slot `i` and then branched it at the midpoint:
/// two slots `m` and `x` that were free at entry were consumed; the node
/// keeps the `BRANCH_POINT_PPM` share of its grown length with `m` as its
/// left and `x` as its right child; `m` carries the remaining length, an
/// identity transformation and the node's previous children; `x` is a fresh
/// alive, visible leaf of length `BRANCH_INIT_LENGTH`, rotated about the
/// third axis by at most half a unit angle; and each previous child now
/// hangs off a slot that was free at entry (with unique parentage, off `m`).
pub open spec fn tick_branched(pre: NodeBuffer, post: NodeBuffer, i: int) -> bool {
    let g = grown(pre.node_list@[i]);
    let m = post.node_list@[i].leftChildIndex;
    let x = post.node_list@[i].rightChildIndex;
    let half = fx_mul_s(g.length as int, BRANCH_POINT_PPM as int);
    &&& m < pre.max_size && pre.is_free(m as int) && m as int != i && !post.is_free(m as int)
    &&& x < pre.max_size && pre.is_free(x as int) && x != m && x as int != i && !post.is_free(
        x as int,
    )
    &&& post.node_list@[i] == (Node {
        length: half as i64,
        leftChildIndex: m,
        rightChildIndex: x,
        parentIndex: post.node_list@[i].parentIndex,
        ..g
    })
    &&& post.node_list@[m as int] == (Node {
        length: fx_sub_s(g.length as int, half) as i64,
        transformation: mat_identity_s(),
        parentIndex: i as u32,
        ..g
    })
    &&& (exists|t: int|
        -500_000 <= t <= 500_000 && post.node_list@[x as int] == (Node {
            status: STATUS_ALIVE,
            visible: 1,
            length: BRANCH_INIT_LENGTH,
            parentIndex: i as u32,
            transformation: (#[trigger] rot_z_s(t)),
            ..blank_node()
        }))
    &&& (g.leftChildIndex != INVALID_INDEX && (g.leftChildIndex as int) < pre.max_size as int
        ==> (post.node_list@[g.leftChildIndex as int].parentIndex as int) < pre.max_size as int
        && pre.is_free(post.node_list@[g.leftChildIndex as int].parentIndex as int))
    &&& (g.rightChildIndex != INVALID_INDEX && (g.rightChildIndex as int) < pre.max_size as int
        ==> (post.node_list@[g.rightChildIndex as int].parentIndex as int) < pre.max_size as int
        && pre.is_free(post.node_list@[g.rightChildIndex as int].parentIndex as int))
}

/// Between two mid-tick states, slot `j`'s parent link was kept or points at
/// an entry-free slot.
spec fn parent_kept_or_freed(pre: NodeBuffer, a: NodeBuffer, b: NodeBuffer, j: int) -> bool {
    ||| b.node_list@[j].parentIndex == a.node_list@[j].parentIndex
    ||| ((b.node_list@[j].parentIndex as int) < pre.max_size as int && pre.is_free(
        b.node_list@[j].parentIndex as int,
    ))
}

/// Between two mid-tick states, slot `j` was untouched, or only its parent
/// link was rewritten to an entry-free slot.
spec fn same_or_reparented(pre: NodeBuffer, a: NodeBuffer, b: NodeBuffer, j: int) -> bool {
    ||| b.node_list@[j] == a.node_list@[j]
    ||| (b.node_list@[j] == (Node {
        parentIndex: b.node_list@[j].parentIndex,
        ..a.node_list@[j]
    }) && (b.node_list@[j].parentIndex as int) < pre.max_size as int && pre.is_free(
        b.node_list@[j].parentIndex as int,
    ))
}

/// A tick outcome already established for slot `i` survives the rest of the
/// pass: later steps may rewrite parent links (to entry-free slots) but do
/// not otherwise touch the slots the outcome speaks of.
proof fn lemma_tick_outcome_stable(pre: NodeBuffer, a: NodeBuffer, b: NodeBuffer, i: int)
    requires
        0 <= i < pre.max_size as int,
        a.node_list@.len() == pre.max_size as int,
        b.node_list@.len() == pre.max_size as int,
        tick_parent_ok(pre, a, i),
        tick_grew(pre, a, i) || tick_branched(pre, a, i),
        same_or_reparented(pre, a, b, i),
        tick_branched(pre, a, i) ==> ({
            let m = a.node_list@[i].leftChildIndex as int;
            let x = a.node_list@[i].rightChildIndex as int;
            let g = grown(pre.node_list@[i]);
            &&& b.node_list@[m] == a.node_list@[m]
            &&& b.node_list@[x] == a.node_list@[x]
            &&& !b.is_free(m)
            &&& !b.is_free(x)
            &&& (g.leftChildIndex != INVALID_INDEX && (g.leftChildIndex as int)
                < pre.max_size as int ==> parent_kept_or_freed(pre, a, b, g.leftChildIndex as int))
            &&& (g.rightChildIndex != INVALID_INDEX && (g.rightChildIndex as int)
                < pre.max_size as int ==> parent_kept_or_freed(pre, a, b, g.rightChildIndex as int))
        }),
    ensures
        tick_parent_ok(pre, b, i),
        tick_grew(pre, b, i) || tick_branched(pre, b, i),
{
    if tick_branched(pre, a, i) {
        let m = a.node_list@[i].leftChildIndex as int;
        let x = a.node_list@[i].rightChildIndex as int;
        assert(b.node_list@[i].leftChildIndex == a.node_list@[i].leftChildIndex);
        assert(b.node_list@[i].rightChildIndex == a.node_list@[i].rightChildIndex);
        let t = choose|t: int|
            -500_000 <= t <= 500_000 && a.node_list@[x] == (Node {
                status: STATUS_ALIVE,
                visible: 1,
                length: BRANCH_INIT_LENGTH,
                parentIndex: i as u32,
                transformation: (#[trigger] rot_z_s(t)),
                ..blank_node()
            });
        assert(b.node_list@[x] == (Node {
            status: STATUS_ALIVE,
            visible: 1,
            length: BRANCH_INIT_LENGTH,
            parentIndex: i as u32,
            transformation: rot_z_s(t),
            ..blank_node()
        }));
        assert(tick_branched(pre, b, i));
    } else {
        assert(tick_grew(pre, b, i));
    }
}

impl NodeBuffer {
    /// One growth tick over a snapshot of the currently live nodes: every
    /// node that was allocated and not garbage when the tick began has its
    /// length scaled by `GROWTH_FACTOR_FX`; with probability
    /// `branch_prob_ppm` in millionths per node, and when at least two free
    /// slots remain, a new leaf (alive, visible, of length
    /// `BRANCH_INIT_LENGTH`, rotated by a random angle) is inserted at the
    /// node's midpoint through `branch`. Nodes allocated during the pass are
    /// not themselves visited. Whatever the draws, every node live at entry
    /// ends the tick in one of the two shapes `tick_grew` and `tick_branched`
    /// describe exactly, and free slots that stay free are untouched. With a
    /// branch probability of zero the pass is fully deterministic: no
    /// allocation happens and every live node is exactly its old value with
    /// the length grown.
    #[verifier::rlimit(100)]
    #[verifier::spinoff_prover]
    pub fn update_all_with(&mut self, branch_prob_ppm: u32, rng: &mut GrowthRng)
        requires
            old(self).wf(),
            old(self).links_ok(),
            old(self).statuses_ok(),
        ensures
            final(self).wf(),
            final(self).links_ok(),
            final(self).statuses_ok(),
            final(self).max_size == old(self).max_size,
            forall|i: int| final(self).is_free(i) ==> old(self).is_free(i),
            forall|i: int|
                0 <= i < old(self).max_size as int && !old(self).is_free(i) && (#[trigger] old(self).node_list@[i]).status != STATUS_GARBAGE ==> (tick_grew(
                    *old(self),
                    *final(self),
                    i,
                ) || tick_branched(*old(self), *final(self), i)) && tick_parent_ok(
                    *old(self),
                    *final(self),
                    i,
                ),
            forall|j: int|
                0 <= j < old(self).max_size as int && final(self).is_free(j) ==> final(self).node_list@[j] == old(self).node_list@[j],
            branch_prob_ppm == 0 ==> ({
                &&& final(self).free_ptr == old(self).free_ptr
                &&& final(self).free_stack@ == old(self).free_stack@
                &&& forall|j: int|
                    0 <= j < old(self).max_size as int ==> final(self).node_list@[j] == (if old(self).node_list@[j].status != STATUS_GARBAGE {
                        grown(old(self).node_list@[j])
                    } else {
                        old(self).node_list@[j]
                    })
            }),
    {
        let ghost pre = *self;
        let mut snapshot: Vec<u32> = Vec::new();
        let mut i: u32 = 0;
        while i < self.max_size
            invariant
                *self == pre,
                pre.wf(),
                i <= pre.max_size,
                forall|k: int| 0 <= k < snapshot@.len() ==> (#[trigger] snapshot@[k]) < i,
                forall|a: int, b: int|
                    0 <= a < b < snapshot@.len() ==> snapshot@[a] < snapshot@[b],
                forall|k: int|
                    0 <= k < snapshot@.len() ==> pre.node_list@[(#[trigger] snapshot@[k]) as int].status
                        != STATUS_GARBAGE,
                forall|j: int|
                    0 <= j < i as int && pre.node_list@[j].status != STATUS_GARBAGE
                        ==> exists|k: int|
                        0 <= k < snapshot@.len() && (#[trigger] snapshot@[k]) as int == j,
            decreases pre.max_size as int - i as int,
        {
            let ghost snap0 = snapshot@;
            if self.node_list[i as usize].status != STATUS_GARBAGE {
                snapshot.push(i);
            }
            proof {
                assert forall|j: int|
                    0 <= j <= i as int && pre.node_list@[j].status != STATUS_GARBAGE
                    implies exists|k: int|
                    0 <= k < snapshot@.len() && (#[trigger] snapshot@[k]) as int == j by {
                    if j < i as int {
                        let k = choose|k: int|
                            0 <= k < snap0.len() && (#[trigger] snap0[k]) as int == j;
                        assert(snapshot@[k] as int == j);
                    } else {
                        assert(snapshot@[snapshot@.len() - 1] as int == j);
                    }
                }
            }
            i = i + 1;
        }
        let mut s: usize = 0;
        while s < snapshot.len()
            invariant
                pre.wf(),
                pre.links_ok(),
                pre.statuses_ok(),
                self.wf(),
                self.links_ok(),
                self.statuses_ok(),
                self.max_size == pre.max_size,
                s <= snapshot@.len(),
                forall|k: int|
                    0 <= k < snapshot@.len() ==> (#[trigger] snapshot@[k]) < pre.max_size,
                forall|a: int, b: int|
                    0 <= a < b < snapshot@.len() ==> snapshot@[a] < snapshot@[b],
                forall|k: int|
                    0 <= k < snapshot@.len() ==> pre.node_list@[(#[trigger] snapshot@[k]) as int].status
                        != STATUS_GARBAGE,
                forall|j: int|
                    0 <= j < pre.max_size as int && pre.node_list@[j].status != STATUS_GARBAGE
                        ==> exists|k: int|
                        0 <= k < snapshot@.len() && (#[trigger] snapshot@[k]) as int == j,
                forall|i: int| self.is_free(i) ==> pre.is_free(i),
                forall|k: int|
                    0 <= k < s as int ==> (tick_grew(pre, *self, (#[trigger] snapshot@[k]) as int)
                        || tick_branched(pre, *self, snapshot@[k] as int)),
                forall|k: int|
                    0 <= k < snapshot@.len() ==> tick_parent_ok(
                        pre,
                        *self,
                        (#[trigger] snapshot@[k]) as int,
                    ),
                forall|k: int|
                    s as int <= k < snapshot@.len() ==> self.node_list@[(
                    #[trigger] snapshot@[k]) as int] == (Node {
                        parentIndex: self.node_list@[snapshot@[k] as int].parentIndex,
                        ..pre.node_list@[snapshot@[k] as int]
                    }),
                forall|j: int|
                    0 <= j < pre.max_size as int && self.is_free(j) ==> self.node_list@[j]
                        == pre.node_list@[j],
                branch_prob_ppm == 0 ==> ({
                    &&& self.free_ptr == pre.free_ptr
                    &&& self.free_stack@ == pre.free_stack@
                    &&& forall|k: int|
                        0 <= k < s as int ==> self.node_list@[(#[trigger] snapshot@[k]) as int]
                            == grown(pre.node_list@[snapshot@[k] as int])
                    &&& forall|k: int|
                        s as int <= k < snapshot@.len() ==> self.node_list@[(
                        #[trigger] snapshot@[k]) as int] == pre.node_list@[snapshot@[k] as int]
                    &&& forall|j: int|
                        0 <= j < pre.max_size as int && pre.node_list@[j].status == STATUS_GARBAGE
                            ==> self.node_list@[j] == pre.node_list@[j]
                }),
            decreases snapshot@.len() - s as int,
        {
            let idx = snapshot[s];
            proof {
                if pre.is_free(idx as int) {
                    assert(pre.node_list@[idx as int].status == STATUS_GARBAGE);
                }
                assert(!pre.is_free(idx as int));
                assert(snapshot@[s as int] == idx);
            }
            let ghost st0 = *self;
            let mut n = self.get(idx);
            n.length = fx_mul(n.length, GROWTH_FACTOR_FX);
            self.set(idx, n);
            let ghost st1 = *self;
            proof {
                assert forall|q: int|
                    0 <= q < st1.max_size as int && !st1.is_free(q)
                    implies #[trigger] st1.node_links_ok(q) by {
                    assert(st0.node_links_ok(q));
                }
                assert(st1.links_ok());
                assert(st1.statuses_ok());
                assert(st0.node_list@[idx as int] == (Node {
                    parentIndex: st0.node_list@[idx as int].parentIndex,
                    ..pre.node_list@[idx as int]
                }));
                assert(tick_grew(pre, st1, idx as int));
                assert(!st0.is_free(idx as int));
                assert(pre.node_links_ok(idx as int));
                assert forall|k: int|
                    0 <= k < s as int implies (tick_grew(
                    pre,
                    st1,
                    (#[trigger] snapshot@[k]) as int,
                ) || tick_branched(pre, st1, snapshot@[k] as int)) by {
                    let ik = snapshot@[k] as int;
                    assert(snapshot@[k] < idx);
                    assert(st1.node_list@[ik] == st0.node_list@[ik]);
                    assert(same_or_reparented(pre, st0, st1, ik));
                    if tick_branched(pre, st0, ik) {
                        let mk = st0.node_list@[ik].leftChildIndex as int;
                        let xk = st0.node_list@[ik].rightChildIndex as int;
                        assert(mk != idx as int && xk != idx as int);
                        assert(st1.node_list@[mk] == st0.node_list@[mk]);
                        assert(st1.node_list@[xk] == st0.node_list@[xk]);
                        assert(!st1.is_free(mk) && !st1.is_free(xk));
                        let gk = grown(pre.node_list@[ik]);
                        assert(gk.leftChildIndex != INVALID_INDEX && (gk.leftChildIndex as int)
                            < pre.max_size as int ==> parent_kept_or_freed(
                            pre,
                            st0,
                            st1,
                            gk.leftChildIndex as int,
                        ));
                        assert(gk.rightChildIndex != INVALID_INDEX && (gk.rightChildIndex as int)
                            < pre.max_size as int ==> parent_kept_or_freed(
                            pre,
                            st0,
                            st1,
                            gk.rightChildIndex as int,
                        ));
                    }
                    lemma_tick_outcome_stable(pre, st0, st1, ik);
                }
                assert forall|k: int|
                    0 <= k < snapshot@.len() implies tick_parent_ok(
                    pre,
                    st1,
                    (#[trigger] snapshot@[k]) as int,
                ) by {
                    let j = snapshot@[k] as int;
                    if j != idx as int {
                        assert(st1.node_list@[j] == st0.node_list@[j]);
                    }
                }
                assert forall|j: int|
                    0 <= j < pre.max_size as int && st1.is_free(j) implies st1.node_list@[j]
                    == pre.node_list@[j] by {
                    assert(st0.is_free(j));
                    assert(j != idx as int);
                }
            }
            let draw = rng.next_ppm();
            if draw < branch_prob_ppm && self.free_ptr >= 2 {
                let t = rng.next_angle();
                let mut leaf = Node::new();
                leaf.status = STATUS_ALIVE;
                leaf.visible = 1;
                leaf.length = BRANCH_INIT_LENGTH;
                leaf.transformation = rot_z(t);
                match self.allocate() {
                    Some(ni) => {
                        let ghost st2 = *self;
                        self.set(ni, leaf);
                        let ghost st3 = *self;
                        proof {
                            assert(!st1.is_free(idx as int));
                            assert(st1.node_links_ok(idx as int));
                            assert(st3.node_list@[idx as int] == st1.node_list@[idx as int]);
                            assert forall|q: int|
                                0 <= q < st3.max_size as int && st3.is_free(q) implies (
                            #[trigger] st3.node_list@[q]).status == STATUS_GARBAGE by {
                                assert(st1.is_free(q));
                                assert(q != ni as int);
                            }
                            assert(st3.statuses_ok());
                            assert forall|q: int|
                                0 <= q < st3.max_size as int && !st3.is_free(q)
                                implies #[trigger] st3.node_links_ok(q) by {
                                if q == ni as int {
                                } else {
                                    assert(!st1.is_free(q));
                                    assert(st1.node_links_ok(q));
                                    assert(st3.node_list@[q] == st1.node_list@[q]);
                                    let nl = st1.node_list@[q].leftChildIndex;
                                    let nr = st1.node_list@[q].rightChildIndex;
                                    if nl != INVALID_INDEX {
                                        assert(!st1.is_free(nl as int));
                                        assert(!st3.is_free(nl as int));
                                    }
                                    if nr != INVALID_INDEX {
                                        assert(!st1.is_free(nr as int));
                                        assert(!st3.is_free(nr as int));
                                    }
                                }
                            }
                            assert(st3.links_ok());
                            let li = st3.node_list@[idx as int].leftChildIndex;
                            let ri = st3.node_list@[idx as int].rightChildIndex;
                            if li != INVALID_INDEX {
                                assert(!st1.is_free(li as int));
                                assert(li != ni);
                            }
                            if ri != INVALID_INDEX {
                                assert(!st1.is_free(ri as int));
                                assert(ri != ni);
                            }
                            assert(!st3.is_free(idx as int));
                            assert(st3.allocated(ni as int));
                        }
                        let _ = self.branch(idx, BRANCH_POINT_PPM, ni);
                        proof {
                            assert forall|q: int| self.is_free(q) implies pre.is_free(q) by {
                                assert(st3.is_free(q));
                                assert(st1.is_free(q));
                            }
                            let st4 = *self;
                            let mv = st3.free_stack@[st3.free_ptr as int - 1];
                            let g = grown(pre.node_list@[idx as int]);
                            let orig = st3.node_list@[idx as int];
                            assert(st3.free_ptr > 0);
                            assert(pre.is_free(mv as int)) by {
                                assert(st3.is_free(mv as int));
                                assert(st1.is_free(mv as int));
                            }
                            assert(pre.is_free(ni as int)) by {
                                assert(st1.is_free(ni as int));
                            }
                            assert(orig == (Node { parentIndex: orig.parentIndex, ..g }));
                            assert(!st4.is_free(mv as int));
                            assert(!st4.is_free(ni as int)) by {
                                if st4.is_free(ni as int) {
                                    assert(st3.is_free(ni as int));
                                }
                            }
                            assert(st4.node_list@[idx as int] == (Node {
                                length: fx_mul_s(g.length as int, BRANCH_POINT_PPM as int) as i64,
                                leftChildIndex: mv,
                                rightChildIndex: ni,
                                parentIndex: st4.node_list@[idx as int].parentIndex,
                                ..g
                            }));
                            assert(st4.node_list@[mv as int] == (Node {
                                length: fx_sub_s(
                                    g.length as int,
                                    fx_mul_s(g.length as int, BRANCH_POINT_PPM as int),
                                ) as i64,
                                transformation: mat_identity_s(),
                                parentIndex: idx,
                                ..g
                            }));
                            assert(st3.node_list@[ni as int] == (Node {
                                status: STATUS_ALIVE,
                                visible: 1,
                                length: BRANCH_INIT_LENGTH,
                                parentIndex: INVALID_INDEX,
                                transformation: rot_z_s(t as int),
                                ..blank_node()
                            }));
                            assert(st4.node_list@[ni as int] == (Node {
                                status: STATUS_ALIVE,
                                visible: 1,
                                length: BRANCH_INIT_LENGTH,
                                parentIndex: idx,
                                transformation: rot_z_s(t as int),
                                ..blank_node()
                            }));
                            assert(g.leftChildIndex == orig.leftChildIndex && g.rightChildIndex
                                == orig.rightChildIndex);
                            if orig.leftChildIndex != INVALID_INDEX {
                                assert(st4.node_list@[orig.leftChildIndex as int].parentIndex
                                    == mv);
                            }
                            if orig.rightChildIndex != INVALID_INDEX {
                                assert(st4.node_list@[orig.rightChildIndex as int].parentIndex
                                    == mv);
                            }
                            assert(tick_branched(pre, st4, idx as int));
                            assert(tick_parent_ok(pre, st0, idx as int));
                            assert(st4.node_list@[idx as int].parentIndex
                                == st0.node_list@[idx as int].parentIndex);
                            assert(tick_parent_ok(pre, st4, idx as int));
                            assert forall|k: int|
                                0 <= k < s as int implies (tick_grew(
                                pre,
                                st4,
                                (#[trigger] snapshot@[k]) as int,
                            ) || tick_branched(pre, st4, snapshot@[k] as int)) by {
                                let ik = snapshot@[k] as int;
                                assert(snapshot@[k] < idx);
                                assert(!pre.is_free(ik)) by {
                                    if pre.is_free(ik) {
                                        assert(pre.node_list@[ik].status == STATUS_GARBAGE);
                                    }
                                }
                                assert(ik != mv as int && ik != ni as int);
                                assert(same_or_reparented(pre, st1, st4, ik)) by {
                                    if ik == orig.leftChildIndex as int || ik
                                        == orig.rightChildIndex as int {
                                        assert(st4.node_list@[ik] == (Node {
                                            parentIndex: mv,
                                            ..st3.node_list@[ik]
                                        }));
                                        assert(st3.node_list@[ik] == st1.node_list@[ik]);
                                    } else {
                                        assert(st4.node_list@[ik] == st3.node_list@[ik]);
                                        assert(st3.node_list@[ik] == st1.node_list@[ik]);
                                    }
                                }
                                if tick_branched(pre, st1, ik) {
                                    let mk = st1.node_list@[ik].leftChildIndex as int;
                                    let xk = st1.node_list@[ik].rightChildIndex as int;
                                    assert(!st1.is_free(mk) && !st1.is_free(xk));
                                    assert(mk != ni as int && xk != ni as int);
                                    assert(mk != mv as int && xk != mv as int) by {
                                        assert(st1.is_free(mv as int));
                                    }
                                    assert(mk != idx as int && xk != idx as int);
                                    assert(mk != orig.leftChildIndex as int && mk
                                        != orig.rightChildIndex as int && xk
                                        != orig.leftChildIndex as int && xk
                                        != orig.rightChildIndex as int) by {
                                        if orig.leftChildIndex != INVALID_INDEX {
                                            assert(!pre.is_free(orig.leftChildIndex as int));
                                        }
                                        if orig.rightChildIndex != INVALID_INDEX {
                                            assert(!pre.is_free(orig.rightChildIndex as int));
                                        }
                                        assert(pre.is_free(mk) && pre.is_free(xk));
                                    }
                                    assert(st4.node_list@[mk] == st1.node_list@[mk]);
                                    assert(st4.node_list@[xk] == st1.node_list@[xk]);
                                    assert(!st4.is_free(mk) && !st4.is_free(xk)) by {
                                        if st4.is_free(mk) {
                                            assert(st3.is_free(mk));
                                            assert(st1.is_free(mk));
                                        }
                                        if st4.is_free(xk) {
                                            assert(st3.is_free(xk));
                                            assert(st1.is_free(xk));
                                        }
                                    }
                                    let gk = grown(pre.node_list@[ik]);
                                    assert(pre.node_links_ok(ik));
                                    assert(gk.leftChildIndex != INVALID_INDEX && (
                                    gk.leftChildIndex as int) < pre.max_size as int
                                        ==> parent_kept_or_freed(
                                        pre,
                                        st1,
                                        st4,
                                        gk.leftChildIndex as int,
                                    )) by {
                                        if gk.leftChildIndex != INVALID_INDEX && (
                                        gk.leftChildIndex as int) < pre.max_size as int {
                                            let c = gk.leftChildIndex as int;
                                            assert(!pre.is_free(c));
                                            assert(c != mv as int && c != ni as int);
                                            if c == orig.leftChildIndex as int || c
                                                == orig.rightChildIndex as int {
                                                assert(st4.node_list@[c].parentIndex == mv);
                                            } else if c == idx as int {
                                                assert(st4.node_list@[c].parentIndex
                                                    == st1.node_list@[c].parentIndex);
                                            } else {
                                                assert(st4.node_list@[c] == st1.node_list@[c]);
                                            }
                                        }
                                    }
                                    assert(gk.rightChildIndex != INVALID_INDEX && (
                                    gk.rightChildIndex as int) < pre.max_size as int
                                        ==> parent_kept_or_freed(
                                        pre,
                                        st1,
                                        st4,
                                        gk.rightChildIndex as int,
                                    )) by {
                                        if gk.rightChildIndex != INVALID_INDEX && (
                                        gk.rightChildIndex as int) < pre.max_size as int {
                                            let c = gk.rightChildIndex as int;
                                            assert(!pre.is_free(c));
                                            assert(c != mv as int && c != ni as int);
                                            if c == orig.leftChildIndex as int || c
                                                == orig.rightChildIndex as int {
                                                assert(st4.node_list@[c].parentIndex == mv);
                                            } else if c == idx as int {
                                                assert(st4.node_list@[c].parentIndex
                                                    == st1.node_list@[c].parentIndex);
                                            } else {
                                                assert(st4.node_list@[c] == st1.node_list@[c]);
                                            }
                                        }
                                    }
                                }
                                lemma_tick_outcome_stable(pre, st1, st4, ik);
                            }
                            assert forall|k: int|
                                0 <= k < snapshot@.len() implies tick_parent_ok(
                                pre,
                                st4,
                                (#[trigger] snapshot@[k]) as int,
                            ) by {
                                let j = snapshot@[k] as int;
                                assert(!pre.is_free(j)) by {
                                    if pre.is_free(j) {
                                        assert(pre.node_list@[j].status == STATUS_GARBAGE);
                                    }
                                }
                                assert(j != mv as int && j != ni as int);
                                if j == orig.leftChildIndex as int || j
                                    == orig.rightChildIndex as int {
                                    assert(st4.node_list@[j].parentIndex == mv);
                                } else if j != idx as int {
                                    assert(st4.node_list@[j] == st3.node_list@[j]);
                                    assert(st3.node_list@[j] == st1.node_list@[j]);
                                }
                            }
                            assert forall|k: int|
                                s as int + 1 <= k < snapshot@.len() implies st4.node_list@[(
                            #[trigger] snapshot@[k]) as int] == (Node {
                                parentIndex: st4.node_list@[snapshot@[k] as int].parentIndex,
                                ..pre.node_list@[snapshot@[k] as int]
                            }) by {
                                let j = snapshot@[k] as int;
                                assert(snapshot@[s as int] < snapshot@[k]);
                                assert(!pre.is_free(j)) by {
                                    if pre.is_free(j) {
                                        assert(pre.node_list@[j].status == STATUS_GARBAGE);
                                    }
                                }
                                assert(j != mv as int && j != ni as int);
                                assert(st0.node_list@[j] == (Node {
                                    parentIndex: st0.node_list@[j].parentIndex,
                                    ..pre.node_list@[j]
                                }));
                                if j == orig.leftChildIndex as int || j
                                    == orig.rightChildIndex as int {
                                    assert(st4.node_list@[j] == (Node {
                                        parentIndex: mv,
                                        ..st3.node_list@[j]
                                    }));
                                    assert(st3.node_list@[j] == st1.node_list@[j]);
                                    assert(st1.node_list@[j] == st0.node_list@[j]);
                                } else {
                                    assert(st4.node_list@[j] == st3.node_list@[j]);
                                    assert(st3.node_list@[j] == st1.node_list@[j]);
                                    assert(st1.node_list@[j] == st0.node_list@[j]);
                                }
                            }
                            assert forall|j: int|
                                0 <= j < pre.max_size as int && st4.is_free(j)
                                implies st4.node_list@[j] == pre.node_list@[j] by {
                                assert(st3.is_free(j) && st1.is_free(j) && st0.is_free(j));
                                assert(pre.is_free(j));
                                assert(j != idx as int && j != ni as int && j != mv as int);
                                assert(j != orig.leftChildIndex as int && j
                                    != orig.rightChildIndex as int) by {
                                    if orig.leftChildIndex != INVALID_INDEX {
                                        assert(!pre.is_free(orig.leftChildIndex as int));
                                    }
                                    if orig.rightChildIndex != INVALID_INDEX {
                                        assert(!pre.is_free(orig.rightChildIndex as int));
                                    }
                                }
                                assert(st4.node_list@[j] == st3.node_list@[j]);
                                assert(st3.node_list@[j] == st0.node_list@[j]);
                            }
                        }
                    },
                    None => {
                        proof {
                            assert(false);
                        }
                    },
                }
            }
            s = s + 1;
        }
        proof {
            assert forall|i2: int|
                0 <= i2 < pre.max_size as int && !pre.is_free(i2) && (
            #[trigger] pre.node_list@[i2]).status != STATUS_GARBAGE implies (tick_grew(
                pre,
                *self,
                i2,
            ) || tick_branched(pre, *self, i2)) && tick_parent_ok(pre, *self, i2) by {
                let k = choose|k: int|
                    0 <= k < snapshot@.len() && (#[trigger] snapshot@[k]) as int == i2;
                assert(tick_grew(pre, *self, snapshot@[k] as int) || tick_branched(
                    pre,
                    *self,
                    snapshot@[k] as int,
                ));
                assert(tick_parent_ok(pre, *self, snapshot@[k] as int));
            }
            if branch_prob_ppm == 0 {
                assert forall|j: int| 0 <= j < pre.max_size as int implies self.node_list@[j] == (
                if pre.node_list@[j].status != STATUS_GARBAGE {
                    grown(pre.node_list@[j])
                } else {
                    pre.node_list@[j]
                }) by {
                    if pre.node_list@[j].status != STATUS_GARBAGE {
                        let k = choose|k: int|
                            0 <= k < snapshot@.len() && (#[trigger] snapshot@[k]) as int == j;
                        assert(self.node_list@[snapshot@[k] as int] == grown(
                            pre.node_list@[snapshot@[k] as int],
                        ));
                    }
                }
            }
        }
    }

    /// One growth tick with the branch probability `BRANCH_PROB_PPM`, driven
    /// by a generator seeded from the process-wide random source. Whatever
    /// the draws, every node live at entry either just grows or grows and
    /// branches as `tick_grew` / `tick_branched` state, and untouched free
    /// slots stay untouched.
    pub fn update_all(&mut self)
        requires
            old(self).wf(),
            old(self).links_ok(),
            old(self).statuses_ok(),
        ensures
            final(self).wf(),
            final(self).links_ok(),
            final(self).statuses_ok(),
            final(self).max_size == old(self).max_size,
            forall|i: int| final(self).is_free(i) ==> old(self).is_free(i),
            forall|i: int|
                0 <= i < old(self).max_size as int && !old(self).is_free(i) && (#[trigger] old(self).node_list@[i]).status != STATUS_GARBAGE ==> (tick_grew(
                    *old(self),
                    *final(self),
                    i,
                ) || tick_branched(*old(self), *final(self), i)) && tick_parent_ok(
                    *old(self),
                    *final(self),
                    i,
                ),
            forall|j: int|
                0 <= j < old(self).max_size as int && final(self).is_free(j) ==> final(self).node_list@[j] == old(self).node_list@[j],
    {
        let mut rng = GrowthRng::from_entropy();
        self.update_all_with(BRANCH_PROB_PPM, &mut rng);
    }
}

/// One pending item of the geometry traversal: a node index together with
/// the world-space start point and accumulated world transform it is to be
/// drawn with.
#[derive(Clone, Copy, Debug, PartialEq, Eq, Structural)]
pub struct Frame {
    pub idx: u32,
    pub start: Vec3,
    pub rot: Mat3,
}

/// The set of indices marked true in a visited vector.
pub open spec fn vset(v: Seq<bool>) -> Set<int> {
    Set::new(|i: int| 0 <= i < v.len() && v[i])
}

/// A root: an in-bounds node that is not garbage and has no parent.
pub open spec fn is_root(nodes: Seq<Node>, i: int) -> bool {
    nodes[i].status != STATUS_GARBAGE && nodes[i].parentIndex == INVALID_INDEX
}

/// The frame a traversal starts from at root `i`: the root's absolute
/// position under the identity transform.
pub open spec fn root_frame(nodes: Seq<Node>, i: int) -> Frame {
    Frame { idx: i as u32, start: nodes[i].absolutePosition, rot: mat_identity_s() }
}

/// The work stack holding a frame for every root with index in `[lo, hi)`,
/// higher indices first, so that the root with the lowest index is popped
/// (taken from the back) first.
pub open spec fn roots_above(nodes: Seq<Node>, lo: int, hi: int) -> Seq<Frame>
    decreases hi - lo,
{
    if lo >= hi {
        Seq::empty()
    } else {
        (if is_root(nodes, hi - 1) {
            seq![root_frame(nodes, hi - 1)]
        } else {
            Seq::empty()
        }) + roots_above(nodes, lo, hi - 1)
    }
}

/// Peeling `roots_above` from the low end instead of the high end.
pub proof fn lemma_roots_above_snoc(nodes: Seq<Node>, lo: int, hi: int)
    requires
        lo < hi,
    ensures
        roots_above(nodes, lo, hi) == roots_above(nodes, lo + 1, hi) + (if is_root(nodes, lo) {
            seq![root_frame(nodes, lo)]
        } else {
            Seq::empty()
        }),
    decreases hi - lo,
{
    let tail = if is_root(nodes, lo) {
        seq![root_frame(nodes, lo)]
    } else {
        Seq::<Frame>::empty()
    };
    if lo + 1 == hi {
        assert(roots_above(nodes, lo, hi - 1) =~= Seq::<Frame>::empty());
        assert(roots_above(nodes, lo + 1, hi) =~= Seq::<Frame>::empty());
        assert(roots_above(nodes, lo, hi) =~= roots_above(nodes, lo + 1, hi) + tail);
    } else {
        lemma_roots_above_snoc(nodes, lo, hi - 1);
        assert(roots_above(nodes, lo, hi) =~= roots_above(nodes, lo + 1, hi) + tail);
    }
}

/// The geometry produced by draining a work stack depth-first. The top (back)
/// frame is taken; if its index is in bounds, unvisited, and not garbage, the
/// node's world transform and end point are computed, a segment is emitted
/// when the node is visible, and frames for the right then left child are
/// pushed so that the left child is handled first; otherwise the frame is
/// dropped. A visited set makes the walk total even on a malformed index
/// graph.
pub open spec fn walk(nodes: Seq<Node>, stack: Seq<Frame>, visited: Set<int>) -> Seq<Vertex>
    decreases set_int_range(0, nodes.len() as int).difference(visited).len(), stack.len(),
        via walk_dec
{
    if stack.len() == 0 {
        Seq::empty()
    } else {
        let fr = stack.last();
        let rest = stack.drop_last();
        let idx = fr.idx as int;
        if idx < nodes.len() && !visited.contains(idx) && nodes[idx].status != STATUS_GARBAGE {
            let n = nodes[idx];
            let total = mat_mul_s(fr.rot, n.transformation);
            let endp = vec_add_s(fr.start, mat_apply_y_s(total, n.length as int));
            let segs = if n.visible == 1 {
                seq![
                    Vertex { loc: fr.start, color: color_start_s() },
                    Vertex { loc: endp, color: color_end_s() },
                ]
            } else {
                Seq::<Vertex>::empty()
            };
            let rest1 = if n.rightChildIndex != INVALID_INDEX {
                rest.push(Frame { idx: n.rightChildIndex, start: endp, rot: total })
            } else {
                rest
            };
            let rest2 = if n.leftChildIndex != INVALID_INDEX {
                rest1.push(Frame { idx: n.leftChildIndex, start: endp, rot: total })
            } else {
                rest1
            };
            segs + walk(nodes, rest2, visited.insert(idx))
        } else {
            walk(nodes, rest, visited)
        }
    }
}

#[via_fn]
proof fn walk_dec(nodes: Seq<Node>, stack: Seq<Frame>, visited: Set<int>) {
    if stack.len() > 0 {
        let fr = stack.last();
        let idx = fr.idx as int;
        if idx < nodes.len() && !visited.contains(idx) && nodes[idx].status != STATUS_GARBAGE {
            lemma_int_range(0, nodes.len() as int);
            set_int_range(0, nodes.len() as int).lemma_set_insert_diff_decreases(visited, idx);
        }
    }
}

/// The full geometry of an arena: the walk started from every root, lowest
/// index first, with nothing visited.
pub open spec fn geometry(nodes: Seq<Node>) -> Seq<Vertex> {
    walk(nodes, roots_above(nodes, 0, nodes.len() as int), Set::empty())
}

impl NodeBuffer {
    /// Extracts the renderable line segments of the whole arena: a
    /// depth-first traversal from every root in ascending index order,
    /// left child before right child, accumulating world transforms and
    /// positions; every visible node contributes one segment (a green start
    /// vertex and a black end vertex). Runs on an explicit work stack and
    /// visits no node twice.
    #[verifier::rlimit(100)]
    #[verifier::spinoff_prover]
    pub fn gen_vertex(&self) -> (r: Vec<Vertex>)
        requires
            self.wf(),
        ensures
            r@ == geometry(self.node_list@),
    {
        let ghost nodes = self.node_list@;
        let mut out: Vec<Vertex> = Vec::new();
        let mut visited: Vec<bool> = Vec::new();
        let mut v: u32 = 0;
        while v < self.max_size
            invariant
                v <= self.max_size,
                visited@.len() == v as int,
                forall|q: int| 0 <= q < v as int ==> !(#[trigger] visited@[q]),
            decreases self.max_size as int - v as int,
        {
            visited.push(false);
            v = v + 1;
        }
        let mut stack: Vec<Frame> = Vec::new();
        let mut i: u32 = self.max_size;
        while i > 0
            invariant
                self.wf(),
                self.node_list@ == nodes,
                i <= self.max_size,
                stack@ == roots_above(nodes, i as int, self.max_size as int),
            decreases i,
        {
            i = i - 1;
            let nd = self.node_list[i as usize];
            if nd.status != STATUS_GARBAGE && nd.parentIndex == INVALID_INDEX {
                stack.push(Frame { idx: i, start: nd.absolutePosition, rot: mat_identity() });
            }
            proof {
                lemma_roots_above_snoc(nodes, i as int, self.max_size as int);
                assert(stack@ =~= roots_above(nodes, i as int, self.max_size as int));
            }
        }
        proof {
            assert(vset(visited@) =~= Set::<int>::empty());
            assert(out@ + walk(nodes, stack@, vset(visited@)) =~= walk(
                nodes,
                roots_above(nodes, 0, self.max_size as int),
                Set::empty(),
            ));
        }
        while stack.len() > 0
            invariant
                self.wf(),
                self.node_list@ == nodes,
                visited@.len() == self.max_size as int,
                out@ + walk(nodes, stack@, vset(visited@)) == walk(
                    nodes,
                    roots_above(nodes, 0, self.max_size as int),
                    Set::empty(),
                ),
            decreases set_int_range(0, nodes.len() as int).difference(vset(visited@)).len(),
                stack@.len(),
        {
            let ghost stack0 = stack@;
            let ghost vis0 = vset(visited@);
            let ghost out0 = out@;
            let fr = stack.pop().unwrap();
            let ghost rest = stack@;
            proof {
                assert(rest =~= stack0.drop_last());
            }
            let idx = fr.idx;
            if idx < self.max_size && !visited[idx as usize] && self.node_list[idx as usize].status
                != STATUS_GARBAGE {
                visited[idx as usize] = true;
                proof {
                    assert(vset(visited@) =~= vis0.insert(idx as int));
                    lemma_int_range(0, nodes.len() as int);
                    set_int_range(0, nodes.len() as int).lemma_set_insert_diff_decreases(
                        vis0,
                        idx as int,
                    );
                }
                let n = self.node_list[idx as usize];
                let total = mat_mul(&fr.rot, &n.transformation);
                let endp = vec_add(fr.start, mat_apply_y(&total, n.length));
                if n.visible == 1 {
                    out.push(Vertex { loc: fr.start, color: color_start() });
                    out.push(Vertex { loc: endp, color: color_end() });
                }
                if n.rightChildIndex != INVALID_INDEX {
                    stack.push(Frame { idx: n.rightChildIndex, start: endp, rot: total });
                }
                if n.leftChildIndex != INVALID_INDEX {
                    stack.push(Frame { idx: n.leftChildIndex, start: endp, rot: total });
                }
                proof {
                    let segs = if n.visible == 1 {
                        seq![
                            Vertex { loc: fr.start, color: color_start_s() },
                            Vertex { loc: endp, color: color_end_s() },
                        ]
                    } else {
                        Seq::<Vertex>::empty()
                    };
                    let rest1 = if n.rightChildIndex != INVALID_INDEX {
                        rest.push(Frame { idx: n.rightChildIndex, start: endp, rot: total })
                    } else {
                        rest
                    };
                    let rest2 = if n.leftChildIndex != INVALID_INDEX {
                        rest1.push(Frame { idx: n.leftChildIndex, start: endp, rot: total })
                    } else {
                        rest1
                    };
                    assert(stack@ =~= rest2);
                    assert(out@ =~= out0 + segs);
                    assert(walk(nodes, stack0, vis0) == segs + walk(
                        nodes,
                        rest2,
                        vis0.insert(idx as int),
                    ));
                    assert(out@ + walk(nodes, stack@, vset(visited@)) =~= out0 + walk(
                        nodes,
                        stack0,
                        vis0,
                    ));
                }
            } else {
                proof {
                    assert(vset(visited@) =~= vis0);
                    assert(walk(nodes, stack0, vis0) == walk(nodes, rest, vis0));
                    assert(out@ + walk(nodes, stack@, vset(visited@)) =~= out0 + walk(
                        nodes,
                        stack0,
                        vis0,
                    ));
                }
            }
        }
        proof {
            assert(out@ + walk(nodes, stack@, vset(visited@)) =~= out@);
        }
        out
    }
}

/// The live prefix of a well-formed free stack has no duplicates, so the set
/// of free indices is finite, has exactly `free_ptr` elements, and sits inside
/// `[0, max_size)`.
pub proof fn lemma_free_count(nb: NodeBuffer)
    requires
        nb.wf(),
    ensures
        nb.free_set().finite(),
        nb.free_set().len() == nb.free_ptr as int,
        nb.free_set().subset_of(set_int_range(0, nb.max_size as int)),
{
    let p = nb.free_prefix();
    assert(p.len() == nb.free_ptr as int);
    assert forall|j: int, k: int| 0 <= j < k < p.len() implies p[j] != p[k] by {
        assert(nb.free_stack@[j] != nb.free_stack@[k]);
    }
    assert(p.no_duplicates());
    p.unique_seq_to_set();
    broadcast use seq_to_set_is_finite;

    assert(nb.free_set() =~= p.to_set()) by {
        assert forall|i: int| nb.free_set().contains(i) implies p.to_set().contains(i) by {
            let k = choose|k: int|
                0 <= k < nb.free_ptr as int && (#[trigger] nb.free_stack@[k]) as int == i;
            assert(p[k] == i);
        }
        assert forall|i: int| p.to_set().contains(i) implies nb.free_set().contains(i) by {
            let k = choose|k: int| 0 <= k < p.len() && p[k] == i;
            assert(nb.free_stack@[k] as int == i);
        }
    }
}

/// Every step of the walk emits either nothing or one whole segment: two
/// vertices, a start and an end.
#[verifier::rlimit(100)]
#[verifier::spinoff_prover]
proof fn lemma_walk_segments_whole(nodes: Seq<Node>, stack: Seq<Frame>, visited: Set<int>)
    ensures
        walk(nodes, stack, visited).len() % 2 == 0,
    decreases set_int_range(0, nodes.len() as int).difference(visited).len(), stack.len(),
{
    if stack.len() > 0 {
        let fr = stack.last();
        let rest = stack.drop_last();
        let idx = fr.idx as int;
        if idx < nodes.len() && !visited.contains(idx) && nodes[idx].status != STATUS_GARBAGE {
            let n = nodes[idx];
            let total = mat_mul_s(fr.rot, n.transformation);
            let endp = vec_add_s(fr.start, mat_apply_y_s(total, n.length as int));
            let rest1 = if n.rightChildIndex != INVALID_INDEX {
                rest.push(Frame { idx: n.rightChildIndex, start: endp, rot: total })
            } else {
                rest
            };
            let rest2 = if n.leftChildIndex != INVALID_INDEX {
                rest1.push(Frame { idx: n.leftChildIndex, start: endp, rot: total })
            } else {
                rest1
            };
            lemma_int_range(0, nodes.len() as int);
            set_int_range(0, nodes.len() as int).lemma_set_insert_diff_decreases(visited, idx);
            lemma_walk_segments_whole(nodes, rest2, visited.insert(idx));
        } else {
            lemma_walk_segments_whole(nodes, rest, visited);
        }
    }
}

/// Geometry comes in whole segments: the vertex sequence always has even
/// length, a start and an end vertex for every drawn segment.
pub proof fn lemma_geometry_segments_whole(nodes: Seq<Node>)
    ensures
        geometry(nodes).len() % 2 == 0,
{
    lemma_walk_segments_whole(nodes, roots_above(nodes, 0, nodes.len() as int), Set::empty());
}

/// No roots in `[lo, hi)` means no frames to start from.
proof fn lemma_roots_above_empty(nodes: Seq<Node>, lo: int, hi: int)
    requires
        forall|i: int| lo <= i < hi ==> !is_root(nodes, i),
    ensures
        roots_above(nodes, lo, hi) == Seq::<Frame>::empty(),
    decreases hi - lo,
{
    if lo < hi {
        lemma_roots_above_empty(nodes, lo, hi - 1);
        assert(roots_above(nodes, lo, hi) =~= Seq::<Frame>::empty());
    } else {
        assert(roots_above(nodes, lo, hi) =~= Seq::<Frame>::empty());
    }
}

/// An arena without a root produces no geometry: a node is drawn only if
/// some chain of child links reaches it from a parentless live node.
pub proof fn lemma_no_roots_no_geometry(nodes: Seq<Node>)
    requires
        forall|i: int| 0 <= i < nodes.len() ==> !is_root(nodes, i),
    ensures
        geometry(nodes) == Seq::<Vertex>::empty(),
{
    lemma_roots_above_empty(nodes, 0, nodes.len() as int);
    assert(walk(nodes, Seq::<Frame>::empty(), Set::<int>::empty()) =~= Seq::<Vertex>::empty());
}

/// The set of node indices the walk has visited once the stack is drained:
/// the same recursion as `walk`, keeping the visited set instead of the
/// vertices.
pub open spec fn walk_visited(nodes: Seq<Node>, stack: Seq<Frame>, visited: Set<int>) -> Set<int>
    decreases set_int_range(0, nodes.len() as int).difference(visited).len(), stack.len(),
        via walk_visited_dec
{
    if stack.len() == 0 {
        visited
    } else {
        let fr = stack.last();
        let rest = stack.drop_last();
        let idx = fr.idx as int;
        if idx < nodes.len() && !visited.contains(idx) && nodes[idx].status != STATUS_GARBAGE {
            let n = nodes[idx];
            let total = mat_mul_s(fr.rot, n.transformation);
            let endp = vec_add_s(fr.start, mat_apply_y_s(total, n.length as int));
            let rest1 = if n.rightChildIndex != INVALID_INDEX {
                rest.push(Frame { idx: n.rightChildIndex, start: endp, rot: total })
            } else {
                rest
            };
            let rest2 = if n.leftChildIndex != INVALID_INDEX {
                rest1.push(Frame { idx: n.leftChildIndex, start: endp, rot: total })
            } else {
                rest1
            };
            walk_visited(nodes, rest2, visited.insert(idx))
        } else {
            walk_visited(nodes, rest, visited)
        }
    }
}

#[via_fn]
proof fn walk_visited_dec(nodes: Seq<Node>, stack: Seq<Frame>, visited: Set<int>) {
    if stack.len() > 0 {
        let fr = stack.last();
        let idx = fr.idx as int;
        if idx < nodes.len() && !visited.contains(idx) && nodes[idx].status != STATUS_GARBAGE {
            lemma_int_range(0, nodes.len() as int);
            set_int_range(0, nodes.len() as int).lemma_set_insert_diff_decreases(visited, idx);
        }
    }
}

/// What was visited before the walk stays visited.
#[verifier::rlimit(100)]
#[verifier::spinoff_prover]
proof fn lemma_walk_visited_mono(nodes: Seq<Node>, stack: Seq<Frame>, visited: Set<int>)
    ensures
        visited.subset_of(walk_visited(nodes, stack, visited)),
    decreases set_int_range(0, nodes.len() as int).difference(visited).len(), stack.len(),
{
    if stack.len() > 0 {
        let fr = stack.last();
        let rest = stack.drop_last();
        let idx = fr.idx as int;
        if idx < nodes.len() && !visited.contains(idx) && nodes[idx].status != STATUS_GARBAGE {
            let n = nodes[idx];
            let total = mat_mul_s(fr.rot, n.transformation);
            let endp = vec_add_s(fr.start, mat_apply_y_s(total, n.length as int));
            let rest1 = if n.rightChildIndex != INVALID_INDEX {
                rest.push(Frame { idx: n.rightChildIndex, start: endp, rot: total })
            } else {
                rest
            };
            let rest2 = if n.leftChildIndex != INVALID_INDEX {
                rest1.push(Frame { idx: n.leftChildIndex, start: endp, rot: total })
            } else {
                rest1
            };
            lemma_int_range(0, nodes.len() as int);
            set_int_range(0, nodes.len() as int).lemma_set_insert_diff_decreases(visited, idx);
            lemma_walk_visited_mono(nodes, rest2, visited.insert(idx));
        } else {
            lemma_walk_visited_mono(nodes, rest, visited);
        }
    }
}

/// No frame is dropped unseen: every in-bounds, live index that sits on the
/// work stack ends up visited.
#[verifier::rlimit(100)]
#[verifier::spinoff_prover]
proof fn lemma_walk_visits_stack(nodes: Seq<Node>, stack: Seq<Frame>, visited: Set<int>, k: int)
    requires
        0 <= k < stack.len(),
        (stack[k].idx as int) < nodes.len(),
        nodes[stack[k].idx as int].status != STATUS_GARBAGE,
    ensures
        walk_visited(nodes, stack, visited).contains(stack[k].idx as int),
    decreases set_int_range(0, nodes.len() as int).difference(visited).len(), stack.len(),
{
    let fr = stack.last();
    let rest = stack.drop_last();
    let idx = fr.idx as int;
    if idx < nodes.len() && !visited.contains(idx) && nodes[idx].status != STATUS_GARBAGE {
        let n = nodes[idx];
        let total = mat_mul_s(fr.rot, n.transformation);
        let endp = vec_add_s(fr.start, mat_apply_y_s(total, n.length as int));
        let rest1 = if n.rightChildIndex != INVALID_INDEX {
            rest.push(Frame { idx: n.rightChildIndex, start: endp, rot: total })
        } else {
            rest
        };
        let rest2 = if n.leftChildIndex != INVALID_INDEX {
            rest1.push(Frame { idx: n.leftChildIndex, start: endp, rot: total })
        } else {
            rest1
        };
        lemma_int_range(0, nodes.len() as int);
        set_int_range(0, nodes.len() as int).lemma_set_insert_diff_decreases(visited, idx);
        if k == stack.len() - 1 {
            lemma_walk_visited_mono(nodes, rest2, visited.insert(idx));
        } else {
            assert(rest2[k] == stack[k]);
            lemma_walk_visits_stack(nodes, rest2, visited.insert(idx), k);
        }
    } else {
        if k == stack.len() - 1 {
            lemma_walk_visited_mono(nodes, rest, visited);
        } else {
            assert(rest[k] == stack[k]);
            lemma_walk_visits_stack(nodes, rest, visited, k);
        }
    }
}

/// The visible nodes a walk newly visits: visited by the walk, not visited
/// before it, and marked visible.
pub open spec fn new_visible_visits(nodes: Seq<Node>, stack: Seq<Frame>, visited: Set<int>) -> Set<
    int,
> {
    Set::new(
        |i: int|
            walk_visited(nodes, stack, visited).contains(i) && !visited.contains(i) && 0 <= i
                < nodes.len() && nodes[i].visible == 1,
    )
}

/// Every visible node the walk visits contributes exactly one segment: the
/// output holds two vertices for each of them.
#[verifier::rlimit(100)]
#[verifier::spinoff_prover]
pub proof fn lemma_walk_counts_visible(nodes: Seq<Node>, stack: Seq<Frame>, visited: Set<int>)
    ensures
        new_visible_visits(nodes, stack, visited).finite(),
        walk(nodes, stack, visited).len() == 2 * new_visible_visits(nodes, stack, visited).len(),
    decreases set_int_range(0, nodes.len() as int).difference(visited).len(), stack.len(),
{
    broadcast use vstd::set::group_set_axioms;

    if stack.len() == 0 {
        assert(new_visible_visits(nodes, stack, visited) =~= Set::<int>::empty());
    } else {
        let fr = stack.last();
        let rest = stack.drop_last();
        let idx = fr.idx as int;
        if idx < nodes.len() && !visited.contains(idx) && nodes[idx].status != STATUS_GARBAGE {
            let n = nodes[idx];
            let total = mat_mul_s(fr.rot, n.transformation);
            let endp = vec_add_s(fr.start, mat_apply_y_s(total, n.length as int));
            let rest1 = if n.rightChildIndex != INVALID_INDEX {
                rest.push(Frame { idx: n.rightChildIndex, start: endp, rot: total })
            } else {
                rest
            };
            let rest2 = if n.leftChildIndex != INVALID_INDEX {
                rest1.push(Frame { idx: n.leftChildIndex, start: endp, rot: total })
            } else {
                rest1
            };
            lemma_int_range(0, nodes.len() as int);
            set_int_range(0, nodes.len() as int).lemma_set_insert_diff_decreases(visited, idx);
            lemma_walk_counts_visible(nodes, rest2, visited.insert(idx));
            lemma_walk_visited_mono(nodes, rest2, visited.insert(idx));
            let gain = new_visible_visits(nodes, stack, visited);
            let gain2 = new_visible_visits(nodes, rest2, visited.insert(idx));
            if n.visible == 1 {
                assert(gain =~= gain2.insert(idx));
                assert(!gain2.contains(idx));
            } else {
                assert(gain =~= gain2);
            }
        } else {
            lemma_walk_counts_visible(nodes, rest, visited);
            assert(new_visible_visits(nodes, stack, visited) =~= new_visible_visits(
                nodes,
                rest,
                visited,
            ));
        }
    }
}

/// The geometry of an arena holds exactly two vertices, a start and an end,
/// for every visible node its traversal visits.
pub proof fn lemma_geometry_counts_visible(nodes: Seq<Node>)
    ensures
        geometry(nodes).len() == 2 * Set::new(
            |i: int|
                walk_visited(
                    nodes,
                    roots_above(nodes, 0, nodes.len() as int),
                    Set::empty(),
                ).contains(i) && 0 <= i < nodes.len() && nodes[i].visible == 1,
        ).len(),
{
    let stack0 = roots_above(nodes, 0, nodes.len() as int);
    lemma_walk_counts_visible(nodes, stack0, Set::empty());
    assert(new_visible_visits(nodes, stack0, Set::empty()) =~= Set::new(
        |i: int|
            walk_visited(nodes, stack0, Set::empty()).contains(i) && 0 <= i < nodes.len()
                && nodes[i].visible == 1,
    ));
}

/// What the walk visits is closed under live children: when a node was
/// visited during the walk, its in-bounds, live children are visited too.
#[verifier::rlimit(100)]
#[verifier::spinoff_prover]
proof fn lemma_walk_visited_closed(nodes: Seq<Node>, stack: Seq<Frame>, visited: Set<int>, j: int)
    requires
        nodes.len() <= 4_294_967_295,
        0 <= j < nodes.len(),
        walk_visited(nodes, stack, visited).contains(j),
        !visited.contains(j),
    ensures
        ({
            let r = walk_visited(nodes, stack, visited);
            let lc = nodes[j].leftChildIndex as int;
            let rc = nodes[j].rightChildIndex as int;
            &&& (lc < nodes.len() && nodes[lc].status != STATUS_GARBAGE ==> r.contains(lc))
            &&& (rc < nodes.len() && nodes[rc].status != STATUS_GARBAGE ==> r.contains(rc))
        }),
    decreases set_int_range(0, nodes.len() as int).difference(visited).len(), stack.len(),
{
    if stack.len() == 0 {
        assert(false);
    } else {
        let fr = stack.last();
        let rest = stack.drop_last();
        let idx = fr.idx as int;
        if idx < nodes.len() && !visited.contains(idx) && nodes[idx].status != STATUS_GARBAGE {
            let n = nodes[idx];
            let total = mat_mul_s(fr.rot, n.transformation);
            let endp = vec_add_s(fr.start, mat_apply_y_s(total, n.length as int));
            let rest1 = if n.rightChildIndex != INVALID_INDEX {
                rest.push(Frame { idx: n.rightChildIndex, start: endp, rot: total })
            } else {
                rest
            };
            let rest2 = if n.leftChildIndex != INVALID_INDEX {
                rest1.push(Frame { idx: n.leftChildIndex, start: endp, rot: total })
            } else {
                rest1
            };
            lemma_int_range(0, nodes.len() as int);
            set_int_range(0, nodes.len() as int).lemma_set_insert_diff_decreases(visited, idx);
            if j == idx {
                let lc = n.leftChildIndex as int;
                let rc = n.rightChildIndex as int;
                if lc < nodes.len() && nodes[lc].status != STATUS_GARBAGE {
                    assert(n.leftChildIndex != INVALID_INDEX);
                    assert(rest2[rest2.len() - 1] == Frame {
                        idx: n.leftChildIndex,
                        start: endp,
                        rot: total,
                    });
                    lemma_walk_visits_stack(nodes, rest2, visited.insert(idx), rest2.len() - 1);
                }
                if rc < nodes.len() && nodes[rc].status != STATUS_GARBAGE {
                    assert(n.rightChildIndex != INVALID_INDEX);
                    let kr = rest1.len() - 1;
                    assert(rest2[kr] == Frame { idx: n.rightChildIndex, start: endp, rot: total });
                    lemma_walk_visits_stack(nodes, rest2, visited.insert(idx), kr);
                }
            } else {
                lemma_walk_visited_closed(nodes, rest2, visited.insert(idx), j);
            }
        } else {
            lemma_walk_visited_closed(nodes, rest, visited, j);
        }
    }
}

/// A descent from a root: a non-empty sequence of in-bounds, live node
/// indices starting at a root, each later one a child of the one before.
pub open spec fn live_chain(nodes: Seq<Node>, p: Seq<int>) -> bool {
    &&& p.len() > 0
    &&& is_root(nodes, p[0])
    &&& forall|k: int|
        0 <= k < p.len() ==> 0 <= #[trigger] p[k] < nodes.len() && nodes[p[k]].status
            != STATUS_GARBAGE
    &&& forall|k: int|
        0 <= k < p.len() - 1 ==> (#[trigger] p[k + 1]) == nodes[p[k]].leftChildIndex as int || p[k
            + 1] == nodes[p[k]].rightChildIndex as int
}

/// Traversal completeness: every live node reachable from a root by a chain
/// of child links is visited by the geometry walk.
#[verifier::rlimit(100)]
#[verifier::spinoff_prover]
pub proof fn lemma_traversal_completeness(nodes: Seq<Node>, p: Seq<int>)
    requires
        nodes.len() <= 4_294_967_295,
        live_chain(nodes, p),
    ensures
        walk_visited(nodes, roots_above(nodes, 0, nodes.len() as int), Set::empty()).contains(
            p.last(),
        ),
    decreases p.len(),
{
    let stack0 = roots_above(nodes, 0, nodes.len() as int);
    if p.len() == 1 {
        lemma_every_root_is_traversed(nodes, p[0]);
    } else {
        let q = p.drop_last();
        assert(live_chain(nodes, q)) by {
            assert(q[0] == p[0]);
            assert forall|k: int|
                0 <= k < q.len() implies 0 <= #[trigger] q[k] < nodes.len() && nodes[q[k]].status
                != STATUS_GARBAGE by {
                assert(q[k] == p[k]);
            }
            assert forall|k: int|
                0 <= k < q.len() - 1 implies (#[trigger] q[k + 1])
                    == nodes[q[k]].leftChildIndex as int || q[k + 1]
                    == nodes[q[k]].rightChildIndex as int by {
                assert(q[k] == p[k] && q[k + 1] == p[k + 1]);
            }
        }
        lemma_traversal_completeness(nodes, q);
        let j = p[p.len() - 2];
        assert(q.last() == j);
        assert(0 <= j < nodes.len() && nodes[j].status != STATUS_GARBAGE);
        let c = p.last();
        assert(c == p[p.len() - 2 + 1]);
        assert(c == nodes[j].leftChildIndex as int || c == nodes[j].rightChildIndex as int);
        assert(0 <= c < nodes.len() && nodes[c].status != STATUS_GARBAGE);
        lemma_walk_visited_closed(nodes, stack0, Set::empty(), j);
    }
}

/// A frame either carries a dead or dangling index, or some live chain from
/// a root ends at its index.
spec fn frame_reachable(nodes: Seq<Node>, fr: Frame) -> bool {
    (fr.idx as int) < nodes.len() && nodes[fr.idx as int].status != STATUS_GARBAGE
        ==> exists|p: Seq<int>| live_chain(nodes, p) && p.last() == fr.idx as int
}

/// Every frame of the stack is reachable in the sense of `frame_reachable`.
spec fn stack_reachable(nodes: Seq<Node>, stack: Seq<Frame>) -> bool {
    forall|k: int| 0 <= k < stack.len() ==> frame_reachable(nodes, #[trigger] stack[k])
}

/// The walk visits only reachable nodes: a node it newly visits has a live
/// chain from a root ending at it, provided every starting frame had one.
#[verifier::rlimit(100)]
#[verifier::spinoff_prover]
proof fn lemma_walk_visit_has_chain(nodes: Seq<Node>, stack: Seq<Frame>, visited: Set<int>, j: int)
    requires
        walk_visited(nodes, stack, visited).contains(j),
        !visited.contains(j),
        stack_reachable(nodes, stack),
    ensures
        exists|p: Seq<int>| live_chain(nodes, p) && p.last() == j,
    decreases set_int_range(0, nodes.len() as int).difference(visited).len(), stack.len(),
{
    if stack.len() == 0 {
        assert(false);
    } else {
        let fr = stack.last();
        let rest = stack.drop_last();
        let idx = fr.idx as int;
        assert(stack_reachable(nodes, rest)) by {
            assert forall|k: int|
                0 <= k < rest.len() implies frame_reachable(nodes, #[trigger] rest[k]) by {
                assert(rest[k] == stack[k]);
            }
        }
        if idx < nodes.len() && !visited.contains(idx) && nodes[idx].status != STATUS_GARBAGE {
            let n = nodes[idx];
            let total = mat_mul_s(fr.rot, n.transformation);
            let endp = vec_add_s(fr.start, mat_apply_y_s(total, n.length as int));
            let rest1 = if n.rightChildIndex != INVALID_INDEX {
                rest.push(Frame { idx: n.rightChildIndex, start: endp, rot: total })
            } else {
                rest
            };
            let rest2 = if n.leftChildIndex != INVALID_INDEX {
                rest1.push(Frame { idx: n.leftChildIndex, start: endp, rot: total })
            } else {
                rest1
            };
            assert(frame_reachable(nodes, fr));
            let pc = choose|p: Seq<int>| live_chain(nodes, p) && p.last() == idx;
            if j == idx {
                assert(live_chain(nodes, pc) && pc.last() == j);
            } else {
                assert forall|c: u32|
                    c == n.leftChildIndex || c == n.rightChildIndex implies frame_reachable(
                    nodes,
                    (Frame { idx: c, start: endp, rot: total }),
                ) by {
                    if (c as int) < nodes.len() && nodes[c as int].status != STATUS_GARBAGE {
                        let q = pc.push(c as int);
                        assert(live_chain(nodes, q)) by {
                            assert(q[0] == pc[0]);
                            assert forall|k: int|
                                0 <= k < q.len() implies 0 <= #[trigger] q[k] < nodes.len()
                                && nodes[q[k]].status != STATUS_GARBAGE by {
                                if k < pc.len() {
                                    assert(q[k] == pc[k]);
                                }
                            }
                            assert forall|k: int|
                                0 <= k < q.len() - 1 implies (#[trigger] q[k + 1])
                                    == nodes[q[k]].leftChildIndex as int || q[k + 1]
                                    == nodes[q[k]].rightChildIndex as int by {
                                if k < pc.len() - 1 {
                                    assert(q[k] == pc[k] && q[k + 1] == pc[k + 1]);
                                } else {
                                    assert(q[k] == pc.last() && q[k + 1] == c as int);
                                }
                            }
                        }
                        assert(q.last() == c as int);
                    }
                }
                assert(stack_reachable(nodes, rest2)) by {
                    assert forall|k: int|
                        0 <= k < rest2.len() implies frame_reachable(
                        nodes,
                        #[trigger] rest2[k],
                    ) by {
                        if k < rest.len() {
                            assert(rest2[k] == rest[k]);
                        } else {
                            assert(rest2[k].idx == n.leftChildIndex || rest2[k].idx
                                == n.rightChildIndex);
                            assert(rest2[k] == (Frame {
                                idx: rest2[k].idx,
                                start: endp,
                                rot: total,
                            }));
                        }
                    }
                }
                lemma_int_range(0, nodes.len() as int);
                set_int_range(0, nodes.len() as int).lemma_set_insert_diff_decreases(visited, idx);
                lemma_walk_visit_has_chain(nodes, rest2, visited.insert(idx), j);
            }
        } else {
            lemma_walk_visit_has_chain(nodes, rest, visited, j);
        }
    }
}

/// Only reachable nodes are visited: every node the geometry walk visits is
/// the end of a live chain of child links from a root. Together with
/// `lemma_traversal_completeness`, the visited set is exactly the set of
/// live nodes reachable from the roots.
pub proof fn lemma_visited_is_reachable(nodes: Seq<Node>, j: int)
    requires
        nodes.len() <= 4_294_967_295,
        walk_visited(nodes, roots_above(nodes, 0, nodes.len() as int), Set::empty()).contains(j),
    ensures
        exists|p: Seq<int>| live_chain(nodes, p) && p.last() == j,
{
    let stack0 = roots_above(nodes, 0, nodes.len() as int);
    lemma_roots_above_frames(nodes, 0, nodes.len() as int);
    assert(stack_reachable(nodes, stack0)) by {
        assert forall|k: int|
            0 <= k < stack0.len() implies frame_reachable(nodes, #[trigger] stack0[k]) by {
            let i = stack0[k].idx as int;
            assert(0 <= i < nodes.len() && is_root(nodes, i));
            let p = seq![i];
            assert(live_chain(nodes, p));
            assert(p.last() == i);
        }
    }
    lemma_walk_visit_has_chain(nodes, stack0, Set::empty(), j);
}

/// A root in `[lo, hi)` has a frame somewhere in the initial root stack.
proof fn lemma_roots_above_has_root(nodes: Seq<Node>, lo: int, hi: int, i: int)
    requires
        0 <= lo <= i < hi,
        hi <= 4_294_967_296,
        is_root(nodes, i),
    ensures
        exists|k: int|
            0 <= k < roots_above(nodes, lo, hi).len() && (#[trigger] roots_above(nodes, lo, hi)[k]).idx
                as int == i,
    decreases hi - lo,
{
    let head = if is_root(nodes, hi - 1) {
        seq![root_frame(nodes, hi - 1)]
    } else {
        Seq::<Frame>::empty()
    };
    if i == hi - 1 {
        assert(roots_above(nodes, lo, hi)[0] == root_frame(nodes, i));
    } else {
        lemma_roots_above_has_root(nodes, lo, hi - 1, i);
        let k = choose|k: int|
            0 <= k < roots_above(nodes, lo, hi - 1).len() && (#[trigger] roots_above(
                nodes,
                lo,
                hi - 1,
            )[k]).idx as int == i;
        assert(roots_above(nodes, lo, hi)[k + head.len()] == roots_above(nodes, lo, hi - 1)[k]);
    }
}

/// Traversal completeness for roots: every live, parentless node is visited
/// by the geometry walk.
pub proof fn lemma_every_root_is_traversed(nodes: Seq<Node>, i: int)
    requires
        0 <= i < nodes.len(),
        nodes.len() < 4_294_967_296,
        is_root(nodes, i),
    ensures
        walk_visited(nodes, roots_above(nodes, 0, nodes.len() as int), Set::empty()).contains(i),
{
    let stack0 = roots_above(nodes, 0, nodes.len() as int);
    lemma_roots_above_has_root(nodes, 0, nodes.len() as int, i);
    let k = choose|k: int|
        0 <= k < stack0.len() && (#[trigger] stack0[k]).idx as int == i;
    lemma_walk_visits_stack(nodes, stack0, Set::empty(), k);
}

/// `S` is closed under child links: every in-bounds child of a live member
/// of `S` is again in `S`. A set of roots closed this way covers everything
/// a traversal can reach.
pub open spec fn child_in(nodes: Seq<Node>, S: Set<int>, c: u32) -> bool {
    (c as int) < nodes.len() ==> S.contains(c as int)
}

pub open spec fn closed_under_children(nodes: Seq<Node>, S: Set<int>) -> bool {
    forall|i: int|
        #[trigger] S.contains(i) && 0 <= i < nodes.len() && nodes[i].status != STATUS_GARBAGE
            ==> child_in(nodes, S, nodes[i].leftChildIndex) && child_in(
            nodes,
            S,
            nodes[i].rightChildIndex,
        )
}

/// Every in-bounds index a stack frame carries lies in `S`.
pub open spec fn stack_in(stack: Seq<Frame>, nodes_len: int, S: Set<int>) -> bool {
    forall|k: int|
        0 <= k < stack.len() && ((#[trigger] stack[k]).idx as int) < nodes_len ==> S.contains(
            stack[k].idx as int,
        )
}

/// The walk never reads a slot outside a child-closed set covering its stack:
/// overwriting such a slot leaves the output untouched.
#[verifier::rlimit(100)]
#[verifier::spinoff_prover]
proof fn lemma_walk_update_outside(
    nodes: Seq<Node>,
    stack: Seq<Frame>,
    visited: Set<int>,
    S: Set<int>,
    j: int,
    n2: Node,
)
    requires
        closed_under_children(nodes, S),
        stack_in(stack, nodes.len() as int, S),
        0 <= j < nodes.len(),
        !S.contains(j),
    ensures
        walk(nodes.update(j, n2), stack, visited) == walk(nodes, stack, visited),
    decreases set_int_range(0, nodes.len() as int).difference(visited).len(), stack.len(),
{
    let nodes2 = nodes.update(j, n2);
    if stack.len() > 0 {
        let fr = stack.last();
        let rest = stack.drop_last();
        let idx = fr.idx as int;
        assert(stack_in(rest, nodes.len() as int, S)) by {
            assert forall|k: int|
                0 <= k < rest.len() && ((#[trigger] rest[k]).idx as int) < nodes.len() as int
                implies S.contains(rest[k].idx as int) by {
                assert(rest[k] == stack[k]);
            }
        }
        if idx < nodes.len() && !visited.contains(idx) && nodes[idx].status != STATUS_GARBAGE {
            assert(S.contains(idx));
            assert(idx != j);
            assert(nodes2[idx] == nodes[idx]);
            let n = nodes[idx];
            let total = mat_mul_s(fr.rot, n.transformation);
            let endp = vec_add_s(fr.start, mat_apply_y_s(total, n.length as int));
            let rest1 = if n.rightChildIndex != INVALID_INDEX {
                rest.push(Frame { idx: n.rightChildIndex, start: endp, rot: total })
            } else {
                rest
            };
            let rest2 = if n.leftChildIndex != INVALID_INDEX {
                rest1.push(Frame { idx: n.leftChildIndex, start: endp, rot: total })
            } else {
                rest1
            };
            assert(stack_in(rest2, nodes.len() as int, S)) by {
                assert forall|k: int|
                    0 <= k < rest2.len() && ((#[trigger] rest2[k]).idx as int) < nodes.len() as int
                    implies S.contains(rest2[k].idx as int) by {
                    if k < rest.len() {
                        assert(rest2[k] == rest[k]);
                    } else {
                        assert(rest2[k].idx == n.leftChildIndex || rest2[k].idx
                            == n.rightChildIndex);
                    }
                }
            }
            lemma_int_range(0, nodes.len() as int);
            set_int_range(0, nodes.len() as int).lemma_set_insert_diff_decreases(visited, idx);
            lemma_walk_update_outside(nodes, rest2, visited.insert(idx), S, j, n2);
        } else {
            if idx < nodes.len() {
                assert(S.contains(idx));
                assert(idx != j);
                assert(nodes2[idx] == nodes[idx]);
            }
            lemma_walk_update_outside(nodes, rest, visited, S, j, n2);
        }
    }
}

/// Overwriting a slot that is not a root, with content that is not a root
/// either, leaves the initial root stack untouched.
proof fn lemma_roots_above_update_nonroot(nodes: Seq<Node>, j: int, n2: Node, lo: int, hi: int)
    requires
        0 <= j < nodes.len(),
        0 <= lo,
        hi <= nodes.len(),
        !is_root(nodes, j),
        !is_root(nodes.update(j, n2), j),
    ensures
        roots_above(nodes.update(j, n2), lo, hi) == roots_above(nodes, lo, hi),
    decreases hi - lo,
{
    let nodes2 = nodes.update(j, n2);
    if lo < hi {
        lemma_roots_above_update_nonroot(nodes, j, n2, lo, hi - 1);
        if hi - 1 != j {
            assert(nodes2[hi - 1] == nodes[hi - 1]);
        }
        assert(roots_above(nodes2, lo, hi) =~= roots_above(nodes, lo, hi));
    } else {
        assert(roots_above(nodes2, lo, hi) =~= roots_above(nodes, lo, hi));
    }
}

/// Every frame of the initial root stack carries a root index in `[lo, hi)`.
proof fn lemma_roots_above_frames(nodes: Seq<Node>, lo: int, hi: int)
    requires
        0 <= lo,
        hi <= 4_294_967_296,
    ensures
        forall|k: int|
            0 <= k < roots_above(nodes, lo, hi).len() ==> ({
                let idx = (#[trigger] roots_above(nodes, lo, hi)[k]).idx as int;
                lo <= idx < hi && is_root(nodes, idx)
            }),
    decreases hi - lo,
{
    if lo < hi {
        lemma_roots_above_frames(nodes, lo, hi - 1);
        assert forall|k: int| 0 <= k < roots_above(nodes, lo, hi).len() implies ({
            let idx = (#[trigger] roots_above(nodes, lo, hi)[k]).idx as int;
            lo <= idx < hi && is_root(nodes, idx)
        }) by {
            let head = if is_root(nodes, hi - 1) {
                seq![root_frame(nodes, hi - 1)]
            } else {
                Seq::<Frame>::empty()
            };
            if k >= head.len() {
                assert(roots_above(nodes, lo, hi)[k] == roots_above(nodes, lo, hi - 1)[k
                    - head.len()]);
            } else {
                assert(roots_above(nodes, lo, hi)[k] == root_frame(nodes, hi - 1));
            }
        }
    }
}

/// Unreachable nodes are excluded from the geometry: overwriting a slot that
/// lies outside a child-closed set containing every root, with anything that
/// is not itself a root, does not change the extracted geometry at all. In
/// particular an orphaned node, reachable from no root, contributes nothing.
pub proof fn lemma_unreachable_node_has_no_geometry(
    nodes: Seq<Node>,
    S: Set<int>,
    j: int,
    n2: Node,
)
    requires
        closed_under_children(nodes, S),
        forall|i: int| 0 <= i < nodes.len() && is_root(nodes, i) ==> S.contains(i),
        0 <= j < nodes.len(),
        nodes.len() < 4_294_967_296,
        !S.contains(j),
        n2.status == STATUS_GARBAGE || n2.parentIndex != INVALID_INDEX,
    ensures
        geometry(nodes.update(j, n2)) == geometry(nodes),
{
    let nodes2 = nodes.update(j, n2);
    assert(!is_root(nodes, j));
    assert(!is_root(nodes2, j));
    lemma_roots_above_update_nonroot(nodes, j, n2, 0, nodes.len() as int);
    let stack0 = roots_above(nodes, 0, nodes.len() as int);
    lemma_roots_above_frames(nodes, 0, nodes.len() as int);
    assert(stack_in(stack0, nodes.len() as int, S));
    lemma_walk_update_outside(nodes, stack0, Set::empty(), S, j, n2);
}

/// Two disjoint finite sets have a union of exactly the summed size.
proof fn lemma_len_disjoint_union(s1: Set<int>, s2: Set<int>)
    requires
        s1.finite(),
        s2.finite(),
        s1.disjoint(s2),
    ensures
        s1.union(s2).finite(),
        s1.union(s2).len() == s1.len() + s2.len(),
    decreases s1.len(),
{
    if s1.is_empty() {
        assert(s1.union(s2) =~= s2);
    } else {
        let a = s1.choose();
        assert(!s2.contains(a));
        assert(s1.remove(a).disjoint(s2));
        lemma_len_disjoint_union(s1.remove(a), s2);
        assert(s1.union(s2) =~= s1.remove(a).union(s2).insert(a));
        assert(!s1.remove(a).union(s2).contains(a));
    }
}

/// The free indices and the allocated indices partition `[0, max_size)`
/// exactly: they are disjoint, their union is the whole index range, the free
/// indices number exactly `free_ptr`, and the allocated indices number
/// exactly the rest.
pub proof fn lemma_arena_partition(nb: NodeBuffer)
    requires
        nb.wf(),
    ensures
        nb.free_set().disjoint(nb.allocated_set()),
        nb.free_set().union(nb.allocated_set()) == set_int_range(0, nb.max_size as int),
        nb.free_set().finite(),
        nb.free_set().len() == nb.free_ptr as int,
        nb.allocated_set().finite(),
        nb.allocated_set().len() == nb.max_size as int - nb.free_ptr as int,
{
    lemma_free_count(nb);
    assert forall|i: int| nb.free_set().contains(i) implies !nb.allocated_set().contains(i) by {}
    assert(nb.free_set().union(nb.allocated_set()) =~= set_int_range(0, nb.max_size as int)) by {
        assert forall|i: int|
            nb.free_set().union(nb.allocated_set()).contains(i) implies set_int_range(
            0,
            nb.max_size as int,
        ).contains(i) by {
            if nb.free_set().contains(i) {
                assert(nb.free_set().subset_of(set_int_range(0, nb.max_size as int)));
            }
        }
    }
    lemma_int_range(0, nb.max_size as int);
    assert(nb.allocated_set().subset_of(set_int_range(0, nb.max_size as int)));
    vstd::set_lib::lemma_len_subset(nb.allocated_set(), set_int_range(0, nb.max_size as int));
    lemma_len_disjoint_union(nb.free_set(), nb.allocated_set());
}

/// Splitting a segment conserves length exactly: for a length in
/// `[0, FX_LIM]` and a fraction strictly between 0 and 1 (in millionths),
/// the two pieces a split produces sum back to the whole, and the kept piece
/// is between 0 and the whole.
pub proof fn lemma_split_length_conservation(len: int, f: int)
    requires
        0 <= len <= FX_LIM as int,
        0 < f < 1_000_000,
    ensures
        fx_mul_s(len, f) + fx_sub_s(len, fx_mul_s(len, f)) == len,
        0 <= fx_mul_s(len, f) <= len,
{
    let a = len * f / 1_000_000;
    assert(0 <= len * f <= len * 1_000_000) by (nonlinear_arith)
        requires
            0 <= len && 0 < f < 1_000_000,
    ;
    lemma_div_is_ordered(len * f, len * 1_000_000, 1_000_000);
    lemma_div_multiples_vanish(len, 1_000_000);
    lemma_div_pos_is_pos(len * f, 1_000_000);
    assert(0 <= a <= len);
    assert(fx_mul_s(len, f) == a);
    assert(fx_sub_s(len, a) == len - a);
}

/// One growth tick strictly increases a segment's length, provided the
/// length is at least one hundredth of a unit (below that the fixed-point
/// increment truncates to nothing) and far enough from the representable
/// limit not to clip.
pub proof fn lemma_growth_strict(len: int)
    requires
        10_000 <= len <= 900_000_000_000_000,
    ensures
        len < fx_mul_s(len, GROWTH_FACTOR_FX as int) <= FX_LIM as int,
{
    let a = len * 1_000_100 / 1_000_000;
    assert(len * 1_000_100 >= len * 1_000_000 + 1_000_000 && len * 1_000_100 <= 900_000_000_000_000int
        * 1_000_100int) by (nonlinear_arith)
        requires
            10_000 <= len <= 900_000_000_000_000,
    ;
    lemma_div_is_ordered(len * 1_000_000 + 1_000_000, len * 1_000_100, 1_000_000);
    lemma_div_multiples_vanish(len + 1, 1_000_000);
    lemma_div_is_ordered(len * 1_000_100, 900_000_000_000_000int * 1_000_100int, 1_000_000);
    lemma_div_pos_is_pos(len * 1_000_100, 1_000_000);
    assert(len + 1 <= a);
    assert(fx_mul_s(len, GROWTH_FACTOR_FX as int) == a);
}

} // verus!
