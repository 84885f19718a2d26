//! Octree nodes: eight slots per node, leaf values at depth zero, optional
//! owned children above it, and the descent that reads and changes them.

use crate::coord::{octant, Depth, OctreeError, OctreePoint, PointData, MAX_DEPTH};
use vstd::arithmetic::div_mod::lemma_fundamental_div_mod_converse;
use vstd::arithmetic::power2::{
    lemma2_to64, lemma_pow2_adds, lemma_pow2_pos, lemma_pow2_unfold, pow2,
};
use vstd::bits::{lemma_u32_pow2_no_overflow, lemma_u32_shl_is_mul};
use vstd::prelude::*;
use vstd::seq_lib::lemma_concat_associative;

verus! {

/// One node of the tree. A leaf holds the data of its eight voxels directly;
/// an interior node records its depth and owns up to eight children, each one
/// level lower. A missing child stands for an entirely empty octant.
#[derive(Debug)]
pub enum OctreeNode {
    Leaf { slots: [Option<PointData>; 8] },
    Interior { depth: Depth, children: [Option<Box<OctreeNode>>; 8] },
}

impl OctreeNode {
    /// The node's depth: zero for a leaf.
    pub open spec fn level(&self) -> nat {
        match self {
            OctreeNode::Leaf { .. } => 0,
            OctreeNode::Interior { depth, .. } => *depth as nat,
        }
    }

    /// Whether the node holds nothing: no value in a leaf, no child in an
    /// interior node.
    pub open spec fn is_vacant(&self) -> bool {
        match self {
            OctreeNode::Leaf { slots } => forall|i: int| 0 <= i < 8 ==> (#[trigger] slots[i]) is None,
            OctreeNode::Interior { children, .. } => forall|i: int|
                0 <= i < 8 ==> (#[trigger] children[i]) is None,
        }
    }

    /// Depths are consistent from the node down, no depth exceeds the
    /// supported maximum, and no allocated child is vacant.
    pub open spec fn wf(&self) -> bool
        decreases self.level(),
    {
        match self {
            OctreeNode::Leaf { .. } => true,
            OctreeNode::Interior { depth, children } => {
                &&& 1 <= *depth <= MAX_DEPTH
                &&& forall|i: int|
                    0 <= i < 8 ==> ((#[trigger] children[i]) matches Some(c) ==> {
                        &&& c.level() == *depth - 1
                        &&& c.wf()
                        &&& !c.is_vacant()
                    })
            },
        }
    }

    /// The side length of the node's region along each axis.
    pub open spec fn side(&self) -> nat {
        pow2(self.level() + 1)
    }

    /// What the node stores at the position `(x, y, z)` of its region, if
    /// anything. Positions outside the region hold nothing.
    pub open spec fn lookup(&self, x: nat, y: nat, z: nat) -> Option<PointData>
        decreases self.level(),
    {
        if x < self.side() && y < self.side() && z < self.side() {
            match self {
                OctreeNode::Leaf { slots } => slots[octant(0, x, y, z) as int],
                OctreeNode::Interior { depth, children } => {
                    match children[octant(*depth as nat, x, y, z) as int] {
                        Some(c) => if c.level() < *depth {
                            c.lookup(
                                x % pow2(*depth as nat),
                                y % pow2(*depth as nat),
                                z % pow2(*depth as nat),
                            )
                        } else {
                            None
                        },
                        None => None,
                    }
                },
            }
        } else {
            None
        }
    }

    /// How many nodes are allocated from this node down, itself included.
    pub open spec fn node_count(&self) -> nat
        decreases self.level(), 9nat,
    {
        match self {
            OctreeNode::Leaf { .. } => 1,
            OctreeNode::Interior { depth, children } => 1 + Self::children_count(
                *children,
                *depth as nat,
                8,
            ),
        }
    }

    /// How many nodes are allocated under one slot of a node of the given
    /// depth.
    pub open spec fn child_count(child: Option<Box<OctreeNode>>, depth: nat) -> nat
        decreases depth, 0nat,
    {
        match child {
            Some(c) => if c.level() < depth {
                c.node_count()
            } else {
                0
            },
            None => 0,
        }
    }

    /// How many nodes are allocated under the first `n` slots of a node of
    /// the given depth.
    pub open spec fn children_count(
        children: [Option<Box<OctreeNode>>; 8],
        depth: nat,
        n: nat,
    ) -> nat
        decreases depth, n,
    {
        if n == 0 || n > 8 {
            0
        } else {
            Self::children_count(children, depth, (n - 1) as nat) + Self::child_count(
                children[n - 1],
                depth,
            )
        }
    }

    /// How many nodes are allocated on the way from this node down to the
    /// position `(x, y, z)`, itself included.
    pub open spec fn path_len(&self, x: nat, y: nat, z: nat) -> nat
        decreases self.level(),
    {
        match self {
            OctreeNode::Leaf { .. } => 1,
            OctreeNode::Interior { depth, children } => {
                1 + match children[octant(*depth as nat, x, y, z) as int] {
                    Some(c) => if c.level() < *depth {
                        c.path_len(
                            x % pow2(*depth as nat),
                            y % pow2(*depth as nat),
                            z % pow2(*depth as nat),
                        )
                    } else {
                        0
                    },
                    None => 0,
                }
            },
        }
    }

    /// A vacant node of the given depth.
    pub fn new(depth: Depth) -> (r: Result<OctreeNode, OctreeError>)
        ensures
            depth > MAX_DEPTH ==> r == Err::<OctreeNode, OctreeError>(
                OctreeError::UnsupportedDepth,
            ),
            depth <= MAX_DEPTH ==> r is Ok && r->Ok_0.wf() && r->Ok_0.level() == depth
                && r->Ok_0.is_vacant(),
    {
        if depth > MAX_DEPTH {
            Err(OctreeError::UnsupportedDepth)
        } else {
            Ok(Self::vacant(depth))
        }
    }

    /// A vacant node of a supported depth.
    fn vacant(depth: Depth) -> (r: OctreeNode)
        requires
            depth <= MAX_DEPTH,
        ensures
            r.wf(),
            r.level() == depth,
            r.is_vacant(),
    {
        if depth == 0 {
            OctreeNode::Leaf { slots: [None, None, None, None, None, None, None, None] }
        } else {
            OctreeNode::Interior {
                depth,
                children: [None, None, None, None, None, None, None, None],
            }
        }
    }

    /// The node's depth: zero for a leaf.
    pub fn depth(&self) -> (r: Depth)
        ensures
            r == self.level(),
    {
        match self {
            OctreeNode::Leaf { .. } => 0,
            OctreeNode::Interior { depth, .. } => *depth,
        }
    }

    /// Whether the node holds nothing.
    #[verifier::loop_isolation(false)]
    pub fn is_empty(&self) -> (r: bool)
        ensures
            r == self.is_vacant(),
    {
        match self {
            OctreeNode::Leaf { slots } => {
                let mut i: usize = 0;
                while i < 8
                    invariant
                        0 <= i <= 8,
                        forall|j: int| 0 <= j < i ==> (#[trigger] slots[j]) is None,
                    decreases 8 - i,
                {
                    if slots[i].is_some() {
                        assert(slots[i as int] is Some);
                        return false;
                    }
                    i += 1;
                }
                true
            },
            OctreeNode::Interior { children, .. } => {
                let mut i: usize = 0;
                while i < 8
                    invariant
                        0 <= i <= 8,
                        forall|j: int| 0 <= j < i ==> (#[trigger] children[j]) is None,
                    decreases 8 - i,
                {
                    if children[i].is_some() {
                        assert(children[i as int] is Some);
                        return false;
                    }
                    i += 1;
                }
                true
            },
        }
    }

    /// The octant that a point selects at the node it is addressed to: the
    /// top bits of x, y and z, in that order.
    pub fn get_idx(point: &OctreePoint) -> (r: Depth)
        requires
            point.wf(),
            point.width() >= 1,
        ensures
            r == octant((point.width() - 1) as nat, point.ix(), point.iy(), point.iz()),
            r < 8,
    {
        let a: Depth = point.x().get_top_bit();
        let b: Depth = point.y().get_top_bit();
        let c: Depth = point.z().get_top_bit();
        assert(((a << 2) | (b << 1) | (c << 0)) == 4 * a + 2 * b + c) by (bit_vector)
            requires
                a <= 1,
                b <= 1,
                c <= 1,
        ;
        (a << 2) | (b << 1) | (c << 0)
    }

    /// What the node stores at `point`, if anything. A child that is missing
    /// on the way down ends the walk at once.
    pub fn get_inner(&self, point: OctreePoint) -> (r: Option<PointData>)
        requires
            self.wf(),
            point.wf(),
            point.width() == self.level() + 1,
        ensures
            r == self.lookup(point.ix(), point.iy(), point.iz()),
        decreases self.level(),
    {
        let idx: Depth = Self::get_idx(&point);
        match self {
            OctreeNode::Leaf { slots } => slots[idx as usize],
            OctreeNode::Interior { children, .. } => {
                match &children[idx as usize] {
                    Some(child) => child.get_inner(point.decrease_depth()),
                    None => None,
                }
            },
        }
    }

    /// Whether the node stores anything at `point`.
    pub fn contains_inner(&self, point: OctreePoint) -> (r: bool)
        requires
            self.wf(),
            point.wf(),
            point.width() == self.level() + 1,
        ensures
            r == self.lookup(point.ix(), point.iy(), point.iz()) is Some,
    {
        self.get_inner(point).is_some()
    }

    /// Whether the node stores anything at a point that may have failed to
    /// convert. A failed conversion, or a point addressed to a node of
    /// another depth, is simply not contained.
    pub fn contains(&self, point: Result<OctreePoint, OctreeError>) -> (r: bool)
        requires
            self.wf(),
            point is Ok ==> point->Ok_0.wf(),
        ensures
            r == (point matches Ok(p) && p.width() == self.level() + 1 && self.lookup(
                p.ix(),
                p.iy(),
                p.iz(),
            ) is Some),
    {
        match point {
            Ok(p) => {
                if p.x().bits() == self.depth() + 1 {
                    self.contains_inner(p)
                } else {
                    false
                }
            },
            Err(_) => false,
        }
    }
}

impl OctreeNode {
    /// Stores `data` at `point`, allocating the missing nodes on the way
    /// down and nothing else.
    pub fn insert_inner(&mut self, point: OctreePoint, data: PointData)
        requires
            old(self).wf(),
            point.wf(),
            point.width() == old(self).level() + 1,
        ensures
            final(self).wf(),
            final(self).level() == old(self).level(),
            !final(self).is_vacant(),
            forall|x: nat, y: nat, z: nat| #[trigger]
                final(self).lookup(x, y, z) == if x == point.ix() && y == point.iy() && z
                    == point.iz() {
                    Some(data)
                } else {
                    old(self).lookup(x, y, z)
                },
            final(self).path_len(point.ix(), point.iy(), point.iz()) == old(self).level() + 1,
            final(self).node_count() + old(self).path_len(point.ix(), point.iy(), point.iz())
                == old(self).node_count() + old(self).level() + 1,
            old(self).lookup(point.ix(), point.iy(), point.iz()) == Some(data) ==> *final(self)
                == *old(self),
        decreases old(self).level(),
    {
        let idx: Depth = Self::get_idx(&point);
        let ghost before = *self;
        let ghost mut mid = *self;
        proof {
            lemma2_to64();
            lemma_pow2_unfold(point.width());
            lemma_pow2_pos((point.width() - 1) as nat);
            lemma_octant_split(
                before.level(),
                point.ix(),
                point.iy(),
                point.iz(),
                point.ix(),
                point.iy(),
                point.iz(),
            );
        }
        match self {
            OctreeNode::Leaf { slots } => {
                slots[idx as usize] = Some(data);
            },
            OctreeNode::Interior { depth, children } => {
                if children[idx as usize].is_none() {
                    let fresh = Self::vacant(*depth - 1);
                    proof {
                        Self::lemma_vacant_lookup(fresh);
                        Self::lemma_vacant_count(fresh);
                    }
                    children[idx as usize] = Some(Box::new(fresh));
                }
                match &mut children[idx as usize] {
                    Some(child) => {
                        proof {
                            mid = **child;
                        }
                        child.insert_inner(point.decrease_depth(), data);
                    },
                    None => {},
                }
            },
        }
        proof {
            let ghost after = *self;
            let d = before.level();
            let i = idx as int;
            let p = pow2(d);
            let (px, py, pz) = (point.ix(), point.iy(), point.iz());
            assert(after.level() == d);
            match (before, after) {
                (OctreeNode::Leaf { slots: s0 }, OctreeNode::Leaf { slots: s1 }) => {
                    assert(s1@ == s0@.update(i, Some(data)));
                    if before.lookup(px, py, pz) == Some(data) {
                        assert(s0[i] == s0@[i]);
                        assert(s1@ =~= s0@);
                        assert(s1 =~= s0);
                    }
                },
                (
                    OctreeNode::Interior { children: c0, .. },
                    OctreeNode::Interior { children: c1, .. },
                ) => {
                    assert(forall|j: int| 0 <= j < 8 && j != i ==> #[trigger] c1[j] == c0[j]);
                    assert(c1[i] is Some);
                    assert(c1[i]->Some_0.level() == d - 1);
                    assert(forall|x: nat, y: nat, z: nat| #[trigger]
                        Self::child_lookup(c1[i], x, y, z) == if x == px % p && y == py % p && z
                            == pz % p {
                            Some(data)
                        } else {
                            Self::child_lookup(c0[i], x, y, z)
                        });
                    Self::lemma_children_count_update(c0, c1, d, i, 8);
                    let grown = *c1[i]->Some_0;
                    assert(grown.node_count() + mid.path_len(px % p, py % p, pz % p)
                        == mid.node_count() + d);
                    if before.lookup(px, py, pz) == Some(data) {
                        assert(c0[i] is Some);
                        assert(mid == *c0[i]->Some_0);
                        assert(grown == mid);
                        assert(c1[i] == c0[i]);
                        assert(c1 =~= c0);
                    }
                },
                _ => {
                    assert(false);
                },
            }
            Self::lemma_slot_update(
                before,
                after,
                point.ix(),
                point.iy(),
                point.iz(),
                Some(data),
            );
            assert(!self.is_vacant()) by {
                match *self {
                    OctreeNode::Leaf { slots } => {
                        assert(slots[idx as int] is Some);
                    },
                    OctreeNode::Interior { children, .. } => {
                        assert(children[idx as int] is Some);
                    },
                }
            }
        }
    }
}

impl OctreeNode {
    /// Whether `point` is addressed to a node of this node's depth.
    pub open spec fn fits(&self, point: OctreePoint) -> bool {
        point.width() == self.level() + 1
    }

    /// What the node stores at `point`, with a point of another depth
    /// refused before the walk begins.
    pub fn get(&self, point: OctreePoint) -> (r: Result<Option<PointData>, OctreeError>)
        requires
            self.wf(),
            point.wf(),
        ensures
            self.fits(point) ==> r == Ok::<Option<PointData>, OctreeError>(
                self.lookup(point.ix(), point.iy(), point.iz()),
            ),
            !self.fits(point) ==> r == Err::<Option<PointData>, OctreeError>(
                OctreeError::DepthMismatch,
            ),
    {
        if point.x().bits() == self.depth() + 1 {
            Ok(self.get_inner(point))
        } else {
            Err(OctreeError::DepthMismatch)
        }
    }

    /// Stores `data` at `point`, with a point of another depth refused
    /// before the walk begins and the node left as it was.
    pub fn insert(&mut self, point: OctreePoint, data: PointData) -> (r: Result<(), OctreeError>)
        requires
            old(self).wf(),
            point.wf(),
        ensures
            final(self).wf(),
            final(self).level() == old(self).level(),
            old(self).fits(point) ==> r is Ok && forall|x: nat, y: nat, z: nat| #[trigger]
                final(self).lookup(x, y, z) == if x == point.ix() && y == point.iy() && z
                    == point.iz() {
                    Some(data)
                } else {
                    old(self).lookup(x, y, z)
                },
            !old(self).fits(point) ==> r == Err::<(), OctreeError>(OctreeError::DepthMismatch)
                && *final(self) == *old(self),
    {
        if point.x().bits() == self.depth() + 1 {
            self.insert_inner(point, data);
            Ok(())
        } else {
            Err(OctreeError::DepthMismatch)
        }
    }

    /// Clears the slot at `point` and hands back what it held, with a
    /// point of another depth refused before the walk begins and the node
    /// left as it was.
    pub fn remove(&mut self, point: OctreePoint) -> (r: Result<Option<PointData>, OctreeError>)
        requires
            old(self).wf(),
            point.wf(),
        ensures
            final(self).wf(),
            final(self).level() == old(self).level(),
            old(self).fits(point) ==> r == Ok::<Option<PointData>, OctreeError>(
                old(self).lookup(point.ix(), point.iy(), point.iz()),
            ) && forall|x: nat, y: nat, z: nat| #[trigger]
                final(self).lookup(x, y, z) == if x == point.ix() && y == point.iy() && z
                    == point.iz() {
                    None
                } else {
                    old(self).lookup(x, y, z)
                },
            !old(self).fits(point) ==> r == Err::<Option<PointData>, OctreeError>(
                OctreeError::DepthMismatch,
            ) && *final(self) == *old(self),
    {
        if point.x().bits() == self.depth() + 1 {
            Ok(self.remove_inner(point))
        } else {
            Err(OctreeError::DepthMismatch)
        }
    }
}

impl OctreeNode {
    /// Clears the slot at `point` and hands back what it held. A child
    /// that the removal leaves vacant is released on the way back up.
    pub fn remove_inner(&mut self, point: OctreePoint) -> (r: Option<PointData>)
        requires
            old(self).wf(),
            point.wf(),
            point.width() == old(self).level() + 1,
        ensures
            final(self).wf(),
            final(self).level() == old(self).level(),
            r == old(self).lookup(point.ix(), point.iy(), point.iz()),
            forall|x: nat, y: nat, z: nat| #[trigger]
                final(self).lookup(x, y, z) == if x == point.ix() && y == point.iy() && z
                    == point.iz() {
                    None
                } else {
                    old(self).lookup(x, y, z)
                },
            final(self).node_count() <= old(self).node_count(),
            old(self).lookup(point.ix(), point.iy(), point.iz()) is None ==> *final(self) == *old(
                self,
            ),
        decreases old(self).level(),
    {
        let idx: Depth = Self::get_idx(&point);
        let ghost before = *self;
        proof {
            lemma2_to64();
            lemma_pow2_unfold(point.width());
            lemma_pow2_pos((point.width() - 1) as nat);
        }
        let mut previous: Option<PointData> = None;
        let ghost mut emptied = before;
        proof {
            lemma_octant_split(
                before.level(),
                point.ix(),
                point.iy(),
                point.iz(),
                point.ix(),
                point.iy(),
                point.iz(),
            );
        }
        match self {
            OctreeNode::Leaf { slots } => {
                previous = slots[idx as usize];
                slots[idx as usize] = None;
            },
            OctreeNode::Interior { children, .. } => {
                let mut prune = false;
                match &mut children[idx as usize] {
                    Some(child) => {
                        previous = child.remove_inner(point.decrease_depth());
                        prune = child.is_empty();
                        proof {
                            emptied = **child;
                        }
                    },
                    None => {},
                }
                if prune {
                    children[idx as usize] = None;
                }
            },
        }
        proof {
            let ghost after = *self;
            let d = before.level();
            let i = idx as int;
            let p = pow2(d);
            let (px, py, pz) = (point.ix(), point.iy(), point.iz());
            assert(after.level() == d);
            match (before, after) {
                (OctreeNode::Leaf { slots: s0 }, OctreeNode::Leaf { slots: s1 }) => {
                    assert(s1@ == s0@.update(i, None));
                    assert(s0[i] == s0@[i]);
                    if s0[i] is None {
                        assert(s1@ =~= s0@);
                        assert(s1 =~= s0);
                    }
                },
                (
                    OctreeNode::Interior { children: c0, .. },
                    OctreeNode::Interior { children: c1, .. },
                ) => {
                    assert(forall|j: int| 0 <= j < 8 && j != i ==> #[trigger] c1[j] == c0[j]);
                    Self::lemma_children_count_update(c0, c1, d, i, 8);
                    if c0[i] is Some {
                        assert(emptied.node_count() <= c0[i]->Some_0.node_count());
                        if before.lookup(px, py, pz) is None {
                            assert(emptied == *c0[i]->Some_0);
                            assert(c1[i] == c0[i]);
                        }
                    }
                    if before.lookup(px, py, pz) is None {
                        assert(c1 =~= c0);
                    }
                    assert forall|x: nat, y: nat, z: nat| #[trigger]
                        Self::child_lookup(c1[i], x, y, z) == if x == px % p && y == py % p && z
                            == pz % p {
                            None
                        } else {
                            Self::child_lookup(c0[i], x, y, z)
                        } by {
                        if c0[i] is Some && c1[i] is None {
                            Self::lemma_vacant_lookup(emptied);
                            assert(emptied.lookup(x, y, z) is None);
                        }
                    }
                },
                _ => {
                    assert(false);
                },
            }
            Self::lemma_slot_update(before, after, px, py, pz, None);
            lemma_octant_split(d, px, py, pz, px, py, pz);
        }
        previous
    }
}

impl OctreeNode {
    /// What an optional child stores at a position of its region.
    pub open spec fn child_lookup(child: Option<Box<OctreeNode>>, x: nat, y: nat, z: nat) -> Option<
        PointData,
    > {
        match child {
            Some(c) => c.lookup(x, y, z),
            None => None,
        }
    }

    /// The slot that a position addresses, as the only thing that differs
    /// between two nodes: a leaf value replaced, or a child whose contents
    /// differ at the position's remainder alone.
    pub open spec fn differs_at(
        before: OctreeNode,
        after: OctreeNode,
        px: nat,
        py: nat,
        pz: nat,
        v: Option<PointData>,
    ) -> bool {
        let d = before.level();
        let i = octant(d, px, py, pz) as int;
        let p = pow2(d);
        &&& after.level() == d
        &&& match (before, after) {
            (OctreeNode::Leaf { slots: s0 }, OctreeNode::Leaf { slots: s1 }) => s1@ == s0@.update(
                i,
                v,
            ),
            (
                OctreeNode::Interior { children: c0, .. },
                OctreeNode::Interior { children: c1, .. },
            ) => {
                &&& forall|j: int| 0 <= j < 8 && j != i ==> #[trigger] c1[j] == c0[j]
                &&& (c1[i] matches Some(c) ==> c.level() == d - 1)
                &&& forall|x: nat, y: nat, z: nat| #[trigger]
                    Self::child_lookup(c1[i], x, y, z) == if x == px % p && y == py % p && z == pz
                        % p {
                        v
                    } else {
                        Self::child_lookup(c0[i], x, y, z)
                    }
            },
            _ => false,
        }
    }

    /// A vacant node stores nothing anywhere.
    pub proof fn lemma_vacant_lookup(node: OctreeNode)
        requires
            node.is_vacant(),
        ensures
            forall|x: nat, y: nat, z: nat| #[trigger] node.lookup(x, y, z) is None,
    {
        let d = node.level();
        lemma2_to64();
        assert forall|x: nat, y: nat, z: nat| #[trigger] node.lookup(x, y, z) is None by {
            if x < pow2(d + 1) && y < pow2(d + 1) && z < pow2(d + 1) {
                lemma_octant_split(d, x, y, z, x, y, z);
                let j = octant(d, x, y, z) as int;
                match node {
                    OctreeNode::Leaf { slots } => {
                        assert(slots[j] is None);
                    },
                    OctreeNode::Interior { children, .. } => {
                        assert(children[j] is None);
                    },
                }
            }
        }
    }

    /// A vacant node is the only node allocated under it, at every position
    /// of its region.
    pub proof fn lemma_vacant_count(node: OctreeNode)
        requires
            node.is_vacant(),
        ensures
            node.node_count() == 1,
            forall|x: nat, y: nat, z: nat|
                x < node.side() && y < node.side() && z < node.side() ==> #[trigger] node.path_len(
                    x,
                    y,
                    z,
                ) == 1,
    {
        let d = node.level();
        match node {
            OctreeNode::Leaf { .. } => {},
            OctreeNode::Interior { children, .. } => {
                Self::lemma_no_children_count(children, d, 8);
                assert forall|x: nat, y: nat, z: nat|
                    x < node.side() && y < node.side() && z < node.side() implies #[trigger] node.path_len(
                    x,
                    y,
                    z,
                ) == 1 by {
                    lemma_octant_split(d, x, y, z, x, y, z);
                    assert(children[octant(d, x, y, z) as int] is None);
                }
            },
        }
    }

    /// Slots without children have nothing allocated under them.
    pub proof fn lemma_no_children_count(
        children: [Option<Box<OctreeNode>>; 8],
        depth: nat,
        n: nat,
    )
        requires
            n <= 8,
            forall|i: int| 0 <= i < 8 ==> (#[trigger] children[i]) is None,
        ensures
            Self::children_count(children, depth, n) == 0,
        decreases n,
    {
        if n > 0 {
            Self::lemma_no_children_count(children, depth, (n - 1) as nat);
            assert(children[n - 1] is None);
            assert(Self::child_count(children[n - 1], depth) == 0);
        }
    }

    /// Two sets of slots that differ in one slot alone differ in count by
    /// what is allocated under that slot.
    pub proof fn lemma_children_count_update(
        c0: [Option<Box<OctreeNode>>; 8],
        c1: [Option<Box<OctreeNode>>; 8],
        depth: nat,
        i: int,
        n: nat,
    )
        requires
            0 <= i < 8,
            n <= 8,
            forall|j: int| 0 <= j < 8 && j != i ==> #[trigger] c1[j] == c0[j],
        ensures
            i < n ==> Self::children_count(c1, depth, n) + Self::child_count(c0[i], depth)
                == Self::children_count(c0, depth, n) + Self::child_count(c1[i], depth),
            i >= n ==> Self::children_count(c1, depth, n) == Self::children_count(c0, depth, n),
        decreases n,
    {
        if n > 0 {
            Self::lemma_children_count_update(c0, c1, depth, i, (n - 1) as nat);
            if n - 1 != i {
                assert(c1[n - 1] == c0[n - 1]);
            }
        }
    }

    /// Two nodes that differ in one addressed slot alone store the same
    /// everywhere but at the addressed position.
    pub proof fn lemma_slot_update(
        before: OctreeNode,
        after: OctreeNode,
        px: nat,
        py: nat,
        pz: nat,
        v: Option<PointData>,
    )
        requires
            before.wf(),
            px < before.side(),
            py < before.side(),
            pz < before.side(),
            Self::differs_at(before, after, px, py, pz, v),
        ensures
            forall|x: nat, y: nat, z: nat| #[trigger]
                after.lookup(x, y, z) == if x == px && y == py && z == pz {
                    v
                } else {
                    before.lookup(x, y, z)
                },
    {
        let d = before.level();
        let i = octant(d, px, py, pz) as int;
        let p = pow2(d);
        lemma2_to64();
        assert forall|x: nat, y: nat, z: nat| #[trigger]
            after.lookup(x, y, z) == if x == px && y == py && z == pz {
                v
            } else {
                before.lookup(x, y, z)
            } by {
            if x < pow2(d + 1) && y < pow2(d + 1) && z < pow2(d + 1) {
                lemma_octant_split(d, x, y, z, px, py, pz);
                lemma_octant_split(d, px, py, pz, px, py, pz);
                let j = octant(d, x, y, z) as int;
                match (before, after) {
                    (OctreeNode::Leaf { slots: s0 }, OctreeNode::Leaf { slots: s1 }) => {
                        assert(s1[j] == s1@[j]);
                        assert(s0[j] == s0@[j]);
                    },
                    (
                        OctreeNode::Interior { children: c0, .. },
                        OctreeNode::Interior { children: c1, .. },
                    ) => {
                        if j == i {
                            assert(Self::child_lookup(c1[i], x % p, y % p, z % p) == if x % p == px
                                % p && y % p == py % p && z % p == pz % p {
                                v
                            } else {
                                Self::child_lookup(c0[i], x % p, y % p, z % p)
                            });
                        } else {
                            assert(c1[j] == c0[j]);
                        }
                    },
                    _ => {},
                }
            }
        }
    }
}

/// Within a region of side `2^(d+1)`, the octant of a position is below
/// eight, its remainder lies in the child's region, and octant and remainder
/// together determine the position.
pub proof fn lemma_octant_split(d: nat, x: nat, y: nat, z: nat, px: nat, py: nat, pz: nat)
    requires
        x < pow2(d + 1),
        y < pow2(d + 1),
        z < pow2(d + 1),
        px < pow2(d + 1),
        py < pow2(d + 1),
        pz < pow2(d + 1),
    ensures
        octant(d, x, y, z) < 8,
        x % pow2(d) < pow2(d),
        y % pow2(d) < pow2(d),
        z % pow2(d) < pow2(d),
        (octant(d, x, y, z) == octant(d, px, py, pz) && x % pow2(d) == px % pow2(d) && y % pow2(d)
            == py % pow2(d) && z % pow2(d) == pz % pow2(d)) ==> (x == px && y == py && z == pz),
{
    let p = pow2(d);
    lemma_pow2_unfold(d + 1);
    lemma_pow2_pos(d);
    lemma_bit_and_rest(x, p);
    lemma_bit_and_rest(y, p);
    lemma_bit_and_rest(z, p);
    lemma_bit_and_rest(px, p);
    lemma_bit_and_rest(py, p);
    lemma_bit_and_rest(pz, p);
}

/// A value below `2p` splits into a quotient of zero or one and a remainder
/// below `p`.
proof fn lemma_bit_and_rest(v: nat, p: nat)
    requires
        p > 0,
        v < 2 * p,
    ensures
        v / p <= 1,
        v % p < p,
        v == (v / p) * p + v % p,
{
    assert(v / p <= 1 && v % p < p && v == (v / p) * p + v % p) by (nonlinear_arith)
        requires
            p > 0,
            v < 2 * p,
    ;
}

/// An occupied position of a region, as unsigned indices, with its data.
pub type IndexEntry = (u32, u32, u32, PointData);

/// The x bit of an octant.
pub open spec fn octant_x(i: nat) -> nat {
    i / 4
}

/// The y bit of an octant.
pub open spec fn octant_y(i: nat) -> nat {
    (i / 2) % 2
}

/// The z bit of an octant.
pub open spec fn octant_z(i: nat) -> nat {
    i % 2
}

impl OctreeNode {
    /// What one leaf slot contributes to the enumeration: its position and
    /// data when it is occupied, nothing when it is not.
    pub open spec fn slot_entries(slot: Option<PointData>, i: nat, bx: u32, by: u32, bz: u32) -> Seq<
        IndexEntry,
    > {
        match slot {
            Some(d) => seq![
                ((bx + octant_x(i)) as u32, (by + octant_y(i)) as u32, (bz + octant_z(i)) as u32, d),
            ],
            None => Seq::empty(),
        }
    }

    /// The occupied positions among the first `n` slots of a leaf whose
    /// region starts at `(bx, by, bz)`, in octant order.
    pub open spec fn leaf_entries(
        slots: [Option<PointData>; 8],
        bx: u32,
        by: u32,
        bz: u32,
        n: nat,
    ) -> Seq<IndexEntry>
        decreases n,
    {
        if n == 0 || n > 8 {
            Seq::empty()
        } else {
            Self::leaf_entries(slots, bx, by, bz, (n - 1) as nat) + Self::slot_entries(
                slots[n - 1],
                (n - 1) as nat,
                bx,
                by,
                bz,
            )
        }
    }

    /// What one child slot of a node of the given depth contributes to the
    /// enumeration: the child's own enumeration, placed in its octant.
    pub open spec fn child_entries(
        child: Option<Box<OctreeNode>>,
        depth: nat,
        i: nat,
        bx: u32,
        by: u32,
        bz: u32,
    ) -> Seq<IndexEntry>
        decreases depth, 0nat,
    {
        match child {
            Some(c) => if c.level() < depth {
                c.entries_at(
                    (bx + octant_x(i) * pow2(depth)) as u32,
                    (by + octant_y(i) * pow2(depth)) as u32,
                    (bz + octant_z(i) * pow2(depth)) as u32,
                )
            } else {
                Seq::empty()
            },
            None => Seq::empty(),
        }
    }

    /// The occupied positions under the first `n` slots of an interior node
    /// whose region starts at `(bx, by, bz)`, in octant order.
    pub open spec fn children_entries(
        children: [Option<Box<OctreeNode>>; 8],
        depth: nat,
        bx: u32,
        by: u32,
        bz: u32,
        n: nat,
    ) -> Seq<IndexEntry>
        decreases depth, n,
    {
        if n == 0 || n > 8 {
            Seq::empty()
        } else {
            Self::children_entries(children, depth, bx, by, bz, (n - 1) as nat)
                + Self::child_entries(children[n - 1], depth, (n - 1) as nat, bx, by, bz)
        }
    }

    /// Every occupied position of the node, whose region starts at
    /// `(bx, by, bz)`, with its data: in octant order at every level.
    pub open spec fn entries_at(&self, bx: u32, by: u32, bz: u32) -> Seq<IndexEntry>
        decreases self.level(), 9nat,
    {
        match self {
            OctreeNode::Leaf { slots } => Self::leaf_entries(*slots, bx, by, bz, 8),
            OctreeNode::Interior { depth, children } => Self::children_entries(
                *children,
                *depth as nat,
                bx,
                by,
                bz,
                8,
            ),
        }
    }

    /// How many nodes are allocated from this node down, itself included,
    /// held at the largest representable count where it would exceed it.
    #[verifier::loop_isolation(false)]
    pub fn count_nodes(&self) -> (r: usize)
        requires
            self.wf(),
        ensures
            r == if self.node_count() <= usize::MAX {
                self.node_count()
            } else {
                usize::MAX as nat
            },
        decreases self.level(),
    {
        match self {
            OctreeNode::Leaf { .. } => 1,
            OctreeNode::Interior { depth, children } => {
                let mut total: usize = 1;
                let mut i: usize = 0;
                while i < 8
                    invariant
                        0 <= i <= 8,
                        total == if 1 + Self::children_count(*children, *depth as nat, i as nat)
                            <= usize::MAX {
                            1 + Self::children_count(*children, *depth as nat, i as nat)
                        } else {
                            usize::MAX as nat
                        },
                    decreases 8 - i,
                {
                    proof {
                        let under = Self::child_count(children[i as int], *depth as nat);
                        assert(Self::children_count(*children, *depth as nat, (i + 1) as nat)
                            == Self::children_count(*children, *depth as nat, i as nat) + under);
                        assert(children[i as int] matches Some(c) ==> under == c.node_count());
                        assert(children[i as int] is None ==> under == 0);
                    }
                    match &children[i] {
                        Some(child) => {
                            assert(children[i as int] is Some);
                            let below: usize = child.count_nodes();
                            total = if total > usize::MAX - below {
                                usize::MAX
                            } else {
                                total + below
                            };
                        },
                        None => {},
                    }
                    i += 1;
                }
                total
            },
        }
    }

    /// Appends every occupied position of the node, whose region starts at
    /// `(bx, by, bz)`, with its data: in octant order at every level.
    #[verifier::loop_isolation(false)]
    pub fn collect_into(&self, bx: u32, by: u32, bz: u32, out: &mut Vec<IndexEntry>)
        requires
            self.wf(),
            bx + self.side() <= 0x1_0000_0000,
            by + self.side() <= 0x1_0000_0000,
            bz + self.side() <= 0x1_0000_0000,
        ensures
            final(out)@ == old(out)@ + self.entries_at(bx, by, bz),
        decreases self.level(),
    {
        proof {
            lemma2_to64();
            lemma_pow2_unfold(self.level() + 1);
            lemma_pow2_pos(self.level());
        }
        match self {
            OctreeNode::Leaf { slots } => {
                let mut i: u32 = 0;
                while i < 8
                    invariant
                        0 <= i <= 8,
                        out@ == old(out)@ + Self::leaf_entries(*slots, bx, by, bz, i as nat),
                    decreases 8 - i,
                {
                    let ghost sofar = Self::leaf_entries(*slots, bx, by, bz, i as nat);
                    match slots[i as usize] {
                        Some(d) => {
                            out.push((bx + i / 4, by + (i / 2) % 2, bz + i % 2, d));
                        },
                        None => {},
                    }
                    proof {
                        let more = Self::slot_entries(slots[i as int], i as nat, bx, by, bz);
                        assert(out@ =~= old(out)@ + sofar + more);
                        lemma_concat_associative(old(out)@, sofar, more);
                    }
                    i += 1;
                }
            },
            OctreeNode::Interior { depth, children } => {
                let half: u32 = 1u32 << *depth;
                proof {
                    lemma_u32_pow2_no_overflow(*depth as nat);
                    lemma_u32_shl_is_mul(1u32, *depth);
                }
                let mut i: u32 = 0;
                while i < 8
                    invariant
                        0 <= i <= 8,
                        out@ == old(out)@ + Self::children_entries(
                            *children,
                            *depth as nat,
                            bx,
                            by,
                            bz,
                            i as nat,
                        ),
                    decreases 8 - i,
                {
                    let ghost sofar = Self::children_entries(
                        *children,
                        *depth as nat,
                        bx,
                        by,
                        bz,
                        i as nat,
                    );
                    let ghost mid = out@;
                    match &children[i as usize] {
                        Some(child) => {
                            assert(children[i as int] is Some);
                            assert((i / 4) * half <= half && ((i / 2) % 2) * half <= half && (i
                                % 2) * half <= half) by (nonlinear_arith)
                                requires
                                    i < 8,
                            ;
                            child.collect_into(
                                bx + (i / 4) * half,
                                by + ((i / 2) % 2) * half,
                                bz + (i % 2) * half,
                                out,
                            );
                        },
                        None => {},
                    }
                    proof {
                        let more = Self::child_entries(
                            children[i as int],
                            *depth as nat,
                            i as nat,
                            bx,
                            by,
                            bz,
                        );
                        assert(out@ =~= mid + more);
                        lemma_concat_associative(old(out)@, sofar, more);
                    }
                    i += 1;
                }
            },
        }
    }
}

/// An element of a concatenation is an element of one of its parts.
pub proof fn lemma_concat_contains(a: Seq<IndexEntry>, b: Seq<IndexEntry>, e: IndexEntry)
    ensures
        (a + b).contains(e) == (a.contains(e) || b.contains(e)),
{
    if a.contains(e) {
        let i = choose|i: int| 0 <= i < a.len() && a[i] == e;
        assert((a + b)[i] == e);
    }
    if b.contains(e) {
        let i = choose|i: int| 0 <= i < b.len() && b[i] == e;
        assert((a + b)[a.len() + i] == e);
    }
    if (a + b).contains(e) {
        let i = choose|i: int| 0 <= i < (a + b).len() && (a + b)[i] == e;
        if i < a.len() {
            assert(a[i] == e);
        } else {
            assert(b[i - a.len()] == e);
        }
    }
}

/// The three bits of an octant make up the octant, and three bits put
/// together as an octant give the same bits back.
pub proof fn lemma_octant_bits(i: nat, a: nat, b: nat, c: nat)
    ensures
        i < 8 ==> octant_x(i) <= 1 && octant_y(i) <= 1 && octant_z(i) <= 1 && 4 * octant_x(i) + 2
            * octant_y(i) + octant_z(i) == i,
        (a <= 1 && b <= 1 && c <= 1) ==> octant_x(4 * a + 2 * b + c) == a && octant_y(
            4 * a + 2 * b + c,
        ) == b && octant_z(4 * a + 2 * b + c) == c,
{
}

/// A value made of a bit times `p` and a rest below `p` has that bit as
/// its quotient and that rest as its remainder.
pub proof fn lemma_bit_rest(bit: nat, rest: nat, p: nat)
    requires
        p > 0,
        rest < p,
    ensures
        (bit * p + rest) / p == bit,
        (bit * p + rest) % p == rest,
{
    lemma_fundamental_div_mod_converse(
        (bit * p + rest) as int,
        p as int,
        bit as int,
        rest as int,
    );
}

impl OctreeNode {
    /// Whether the node, with its region starting at `(bx, by, bz)`, stores
    /// the data of `e` at the position of `e`.
    pub open spec fn holds(&self, bx: u32, by: u32, bz: u32, e: IndexEntry) -> bool {
        &&& bx <= e.0
        &&& by <= e.1
        &&& bz <= e.2
        &&& self.lookup((e.0 - bx) as nat, (e.1 - by) as nat, (e.2 - bz) as nat) == Some(e.3)
    }

    /// An entry among the first `n` slots of a leaf comes from one of them.
    pub proof fn lemma_leaf_entries_member(
        slots: [Option<PointData>; 8],
        bx: u32,
        by: u32,
        bz: u32,
        n: nat,
        e: IndexEntry,
    )
        requires
            n <= 8,
        ensures
            Self::leaf_entries(slots, bx, by, bz, n).contains(e) <==> exists|i: int|
                0 <= i < n && #[trigger] Self::slot_entries(slots[i], i as nat, bx, by, bz).contains(
                    e,
                ),
        decreases n,
    {
        if n > 0 {
            let m = (n - 1) as nat;
            Self::lemma_leaf_entries_member(slots, bx, by, bz, m, e);
            lemma_concat_contains(
                Self::leaf_entries(slots, bx, by, bz, m),
                Self::slot_entries(slots[m as int], m, bx, by, bz),
                e,
            );
            if Self::leaf_entries(slots, bx, by, bz, n).contains(e) {
                if Self::leaf_entries(slots, bx, by, bz, m).contains(e) {
                    let i = choose|i: int|
                        0 <= i < m && #[trigger] Self::slot_entries(
                            slots[i],
                            i as nat,
                            bx,
                            by,
                            bz,
                        ).contains(e);
                    assert(0 <= i < n && Self::slot_entries(slots[i], i as nat, bx, by, bz).contains(
                        e,
                    ));
                } else {
                    assert(Self::slot_entries(slots[m as int], m, bx, by, bz).contains(e));
                }
            }
        }
    }

    /// An entry under the first `n` slots of an interior node comes from
    /// under one of them.
    pub proof fn lemma_children_entries_member(
        children: [Option<Box<OctreeNode>>; 8],
        depth: nat,
        bx: u32,
        by: u32,
        bz: u32,
        n: nat,
        e: IndexEntry,
    )
        requires
            n <= 8,
        ensures
            Self::children_entries(children, depth, bx, by, bz, n).contains(e) <==> exists|i: int|
                0 <= i < n && #[trigger] Self::child_entries(
                    children[i],
                    depth,
                    i as nat,
                    bx,
                    by,
                    bz,
                ).contains(e),
        decreases n,
    {
        if n > 0 {
            let m = (n - 1) as nat;
            Self::lemma_children_entries_member(children, depth, bx, by, bz, m, e);
            lemma_concat_contains(
                Self::children_entries(children, depth, bx, by, bz, m),
                Self::child_entries(children[m as int], depth, m, bx, by, bz),
                e,
            );
            if Self::children_entries(children, depth, bx, by, bz, n).contains(e) {
                if Self::children_entries(children, depth, bx, by, bz, m).contains(e) {
                    let i = choose|i: int|
                        0 <= i < m && #[trigger] Self::child_entries(
                            children[i],
                            depth,
                            i as nat,
                            bx,
                            by,
                            bz,
                        ).contains(e);
                    assert(0 <= i < n && Self::child_entries(
                        children[i],
                        depth,
                        i as nat,
                        bx,
                        by,
                        bz,
                    ).contains(e));
                } else {
                    assert(Self::child_entries(children[m as int], depth, m, bx, by, bz).contains(
                        e,
                    ));
                }
            }
        }
    }

    /// The enumeration of a node holds exactly the positions the node
    /// stores something at, each with the data stored there.
    pub proof fn lemma_entries_member(node: OctreeNode, bx: u32, by: u32, bz: u32, e: IndexEntry)
        requires
            node.wf(),
            bx + node.side() <= 0x1_0000_0000,
            by + node.side() <= 0x1_0000_0000,
            bz + node.side() <= 0x1_0000_0000,
        ensures
            node.entries_at(bx, by, bz).contains(e) <==> node.holds(bx, by, bz, e),
        decreases node.level(),
    {
        let d = node.level();
        let p = pow2(d);
        lemma2_to64();
        lemma_pow2_unfold(d + 1);
        lemma_pow2_pos(d);
        match node {
            OctreeNode::Leaf { slots } => {
                Self::lemma_leaf_entries_member(slots, bx, by, bz, 8, e);
                if node.entries_at(bx, by, bz).contains(e) {
                    let i = choose|i: int|
                        0 <= i < 8 && #[trigger] Self::slot_entries(
                            slots[i],
                            i as nat,
                            bx,
                            by,
                            bz,
                        ).contains(e);
                    let one = Self::slot_entries(slots[i], i as nat, bx, by, bz);
                    let k = choose|k: int| 0 <= k < one.len() && one[k] == e;
                    lemma_octant_bits(i as nat, 0, 0, 0);
                    assert(slots[i] == Some(e.3));
                    assert(octant(0, octant_x(i as nat), octant_y(i as nat), octant_z(i as nat))
                        == i);
                }
                if node.holds(bx, by, bz, e) {
                    let x = (e.0 - bx) as nat;
                    let y = (e.1 - by) as nat;
                    let z = (e.2 - bz) as nat;
                    let i = octant(0, x, y, z) as int;
                    lemma_octant_bits(0, x, y, z);
                    let one = Self::slot_entries(slots[i], i as nat, bx, by, bz);
                    assert(one[0] == e);
                    assert(one.contains(e));
                }
            },
            OctreeNode::Interior { children, .. } => {
                Self::lemma_children_entries_member(children, d, bx, by, bz, 8, e);
                if node.entries_at(bx, by, bz).contains(e) {
                    let i = choose|i: int|
                        0 <= i < 8 && #[trigger] Self::child_entries(
                            children[i],
                            d,
                            i as nat,
                            bx,
                            by,
                            bz,
                        ).contains(e);
                    lemma_octant_bits(i as nat, 0, 0, 0);
                    let c = *children[i]->Some_0;
                    let ox = octant_x(i as nat);
                    let oy = octant_y(i as nat);
                    let oz = octant_z(i as nat);
                    assert(ox * p <= p && oy * p <= p && oz * p <= p) by (nonlinear_arith)
                        requires
                            ox <= 1,
                            oy <= 1,
                            oz <= 1,
                    ;
                    let cx = (bx + ox * p) as u32;
                    let cy = (by + oy * p) as u32;
                    let cz = (bz + oz * p) as u32;
                    Self::lemma_entries_member(c, cx, cy, cz, e);
                    assert(c.holds(cx, cy, cz, e));
                    let rx = (e.0 - cx) as nat;
                    let ry = (e.1 - cy) as nat;
                    let rz = (e.2 - cz) as nat;
                    assert(rx < p && ry < p && rz < p);
                    lemma_bit_rest(ox, rx, p);
                    lemma_bit_rest(oy, ry, p);
                    lemma_bit_rest(oz, rz, p);
                    assert(octant(d, ox * p + rx, oy * p + ry, oz * p + rz) == i);
                    assert((e.0 - bx) as nat == ox * p + rx);
                    assert((e.1 - by) as nat == oy * p + ry);
                    assert((e.2 - bz) as nat == oz * p + rz);
                }
                if node.holds(bx, by, bz, e) {
                    let x = (e.0 - bx) as nat;
                    let y = (e.1 - by) as nat;
                    let z = (e.2 - bz) as nat;
                    lemma_octant_split(d, x, y, z, x, y, z);
                    let i = octant(d, x, y, z) as int;
                    let ox = x / p;
                    let oy = y / p;
                    let oz = z / p;
                    lemma_bit_and_rest(x, p);
                    lemma_bit_and_rest(y, p);
                    lemma_bit_and_rest(z, p);
                    lemma_octant_bits(0, ox, oy, oz);
                    let c = *children[i]->Some_0;
                    assert(ox * p <= p && oy * p <= p && oz * p <= p) by (nonlinear_arith)
                        requires
                            ox <= 1,
                            oy <= 1,
                            oz <= 1,
                    ;
                    let cx = (bx + ox * p) as u32;
                    let cy = (by + oy * p) as u32;
                    let cz = (bz + oz * p) as u32;
                    Self::lemma_entries_member(c, cx, cy, cz, e);
                    assert((e.0 - cx) as nat == x % p);
                    assert((e.1 - cy) as nat == y % p);
                    assert((e.2 - cz) as nat == z % p);
                    assert(c.holds(cx, cy, cz, e));
                    assert(Self::child_entries(children[i], d, i as nat, bx, by, bz).contains(e));
                }
            },
        }
    }
}

/// The place of a position in the enumeration order of a region of depth
/// `d`: the octant at this level counts first, then the place inside it.
pub open spec fn octant_rank(d: nat, x: nat, y: nat, z: nat) -> nat
    decreases d,
{
    if d == 0 {
        octant(0, x, y, z)
    } else {
        octant(d, x, y, z) * pow2(3 * d) + octant_rank(
            (d - 1) as nat,
            x % pow2(d),
            y % pow2(d),
            z % pow2(d),
        )
    }
}

/// The place of an entry in the enumeration order of a region of depth `d`
/// that starts at `(bx, by, bz)`.
pub open spec fn rank_of(d: nat, bx: u32, by: u32, bz: u32, e: IndexEntry) -> nat {
    octant_rank(d, (e.0 - bx) as nat, (e.1 - by) as nat, (e.2 - bz) as nat)
}

/// Whether a run of entries is in strictly rising enumeration order, with
/// every place below `bound`.
pub open spec fn rising_below(
    s: Seq<IndexEntry>,
    d: nat,
    bx: u32,
    by: u32,
    bz: u32,
    bound: nat,
) -> bool {
    &&& forall|k: int| 0 <= k < s.len() ==> rank_of(d, bx, by, bz, #[trigger] s[k]) < bound
    &&& forall|i: int, j: int|
        0 <= i < j < s.len() ==> rank_of(d, bx, by, bz, #[trigger] s[i]) < rank_of(
            d,
            bx,
            by,
            bz,
            #[trigger] s[j],
        )
}

/// A region of depth `d` has `8^(d+1)` places, and a position inside it has
/// one of them.
pub proof fn lemma_octant_rank_bound(d: nat, x: nat, y: nat, z: nat)
    requires
        x < pow2(d + 1),
        y < pow2(d + 1),
        z < pow2(d + 1),
    ensures
        octant_rank(d, x, y, z) < pow2(3 * (d + 1)),
    decreases d,
{
    lemma_octant_split(d, x, y, z, x, y, z);
    lemma_pow2_adds(3, 3 * d);
    lemma2_to64();
    let o = octant(d, x, y, z);
    let w = pow2(3 * d);
    assert(pow2(3 * (d + 1)) == 8 * w) by {
        assert(3 * (d + 1) == 3 + 3 * d);
    }
    if d > 0 {
        let below = octant_rank((d - 1) as nat, x % pow2(d), y % pow2(d), z % pow2(d));
        lemma_pow2_pos(d);
        lemma_octant_rank_bound((d - 1) as nat, x % pow2(d), y % pow2(d), z % pow2(d));
        assert(3 * ((d - 1) as nat + 1) == 3 * d);
        assert(below < w);
        assert(o * w + w <= 8 * w) by (nonlinear_arith)
            requires
                o < 8,
        ;
        assert(octant_rank(d, x, y, z) == o * w + below);
    } else {
        assert(w == 1);
        assert(octant_rank(d, x, y, z) == o);
    }
}

impl OctreeNode {
    /// The occupied positions among the first `n` slots of a leaf are
    /// enumerated in rising order, each at the place of its slot.
    pub proof fn lemma_leaf_entries_rising(
        slots: [Option<PointData>; 8],
        bx: u32,
        by: u32,
        bz: u32,
        n: nat,
    )
        requires
            n <= 8,
            bx + 2 <= 0x1_0000_0000,
            by + 2 <= 0x1_0000_0000,
            bz + 2 <= 0x1_0000_0000,
        ensures
            rising_below(Self::leaf_entries(slots, bx, by, bz, n), 0, bx, by, bz, n),
        decreases n,
    {
        if n > 0 {
            let m = (n - 1) as nat;
            Self::lemma_leaf_entries_rising(slots, bx, by, bz, m);
            lemma2_to64();
            lemma_octant_bits(m, 0, 0, 0);
            let head = Self::leaf_entries(slots, bx, by, bz, m);
            let tail = Self::slot_entries(slots[m as int], m, bx, by, bz);
            let all = Self::leaf_entries(slots, bx, by, bz, n);
            assert(all == head + tail);
            assert forall|k: int| 0 <= k < tail.len() implies rank_of(
                0,
                bx,
                by,
                bz,
                #[trigger] tail[k],
            ) == m by {
                assert(octant(0, octant_x(m), octant_y(m), octant_z(m)) == m);
            }
            assert forall|k: int| 0 <= k < all.len() implies rank_of(
                0,
                bx,
                by,
                bz,
                #[trigger] all[k],
            ) < n by {
                if k < head.len() {
                    assert(all[k] == head[k]);
                } else {
                    assert(all[k] == tail[k - head.len()]);
                }
            }
            assert forall|i: int, j: int| 0 <= i < j < all.len() implies rank_of(
                0,
                bx,
                by,
                bz,
                #[trigger] all[i],
            ) < rank_of(0, bx, by, bz, #[trigger] all[j]) by {
                assert(all[i] == head[i]);
                if j < head.len() {
                    assert(all[j] == head[j]);
                } else {
                    assert(all[j] == tail[j - head.len()]);
                }
            }
        }
    }

    /// An entry enumerated under slot `i` of an interior node has its place
    /// in the `i`-th block of the node's order, at the place it has in the
    /// child's own order.
    pub proof fn lemma_rank_in_child(
        child: OctreeNode,
        d: nat,
        i: nat,
        bx: u32,
        by: u32,
        bz: u32,
        e: IndexEntry,
    )
        requires
            child.wf(),
            child.level() + 1 == d,
            d <= MAX_DEPTH,
            i < 8,
            bx + pow2(d + 1) <= 0x1_0000_0000,
            by + pow2(d + 1) <= 0x1_0000_0000,
            bz + pow2(d + 1) <= 0x1_0000_0000,
            Self::child_entries(Some(Box::new(child)), d, i, bx, by, bz).contains(e),
        ensures
            rank_of(d, bx, by, bz, e) == i * pow2(3 * d) + rank_of(
                (d - 1) as nat,
                (bx + octant_x(i) * pow2(d)) as u32,
                (by + octant_y(i) * pow2(d)) as u32,
                (bz + octant_z(i) * pow2(d)) as u32,
                e,
            ),
            rank_of(
                (d - 1) as nat,
                (bx + octant_x(i) * pow2(d)) as u32,
                (by + octant_y(i) * pow2(d)) as u32,
                (bz + octant_z(i) * pow2(d)) as u32,
                e,
            ) < pow2(3 * d),
    {
        let p = pow2(d);
        lemma_pow2_unfold(d + 1);
        lemma_pow2_pos(d);
        lemma_octant_bits(i, 0, 0, 0);
        let ox = octant_x(i);
        let oy = octant_y(i);
        let oz = octant_z(i);
        assert(ox * p <= p && oy * p <= p && oz * p <= p) by (nonlinear_arith)
            requires
                ox <= 1,
                oy <= 1,
                oz <= 1,
        ;
        let cx = (bx + ox * p) as u32;
        let cy = (by + oy * p) as u32;
        let cz = (bz + oz * p) as u32;
        Self::lemma_entries_member(child, cx, cy, cz, e);
        let rx = (e.0 - cx) as nat;
        let ry = (e.1 - cy) as nat;
        let rz = (e.2 - cz) as nat;
        assert(rx < p && ry < p && rz < p);
        lemma_bit_rest(ox, rx, p);
        lemma_bit_rest(oy, ry, p);
        lemma_bit_rest(oz, rz, p);
        assert((e.0 - bx) as nat == ox * p + rx);
        assert((e.1 - by) as nat == oy * p + ry);
        assert((e.2 - bz) as nat == oz * p + rz);
        assert(octant(d, ox * p + rx, oy * p + ry, oz * p + rz) == i);
        lemma_octant_rank_bound((d - 1) as nat, rx, ry, rz);
    }

    /// The positions under the first `n` slots of an interior node are
    /// enumerated in rising order, all within the first `n` blocks.
    pub proof fn lemma_children_entries_rising(
        children: [Option<Box<OctreeNode>>; 8],
        d: nat,
        bx: u32,
        by: u32,
        bz: u32,
        n: nat,
    )
        requires
            n <= 8,
            1 <= d <= MAX_DEPTH,
            bx + pow2(d + 1) <= 0x1_0000_0000,
            by + pow2(d + 1) <= 0x1_0000_0000,
            bz + pow2(d + 1) <= 0x1_0000_0000,
            forall|i: int|
                0 <= i < 8 ==> ((#[trigger] children[i]) matches Some(c) ==> c.wf() && c.level()
                    + 1 == d),
        ensures
            rising_below(
                Self::children_entries(children, d, bx, by, bz, n),
                d,
                bx,
                by,
                bz,
                n * pow2(3 * d),
            ),
        decreases d, n,
    {
        if n > 0 {
            let m = (n - 1) as nat;
            let w = pow2(3 * d);
            let p = pow2(d);
            Self::lemma_children_entries_rising(children, d, bx, by, bz, m);
            let head = Self::children_entries(children, d, bx, by, bz, m);
            let tail = Self::child_entries(children[m as int], d, m, bx, by, bz);
            let all = Self::children_entries(children, d, bx, by, bz, n);
            assert(all == head + tail);
            assert(m * w + w == n * w) by (nonlinear_arith)
                requires
                    m + 1 == n,
            ;
            lemma_pow2_unfold(d + 1);
            lemma_pow2_pos(d);
            lemma_octant_bits(m, 0, 0, 0);
            let ox = octant_x(m);
            let oy = octant_y(m);
            let oz = octant_z(m);
            assert(ox * p <= p && oy * p <= p && oz * p <= p) by (nonlinear_arith)
                requires
                    ox <= 1,
                    oy <= 1,
                    oz <= 1,
            ;
            let cx = (bx + ox * p) as u32;
            let cy = (by + oy * p) as u32;
            let cz = (bz + oz * p) as u32;
            if children[m as int] is Some {
                let c = *children[m as int]->Some_0;
                assert(children[m as int] == Some(Box::new(c)));
                Self::lemma_entries_rising(c, cx, cy, cz);
                assert forall|k: int| 0 <= k < tail.len() implies rank_of(
                    d,
                    bx,
                    by,
                    bz,
                    #[trigger] tail[k],
                ) == m * w + rank_of((d - 1) as nat, cx, cy, cz, tail[k]) && rank_of(
                    (d - 1) as nat,
                    cx,
                    cy,
                    cz,
                    tail[k],
                ) < w by {
                    assert(tail.contains(tail[k]));
                    Self::lemma_rank_in_child(c, d, m, bx, by, bz, tail[k]);
                }
            }
            assert forall|k: int| 0 <= k < all.len() implies rank_of(
                d,
                bx,
                by,
                bz,
                #[trigger] all[k],
            ) < n * w by {
                if k < head.len() {
                    assert(all[k] == head[k]);
                } else {
                    assert(all[k] == tail[k - head.len()]);
                }
            }
            assert forall|i: int, j: int| 0 <= i < j < all.len() implies rank_of(
                d,
                bx,
                by,
                bz,
                #[trigger] all[i],
            ) < rank_of(d, bx, by, bz, #[trigger] all[j]) by {
                if j < head.len() {
                    assert(all[i] == head[i]);
                    assert(all[j] == head[j]);
                } else if i < head.len() {
                    assert(all[i] == head[i]);
                    assert(all[j] == tail[j - head.len()]);
                } else {
                    assert(all[i] == tail[i - head.len()]);
                    assert(all[j] == tail[j - head.len()]);
                }
            }
        }
    }

    /// The enumeration of a node rises strictly in octant order: first by
    /// the octant at the node's own level, then by the order inside it.
    pub proof fn lemma_entries_rising(node: OctreeNode, bx: u32, by: u32, bz: u32)
        requires
            node.wf(),
            bx + node.side() <= 0x1_0000_0000,
            by + node.side() <= 0x1_0000_0000,
            bz + node.side() <= 0x1_0000_0000,
        ensures
            rising_below(
                node.entries_at(bx, by, bz),
                node.level(),
                bx,
                by,
                bz,
                pow2(3 * (node.level() + 1)),
            ),
        decreases node.level(), 9nat,
    {
        let d = node.level();
        lemma2_to64();
        match node {
            OctreeNode::Leaf { slots } => {
                Self::lemma_leaf_entries_rising(slots, bx, by, bz, 8);
            },
            OctreeNode::Interior { children, .. } => {
                Self::lemma_children_entries_rising(children, d, bx, by, bz, 8);
                lemma_pow2_adds(3, 3 * d);
            },
        }
    }
}

impl OctreeNode {
    /// What a node stores at the position that lies at `(x, y, z)` inside
    /// its octant `i` is what the child in that slot stores at `(x, y, z)`.
    pub proof fn lemma_lookup_in_octant(node: OctreeNode, i: nat, x: nat, y: nat, z: nat)
        requires
            node.wf(),
            i < 8,
            x < pow2(node.level()),
            y < pow2(node.level()),
            z < pow2(node.level()),
        ensures
            node matches OctreeNode::Interior { children, .. } ==> node.lookup(
                octant_x(i) * pow2(node.level()) + x,
                octant_y(i) * pow2(node.level()) + y,
                octant_z(i) * pow2(node.level()) + z,
            ) == Self::child_lookup(children[i as int], x, y, z),
            node matches OctreeNode::Leaf { slots } ==> node.lookup(
                octant_x(i),
                octant_y(i),
                octant_z(i),
            ) == slots[i as int],
    {
        let d = node.level();
        let p = pow2(d);
        lemma2_to64();
        lemma_pow2_unfold(d + 1);
        lemma_pow2_pos(d);
        lemma_octant_bits(i, 0, 0, 0);
        let ox = octant_x(i);
        let oy = octant_y(i);
        let oz = octant_z(i);
        assert(ox * p <= p && oy * p <= p && oz * p <= p) by (nonlinear_arith)
            requires
                ox <= 1,
                oy <= 1,
                oz <= 1,
        ;
        lemma_bit_rest(ox, x, p);
        lemma_bit_rest(oy, y, p);
        lemma_bit_rest(oz, z, p);
        assert(octant(d, ox * p + x, oy * p + y, oz * p + z) == i);
        match node {
            OctreeNode::Leaf { slots } => {
                assert(octant(0, ox, oy, oz) == i);
            },
            OctreeNode::Interior { children, .. } => {},
        }
    }

    /// A node that is not vacant stores something somewhere in its region.
    pub proof fn lemma_occupied_somewhere(node: OctreeNode) -> (at: (nat, nat, nat))
        requires
            node.wf(),
            !node.is_vacant(),
        ensures
            at.0 < node.side(),
            at.1 < node.side(),
            at.2 < node.side(),
            node.lookup(at.0, at.1, at.2) is Some,
        decreases node.level(),
    {
        let d = node.level();
        let p = pow2(d);
        lemma2_to64();
        lemma_pow2_unfold(d + 1);
        lemma_pow2_pos(d);
        match node {
            OctreeNode::Leaf { slots } => {
                let i = choose|i: int| 0 <= i < 8 && (#[trigger] slots[i]) is Some;
                lemma_octant_bits(i as nat, 0, 0, 0);
                Self::lemma_lookup_in_octant(node, i as nat, 0, 0, 0);
                (octant_x(i as nat), octant_y(i as nat), octant_z(i as nat))
            },
            OctreeNode::Interior { children, .. } => {
                let i = choose|i: int| 0 <= i < 8 && (#[trigger] children[i]) is Some;
                let c = *children[i]->Some_0;
                let q = Self::lemma_occupied_somewhere(c);
                lemma_octant_bits(i as nat, 0, 0, 0);
                Self::lemma_lookup_in_octant(node, i as nat, q.0, q.1, q.2);
                let ox = octant_x(i as nat);
                let oy = octant_y(i as nat);
                let oz = octant_z(i as nat);
                assert(ox * p <= p && oy * p <= p && oz * p <= p) by (nonlinear_arith)
                    requires
                        ox <= 1,
                        oy <= 1,
                        oz <= 1,
                ;
                (ox * p + q.0, oy * p + q.1, oz * p + q.2)
            },
        }
    }

    /// What a node stores decides the node: two well-formed nodes of one
    /// depth that store the same everywhere are the same node, allocated
    /// child for allocated child.
    pub proof fn lemma_contents_decide_node(a: OctreeNode, b: OctreeNode)
        requires
            a.wf(),
            b.wf(),
            a.level() == b.level(),
            forall|x: nat, y: nat, z: nat| #[trigger] a.lookup(x, y, z) == b.lookup(x, y, z),
        ensures
            a == b,
        decreases a.level(),
    {
        let d = a.level();
        let p = pow2(d);
        lemma2_to64();
        lemma_pow2_unfold(d + 1);
        lemma_pow2_pos(d);
        match (a, b) {
            (OctreeNode::Leaf { slots: s0 }, OctreeNode::Leaf { slots: s1 }) => {
                assert forall|i: int| 0 <= i < 8 implies s0[i] == s1[i] by {
                    Self::lemma_lookup_in_octant(a, i as nat, 0, 0, 0);
                    Self::lemma_lookup_in_octant(b, i as nat, 0, 0, 0);
                    assert(a.lookup(octant_x(i as nat), octant_y(i as nat), octant_z(i as nat))
                        == b.lookup(octant_x(i as nat), octant_y(i as nat), octant_z(i as nat)));
                }
                assert(s0 =~= s1);
            },
            (
                OctreeNode::Interior { children: c0, .. },
                OctreeNode::Interior { children: c1, .. },
            ) => {
                assert forall|i: int| 0 <= i < 8 implies c0[i] == c1[i] by {
                    let ox = octant_x(i as nat) * p;
                    let oy = octant_y(i as nat) * p;
                    let oz = octant_z(i as nat) * p;
                    assert forall|x: nat, y: nat, z: nat| #[trigger]
                        Self::child_lookup(c0[i], x, y, z) == Self::child_lookup(
                            c1[i],
                            x,
                            y,
                            z,
                        ) by {
                        if x < p && y < p && z < p {
                            Self::lemma_lookup_in_octant(a, i as nat, x, y, z);
                            Self::lemma_lookup_in_octant(b, i as nat, x, y, z);
                            assert(a.lookup(ox + x, oy + y, oz + z) == b.lookup(
                                ox + x,
                                oy + y,
                                oz + z,
                            ));
                        } else {
                            if c0[i] is Some {
                                assert(c0[i]->Some_0.side() == p);
                            }
                            if c1[i] is Some {
                                assert(c1[i]->Some_0.side() == p);
                            }
                        }
                    }
                    if c0[i] is Some && c1[i] is Some {
                        let n0 = *c0[i]->Some_0;
                        let n1 = *c1[i]->Some_0;
                        assert forall|x: nat, y: nat, z: nat| #[trigger]
                            n0.lookup(x, y, z) == n1.lookup(x, y, z) by {
                            assert(Self::child_lookup(c0[i], x, y, z) == Self::child_lookup(
                                c1[i],
                                x,
                                y,
                                z,
                            ));
                        }
                        Self::lemma_contents_decide_node(n0, n1);
                    } else if c0[i] is Some {
                        let n0 = *c0[i]->Some_0;
                        let q = Self::lemma_occupied_somewhere(n0);
                        assert(Self::child_lookup(c0[i], q.0, q.1, q.2) == Self::child_lookup(
                            c1[i],
                            q.0,
                            q.1,
                            q.2,
                        ));
                    } else if c1[i] is Some {
                        let n1 = *c1[i]->Some_0;
                        let q = Self::lemma_occupied_somewhere(n1);
                        assert(Self::child_lookup(c0[i], q.0, q.1, q.2) == Self::child_lookup(
                            c1[i],
                            q.0,
                            q.1,
                            q.2,
                        ));
                    }
                }
                assert(c0 =~= c1);
            },
            _ => {},
        }
    }
}

} // verus!
