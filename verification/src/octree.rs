//! The sparse voxel octree: bounds check, normalisation of signed voxels,
//! and the map-like operations built on one root node.

use crate::coord::{
    axis_coord, axis_in_range, axis_index, biased_abs, lemma_axis_index_injective,
    lemma_axis_round_trip, lemma_pow2_bound, voxel_in_range, Depth, MaskUInt, OctreeError,
    OctreePoint, PointData, Voxel, MAX_DEPTH,
};
use crate::node::{octant_rank, rank_of, IndexEntry, OctreeNode};
use vstd::arithmetic::power2::{lemma_pow2_pos, lemma_pow2_unfold, pow2};
use vstd::bits::{lemma_u32_pow2_no_overflow, lemma_u32_shl_is_mul};
use vstd::prelude::*;

verus! {

/// The signed voxel and the data of one enumerated position of a tree of
/// the given depth.
pub open spec fn voxel_of(depth: nat, e: IndexEntry) -> (Voxel, PointData) {
    (
        Voxel {
            x: axis_coord(depth, e.0 as nat) as i32,
            y: axis_coord(depth, e.1 as nat) as i32,
            z: axis_coord(depth, e.2 as nat) as i32,
        },
        e.3,
    )
}

/// The place of a voxel in the enumeration order of a tree of the given
/// depth: the octant at the root counts first, then the octant one level
/// down, and so on to the leaf.
pub open spec fn voxel_rank(depth: nat, v: Voxel) -> nat {
    octant_rank(
        depth,
        axis_index(depth, v.x as int),
        axis_index(depth, v.y as int),
        axis_index(depth, v.z as int),
    )
}

/// An index from signed voxels inside an origin-centred cube to point data,
/// which allocates nodes only for the octants that hold something.
#[derive(Debug)]
pub struct SparseVoxelOctree {
    depth: Depth,
    octant_length: Depth,
    root: OctreeNode,
}

impl View for SparseVoxelOctree {
    type V = Map<Voxel, PointData>;

    /// The occupied voxels and what each one stores.
    closed spec fn view(&self) -> Map<Voxel, PointData> {
        Map::new(
            |v: Voxel| voxel_in_range(self.depth as nat, v) && self.slot(v) is Some,
            |v: Voxel| self.slot(v)->Some_0,
        )
    }
}

impl SparseVoxelOctree {
    /// The depth the tree was built with.
    pub closed spec fn spec_depth(&self) -> nat {
        self.depth as nat
    }

    /// What the root stores at the index of `v`.
    pub closed spec fn slot(&self, v: Voxel) -> Option<PointData> {
        self.root.lookup(
            axis_index(self.depth as nat, v.x as int),
            axis_index(self.depth as nat, v.y as int),
            axis_index(self.depth as nat, v.z as int),
        )
    }

    /// The root is a well-formed node of the tree's depth, and the recorded
    /// octant length is two to that depth.
    pub closed spec fn wf(&self) -> bool {
        &&& self.depth <= MAX_DEPTH
        &&& self.octant_length == pow2(self.depth as nat)
        &&& self.root.wf()
        &&& self.root.level() == self.depth
    }

    /// Every occupied voxel with its data, in octant order at every level.
    pub closed spec fn entries(&self) -> Seq<(Voxel, PointData)> {
        self.root.entries_at(0, 0, 0).map_values(|e: IndexEntry| voxel_of(self.depth as nat, e))
    }

    /// How many nodes the tree has allocated, the root included.
    pub closed spec fn node_count(&self) -> nat {
        self.root.node_count()
    }

    /// How many nodes are allocated on the way from the root down to `v`,
    /// the root included.
    pub closed spec fn path_nodes(&self, v: Voxel) -> nat {
        self.root.path_len(
            axis_index(self.depth as nat, v.x as int),
            axis_index(self.depth as nat, v.y as int),
            axis_index(self.depth as nat, v.z as int),
        )
    }

    /// Nothing is allocated but the root.
    pub open spec fn is_fresh(&self) -> bool {
        &&& self.node_count() == 1
        &&& forall|v: Voxel| self.in_bounds(v) ==> #[trigger] self.path_nodes(v) == 1
    }

    /// Whether `v` lies inside the cube the tree covers.
    pub open spec fn in_bounds(&self, v: Voxel) -> bool {
        voxel_in_range(self.spec_depth(), v)
    }

    /// What a query for `v` answers: the stored data, or nothing.
    pub open spec fn spec_get(&self, v: Voxel) -> Option<PointData> {
        if self@.contains_key(v) {
            Some(self@[v])
        } else {
            None
        }
    }

    /// An empty tree covering `[-2^depth, 2^depth - 1]` along each axis.
    pub fn new(depth: Depth) -> (r: Result<SparseVoxelOctree, OctreeError>)
        ensures
            depth > MAX_DEPTH ==> r == Err::<SparseVoxelOctree, OctreeError>(
                OctreeError::UnsupportedDepth,
            ),
            depth <= MAX_DEPTH ==> r is Ok && r->Ok_0.wf() && r->Ok_0.spec_depth() == depth
                && r->Ok_0@ == Map::<Voxel, PointData>::empty() && r->Ok_0.is_fresh(),
    {
        match OctreeNode::new(depth) {
            Ok(root) => {
                proof {
                    lemma_u32_pow2_no_overflow(depth as nat);
                    lemma_u32_shl_is_mul(1u32, depth);
                    OctreeNode::lemma_vacant_lookup(root);
                    OctreeNode::lemma_vacant_count(root);
                }
                let tree = SparseVoxelOctree { depth, octant_length: 1u32 << depth, root };
                assert(tree@ =~= Map::<Voxel, PointData>::empty());
                proof {
                    assert forall|v: Voxel| tree.in_bounds(v) implies #[trigger] tree.path_nodes(v)
                        == 1 by {
                        lemma_axis_index_injective(depth as nat, v.x as int, v.x as int);
                        lemma_axis_index_injective(depth as nat, v.y as int, v.y as int);
                        lemma_axis_index_injective(depth as nat, v.z as int, v.z as int);
                    }
                }
                Ok(tree)
            },
            Err(e) => Err(e),
        }
    }

    /// The depth the tree was built with.
    pub fn depth(&self) -> (r: Depth)
        ensures
            r == self.spec_depth(),
    {
        self.depth
    }

    /// The biased absolute value of a signed coordinate: the negative half
    /// is shifted up by one before it is negated, so `[-k, -1]` lands on
    /// `[0, k)` just as `[0, k)` does.
    pub fn abs_svo(n: i32) -> (r: u32)
        ensures
            r == biased_abs(n as int),
    {
        if n < 0 {
            (-(n + 1)) as u32
        } else {
            n as u32
        }
    }

    /// Whether `v` lies inside the cube the tree covers. The three biased
    /// magnitudes are OR-ed together and compared once: the OR is below a
    /// power of two exactly when each operand is.
    pub fn is_in_bounds(&self, v: &Voxel) -> (r: bool)
        requires
            self.wf(),
        ensures
            r == self.in_bounds(*v),
    {
        let a: u32 = Self::abs_svo(v.x);
        let b: u32 = Self::abs_svo(v.y);
        let c: u32 = Self::abs_svo(v.z);
        let d: u32 = self.depth;
        proof {
            lemma_u32_pow2_no_overflow(d as nat);
            lemma_u32_shl_is_mul(1u32, d);
            assert(((a | b | c) < (1u32 << d)) == (a < (1u32 << d) && b < (1u32 << d) && c < (1u32
                << d))) by (bit_vector)
                requires
                    d < 32,
            ;
        }
        (a | b | c) < self.octant_length
    }

    /// The point that `v` addresses at the root, or `OutOfRange` when `v`
    /// lies outside the cube.
    pub fn to_point(&self, v: &Voxel) -> (r: Result<OctreePoint, OctreeError>)
        requires
            self.wf(),
        ensures
            !self.in_bounds(*v) ==> r == Err::<OctreePoint, OctreeError>(OctreeError::OutOfRange),
            self.in_bounds(*v) ==> r is Ok && r->Ok_0.wf() && r->Ok_0.width() == self.spec_depth()
                + 1 && r->Ok_0.ix() == axis_index(self.spec_depth(), v.x as int) && r->Ok_0.iy()
                == axis_index(self.spec_depth(), v.y as int) && r->Ok_0.iz() == axis_index(
                self.spec_depth(),
                v.z as int,
            ),
    {
        if !self.is_in_bounds(v) {
            return Err(OctreeError::OutOfRange);
        }
        OctreePoint::new(self.axis(v.x), self.axis(v.y), self.axis(v.z))
    }

    /// What the tree stores at `v`. A voxel outside the cube cannot be
    /// present, so it is answered with nothing rather than with an error.
    pub fn get(&self, v: &Voxel) -> (r: Option<PointData>)
        requires
            self.wf(),
        ensures
            r == self.spec_get(*v),
            !self.in_bounds(*v) ==> r is None,
    {
        match self.to_point(v) {
            Ok(p) => self.root.get_inner(p),
            Err(_) => None,
        }
    }

    /// What the tree stores at `v`, with a voxel outside the cube reported
    /// as `OutOfRange`.
    pub fn try_get(&self, v: &Voxel) -> (r: Result<Option<PointData>, OctreeError>)
        requires
            self.wf(),
        ensures
            self.in_bounds(*v) ==> r == Ok::<Option<PointData>, OctreeError>(self.spec_get(*v)),
            !self.in_bounds(*v) ==> r == Err::<Option<PointData>, OctreeError>(
                OctreeError::OutOfRange,
            ),
    {
        match self.to_point(v) {
            Ok(p) => Ok(self.root.get_inner(p)),
            Err(e) => Err(e),
        }
    }

    /// Whether the tree stores anything at `v`.
    pub fn contains(&self, v: &Voxel) -> (r: bool)
        requires
            self.wf(),
        ensures
            r == self@.contains_key(*v),
    {
        let point = self.to_point(v);
        self.root.contains(point)
    }

    /// Stores `data` at `v`, replacing what was there, or reports
    /// `OutOfRange` and changes nothing when `v` lies outside the cube.
    pub fn insert(&mut self, v: &Voxel, data: PointData) -> (r: Result<(), OctreeError>)
        requires
            old(self).wf(),
        ensures
            final(self).wf(),
            final(self).spec_depth() == old(self).spec_depth(),
            old(self).in_bounds(*v) ==> r is Ok && inserted(*old(self), *final(self), *v, data),
            !old(self).in_bounds(*v) ==> r == Err::<(), OctreeError>(OctreeError::OutOfRange)
                && *final(self) == *old(self),
    {
        match self.to_point(v) {
            Ok(p) => {
                self.root.insert_inner(p, data);
                proof {
                    let d = self.depth as nat;
                    assert forall|w: Voxel| voxel_in_range(d, w) implies #[trigger] self.slot(w)
                        == if w == *v {
                        Some(data)
                    } else {
                        old(self).slot(w)
                    } by {
                        lemma_axis_index_injective(d, w.x as int, v.x as int);
                        lemma_axis_index_injective(d, w.y as int, v.y as int);
                        lemma_axis_index_injective(d, w.z as int, v.z as int);
                    }
                    assert(self@ =~= old(self)@.insert(*v, data));
                }
                Ok(())
            },
            Err(e) => Err(e),
        }
    }

    /// Clears `v` and hands back what it held. A voxel outside the cube
    /// holds nothing, and removing it changes nothing.
    pub fn remove(&mut self, v: &Voxel) -> (r: Option<PointData>)
        requires
            old(self).wf(),
        ensures
            r == old(self).spec_get(*v),
            removed(*old(self), *final(self), *v),
    {
        match self.to_point(v) {
            Ok(p) => {
                let previous = self.root.remove_inner(p);
                proof {
                    let d = self.depth as nat;
                    assert forall|w: Voxel| voxel_in_range(d, w) implies #[trigger] self.slot(w)
                        == if w == *v {
                        None
                    } else {
                        old(self).slot(w)
                    } by {
                        lemma_axis_index_injective(d, w.x as int, v.x as int);
                        lemma_axis_index_injective(d, w.y as int, v.y as int);
                        lemma_axis_index_injective(d, w.z as int, v.z as int);
                    }
                    assert(self@ =~= old(self)@.remove(*v));
                }
                previous
            },
            Err(_) => {
                assert(self@ =~= old(self)@.remove(*v));
                None
            },
        }
    }

    /// Every occupied voxel with its data, in octant order at every level:
    /// a fresh traversal on every call.
    pub fn iterate(&self) -> (r: Vec<(Voxel, PointData)>)
        requires
            self.wf(),
        ensures
            r@ == self.entries(),
    {
        proof {
            lemma_pow2_bound((self.depth + 1) as nat);
        }
        let mut raw: Vec<IndexEntry> = Vec::new();
        self.root.collect_into(0, 0, 0, &mut raw);
        assert(raw@ =~= self.root.entries_at(0, 0, 0));
        let mut out: Vec<(Voxel, PointData)> = Vec::new();
        let mut k: usize = 0;
        while k < raw.len()
            invariant
                self.wf(),
                0 <= k <= raw@.len(),
                raw@ == self.root.entries_at(0, 0, 0),
                out@.len() == k,
                forall|j: int|
                    0 <= j < k ==> #[trigger] out@[j] == voxel_of(self.depth as nat, raw@[j]),
            decreases raw@.len() - k,
        {
            let (x, y, z, data) = raw[k];
            proof {
                lemma_pow2_bound((self.depth + 1) as nat);
                assert(raw@.contains(raw@[k as int]));
                OctreeNode::lemma_entries_member(self.root, 0, 0, 0, raw@[k as int]);
            }
            let voxel = Voxel { x: self.coord(x), y: self.coord(y), z: self.coord(z) };
            out.push((voxel, data));
            k += 1;
        }
        assert(out@ =~= self.entries());
        out
    }

    /// The signed coordinate of one root-level index: the inverse of the
    /// normalisation.
    fn coord(&self, u: u32) -> (r: i32)
        requires
            self.wf(),
            u < pow2(self.spec_depth() + 1),
        ensures
            r == axis_coord(self.spec_depth(), u as nat),
    {
        proof {
            lemma_pow2_bound((self.depth + 1) as nat);
            lemma_pow2_unfold((self.depth + 1) as nat);
            lemma_pow2_pos(self.depth as nat);
        }
        if u < self.octant_length {
            u as i32
        } else {
            -((u - self.octant_length) as i32) - 1
        }
    }

    /// How many nodes the tree has allocated, the root included, held at
    /// the largest representable count where it would exceed it.
    pub fn count_nodes(&self) -> (r: usize)
        requires
            self.wf(),
        ensures
            r == if self.node_count() <= usize::MAX {
                self.node_count()
            } else {
                usize::MAX as nat
            },
    {
        self.root.count_nodes()
    }

    /// The enumeration holds exactly the occupied voxels, each with the
    /// data stored for it.
    pub proof fn lemma_entries_match_view(&self, v: Voxel, data: PointData)
        requires
            self.wf(),
        ensures
            self.entries().contains((v, data)) <==> self@.contains_pair(v, data),
    {
        let d = self.depth as nat;
        let raw = self.root.entries_at(0, 0, 0);
        let f = |e: IndexEntry| voxel_of(d, e);
        lemma_pow2_bound(d + 1);
        if self.entries().contains((v, data)) {
            let k = choose|k: int| 0 <= k < self.entries().len() && self.entries()[k] == (v, data);
            let e = raw[k];
            assert(raw.contains(e));
            OctreeNode::lemma_entries_member(self.root, 0, 0, 0, e);
            lemma_axis_round_trip(d, 0, e.0 as nat);
            lemma_axis_round_trip(d, 0, e.1 as nat);
            lemma_axis_round_trip(d, 0, e.2 as nat);
            lemma_pow2_unfold(d + 1);
            assert(self.slot(v) == Some(data));
        }
        if self@.contains_pair(v, data) {
            lemma_axis_index_injective(d, v.x as int, v.x as int);
            lemma_axis_index_injective(d, v.y as int, v.y as int);
            lemma_axis_index_injective(d, v.z as int, v.z as int);
            let e: IndexEntry = (
                axis_index(d, v.x as int) as u32,
                axis_index(d, v.y as int) as u32,
                axis_index(d, v.z as int) as u32,
                data,
            );
            OctreeNode::lemma_entries_member(self.root, 0, 0, 0, e);
            let k = choose|k: int| 0 <= k < raw.len() && raw[k] == e;
            lemma_axis_round_trip(d, v.x as int, 0);
            lemma_axis_round_trip(d, v.y as int, 0);
            lemma_axis_round_trip(d, v.z as int, 0);
            assert(self.entries()[k] == (v, data));
        }
    }

    /// The enumeration rises strictly in octant order: of two entries the
    /// earlier one lies in the lower octant at the first level, counted
    /// from the root, at which their octants differ. No voxel is
    /// enumerated twice.
    pub proof fn lemma_entries_rising(&self, i: int, j: int)
        requires
            self.wf(),
            0 <= i < j < self.entries().len(),
        ensures
            voxel_rank(self.spec_depth(), self.entries()[i].0) < voxel_rank(
                self.spec_depth(),
                self.entries()[j].0,
            ),
            self.entries()[i].0 != self.entries()[j].0,
    {
        let d = self.depth as nat;
        let raw = self.root.entries_at(0, 0, 0);
        lemma_pow2_bound(d + 1);
        OctreeNode::lemma_entries_rising(self.root, 0, 0, 0);
        assert(rank_of(d, 0, 0, 0, raw[i]) < rank_of(d, 0, 0, 0, raw[j]));
        self.lemma_rank_of_entry(i);
        self.lemma_rank_of_entry(j);
    }

    /// The place of an enumerated voxel in the order is the place of the
    /// position it was enumerated from.
    proof fn lemma_rank_of_entry(&self, k: int)
        requires
            self.wf(),
            0 <= k < self.entries().len(),
        ensures
            voxel_rank(self.spec_depth(), self.entries()[k].0) == rank_of(
                self.spec_depth(),
                0,
                0,
                0,
                self.root.entries_at(0, 0, 0)[k],
            ),
    {
        let d = self.depth as nat;
        let raw = self.root.entries_at(0, 0, 0);
        let e = raw[k];
        lemma_pow2_bound(d + 1);
        assert(raw.contains(e));
        OctreeNode::lemma_entries_member(self.root, 0, 0, 0, e);
        lemma_axis_round_trip(d, 0, e.0 as nat);
        lemma_axis_round_trip(d, 0, e.1 as nat);
        lemma_axis_round_trip(d, 0, e.2 as nat);
        lemma_pow2_unfold(d + 1);
    }

    /// What a tree stores decides the tree: two trees of one depth with
    /// the same view are the same tree, node for node. No operation leaves
    /// a trace beyond what is stored.
    pub proof fn lemma_view_decides_tree(a: SparseVoxelOctree, b: SparseVoxelOctree)
        requires
            a.wf(),
            b.wf(),
            a.spec_depth() == b.spec_depth(),
            a@ == b@,
        ensures
            a == b,
    {
        let d = a.depth as nat;
        lemma_pow2_bound(d + 1);
        lemma_pow2_unfold(d + 1);
        assert forall|x: nat, y: nat, z: nat| #[trigger]
            a.root.lookup(x, y, z) == b.root.lookup(x, y, z) by {
            if x < pow2(d + 1) && y < pow2(d + 1) && z < pow2(d + 1) {
                lemma_axis_round_trip(d, 0, x);
                lemma_axis_round_trip(d, 0, y);
                lemma_axis_round_trip(d, 0, z);
                let v = Voxel {
                    x: axis_coord(d, x) as i32,
                    y: axis_coord(d, y) as i32,
                    z: axis_coord(d, z) as i32,
                };
                assert(a.slot(v) == a.root.lookup(x, y, z));
                assert(b.slot(v) == b.root.lookup(x, y, z));
                assert(voxel_in_range(d, v));
                assert(a@.contains_key(v) == b@.contains_key(v));
                assert(a@.contains_key(v) == a.slot(v) is Some);
                assert(b@.contains_key(v) == b.slot(v) is Some);
                if a@.contains_key(v) {
                    assert(a@[v] == b@[v]);
                    assert(a@[v] == a.slot(v)->Some_0);
                    assert(b@[v] == b.slot(v)->Some_0);
                }
                assert(a.slot(v) == b.slot(v));
            } else {
                assert(a.root.lookup(x, y, z) is None);
                assert(b.root.lookup(x, y, z) is None);
            }
        }
        OctreeNode::lemma_contents_decide_node(a.root, b.root);
    }

    /// The root-level coordinate of one in-range signed coordinate: the
    /// sign on top of the biased magnitude.
    fn axis(&self, n: i32) -> (r: MaskUInt)
        requires
            self.wf(),
            axis_in_range(self.spec_depth(), n as int),
        ensures
            r.wf(),
            r.spec_bits() == self.spec_depth() + 1,
            r.spec_value() == axis_index(self.spec_depth(), n as int),
    {
        proof {
            lemma_pow2_bound((self.depth + 1) as nat);
            lemma_pow2_unfold((self.depth + 1) as nat);
            lemma_pow2_pos(self.depth as nat);
        }
        let magnitude: u32 = Self::abs_svo(n);
        let index: u32 = if n < 0 {
            self.octant_length + magnitude
        } else {
            magnitude
        };
        MaskUInt::try_from(self.depth + 1, index).unwrap()
    }
}

/// Whether `after` is what an accepted insert of `data` at `v` makes of
/// `before`: the view gains the pair, an insert that changes nothing leaves
/// the tree as it was, and the nodes missing on the way to `v` are the only
/// ones allocated.
pub open spec fn inserted(
    before: SparseVoxelOctree,
    after: SparseVoxelOctree,
    v: Voxel,
    data: PointData,
) -> bool {
    &&& after.wf()
    &&& after.spec_depth() == before.spec_depth()
    &&& after@ == before@.insert(v, data)
    &&& before@.contains_pair(v, data) ==> after == before
    &&& after.path_nodes(v) == before.spec_depth() + 1
    &&& after.node_count() + before.path_nodes(v) == before.node_count() + before.spec_depth() + 1
}

/// Whether `after` is what a removal at `v` makes of `before`.
pub open spec fn removed(before: SparseVoxelOctree, after: SparseVoxelOctree, v: Voxel) -> bool {
    &&& after.wf()
    &&& after.spec_depth() == before.spec_depth()
    &&& after@ == before@.remove(v)
    &&& !before@.contains_key(v) ==> after == before
    &&& after.node_count() <= before.node_count()
}

} // verus!
