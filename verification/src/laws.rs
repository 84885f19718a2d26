//! What holds of the octree across calls: each law is stated over the views
//! that the operations' own contracts speak of.

use crate::coord::{PointData, Voxel};
use crate::octree::{inserted, removed, voxel_rank, SparseVoxelOctree};
use vstd::prelude::*;

verus! {

/// What was inserted is what a query then finds.
pub proof fn lemma_insert_then_get(
    before: SparseVoxelOctree,
    after: SparseVoxelOctree,
    v: Voxel,
    data: PointData,
)
    requires
        before.wf(),
        before.in_bounds(v),
        inserted(before, after, v, data),
    ensures
        after.spec_get(v) == Some(data),
        forall|w: Voxel| w != v ==> after.spec_get(w) == before.spec_get(w),
{
}

/// A tree in which nothing was stored answers every query with nothing.
pub proof fn lemma_fresh_tree_holds_nothing(tree: SparseVoxelOctree, v: Voxel)
    requires
        tree.wf(),
        tree@ == Map::<Voxel, PointData>::empty(),
    ensures
        tree.spec_get(v) is None,
        !tree@.contains_key(v),
{
}

/// Inserting the same data at the same voxel a second time changes nothing
/// at all: not the view, not a node.
pub proof fn lemma_insert_is_idempotent(
    before: SparseVoxelOctree,
    once: SparseVoxelOctree,
    twice: SparseVoxelOctree,
    v: Voxel,
    data: PointData,
)
    requires
        before.wf(),
        before.in_bounds(v),
        inserted(before, once, v, data),
        inserted(once, twice, v, data),
    ensures
        twice == once,
        twice@ == once@,
        twice.node_count() == once.node_count(),
        twice.entries() == once.entries(),
{
    assert(once@.contains_pair(v, data));
}

/// Of two inserts at one voxel the second one wins, and the tree is as if
/// the first had never happened.
pub proof fn lemma_insert_overwrites(
    before: SparseVoxelOctree,
    first: SparseVoxelOctree,
    second: SparseVoxelOctree,
    v: Voxel,
    d1: PointData,
    d2: PointData,
)
    requires
        before.wf(),
        before.in_bounds(v),
        inserted(before, first, v, d1),
        inserted(first, second, v, d2),
    ensures
        second.spec_get(v) == Some(d2),
        second@ == before@.insert(v, d2),
{
    assert(second@ =~= before@.insert(v, d2));
}

/// What was inserted and then removed is not found, and every other voxel
/// is as it was before the two calls. Where the voxel held nothing before,
/// the two calls leave the tree exactly as it was: the nodes that the insert
/// allocated are released again.
pub proof fn lemma_insert_then_remove(
    before: SparseVoxelOctree,
    stored: SparseVoxelOctree,
    cleared: SparseVoxelOctree,
    v: Voxel,
    data: PointData,
)
    requires
        before.wf(),
        before.in_bounds(v),
        inserted(before, stored, v, data),
        removed(stored, cleared, v),
    ensures
        cleared.spec_get(v) is None,
        cleared@ == before@.remove(v),
        !before@.contains_key(v) ==> cleared == before,
{
    assert(cleared@ =~= before@.remove(v));
    if !before@.contains_key(v) {
        assert(cleared@ =~= before@);
        SparseVoxelOctree::lemma_view_decides_tree(cleared, before);
    }
}

/// One insert into a tree that has only its root leaves the tree with the
/// nodes on the way to the voxel, one per level, and no other node: nothing
/// is allocated beside the path.
pub proof fn lemma_single_insert_is_sparse(
    fresh: SparseVoxelOctree,
    after: SparseVoxelOctree,
    v: Voxel,
    data: PointData,
)
    requires
        fresh.wf(),
        fresh.is_fresh(),
        fresh.in_bounds(v),
        inserted(fresh, after, v, data),
    ensures
        after.node_count() == fresh.spec_depth() + 1,
        after.node_count() == after.path_nodes(v),
{
}

/// An insert allocates at most one node per level, and never more than the
/// way to the voxel still lacks.
pub proof fn lemma_insert_allocates_the_path_only(
    before: SparseVoxelOctree,
    after: SparseVoxelOctree,
    v: Voxel,
    data: PointData,
)
    requires
        before.wf(),
        before.in_bounds(v),
        inserted(before, after, v, data),
    ensures
        after.node_count() - before.node_count() == before.spec_depth() + 1 - before.path_nodes(v),
        after.node_count() <= before.node_count() + before.spec_depth() + 1,
{
}

/// Whether a run of entries rises strictly in the enumeration order of a
/// tree of the given depth.
pub open spec fn rising(s: Seq<(Voxel, PointData)>, depth: nat) -> bool {
    forall|i: int, j: int|
        0 <= i < j < s.len() ==> voxel_rank(depth, (#[trigger] s[i]).0) < voxel_rank(
            depth,
            (#[trigger] s[j]).0,
        )
}

/// Two runs of entries that both rise strictly and hold the same entries
/// are the same run.
pub proof fn lemma_rising_runs_agree(
    s: Seq<(Voxel, PointData)>,
    t: Seq<(Voxel, PointData)>,
    depth: nat,
)
    requires
        rising(s, depth),
        rising(t, depth),
        forall|e: (Voxel, PointData)| s.contains(e) <==> t.contains(e),
    ensures
        s == t,
    decreases s.len(),
{
    if s.len() == 0 {
        if t.len() > 0 {
            assert(t.contains(t[0]));
            assert(s.contains(t[0]));
        }
        assert(s =~= t);
    } else {
        let a = s.last();
        assert(s.contains(a));
        assert(t.contains(a));
        let k = choose|k: int| 0 <= k < t.len() && t[k] == a;
        let b = t.last();
        assert(t.contains(b));
        assert(s.contains(b));
        let m = choose|m: int| 0 <= m < s.len() && s[m] == b;
        // Each last entry occurs in the other run, at or before its end:
        // so neither is ranked above the other, and both stand last.
        assert(k == t.len() - 1) by {
            if k < t.len() - 1 {
                assert(voxel_rank(depth, t[k].0) < voxel_rank(depth, t[t.len() - 1].0));
                if m < s.len() - 1 {
                    assert(voxel_rank(depth, s[m].0) < voxel_rank(depth, s[s.len() - 1].0));
                }
            }
        }
        let s0 = s.drop_last();
        let t0 = t.drop_last();
        assert forall|e: (Voxel, PointData)| s0.contains(e) <==> t0.contains(e) by {
            if s0.contains(e) {
                let i = choose|i: int| 0 <= i < s0.len() && s0[i] == e;
                assert(s[i] == e);
                assert(voxel_rank(depth, s[i].0) < voxel_rank(depth, s[s.len() - 1].0));
                assert(s.contains(e));
                let j = choose|j: int| 0 <= j < t.len() && t[j] == e;
                assert(t0[j] == e);
            }
            if t0.contains(e) {
                let i = choose|i: int| 0 <= i < t0.len() && t0[i] == e;
                assert(t[i] == e);
                assert(voxel_rank(depth, t[i].0) < voxel_rank(depth, t[t.len() - 1].0));
                assert(t.contains(e));
                let j = choose|j: int| 0 <= j < s.len() && s[j] == e;
                assert(s0[j] == e);
            }
        }
        assert(rising(s0, depth)) by {
            assert forall|i: int, j: int| 0 <= i < j < s0.len() implies voxel_rank(
                depth,
                (#[trigger] s0[i]).0,
            ) < voxel_rank(depth, (#[trigger] s0[j]).0) by {
                assert(s0[i] == s[i] && s0[j] == s[j]);
            }
        }
        assert(rising(t0, depth)) by {
            assert forall|i: int, j: int| 0 <= i < j < t0.len() implies voxel_rank(
                depth,
                (#[trigger] t0[i]).0,
            ) < voxel_rank(depth, (#[trigger] t0[j]).0) by {
                assert(t0[i] == t[i] && t0[j] == t[j]);
            }
        }
        lemma_rising_runs_agree(s0, t0, depth);
        assert(s =~= s0.push(a));
        assert(t =~= t0.push(b));
    }
}

/// What a tree enumerates is decided by its depth and by what it stores:
/// two trees of one depth that store the same enumerate the same, in the
/// same order, however they came to store it.
pub proof fn lemma_view_decides_entries(a: SparseVoxelOctree, b: SparseVoxelOctree)
    requires
        a.wf(),
        b.wf(),
        a.spec_depth() == b.spec_depth(),
        a@ == b@,
    ensures
        a.entries() == b.entries(),
{
    let depth = a.spec_depth();
    assert(rising(a.entries(), depth)) by {
        assert forall|i: int, j: int| 0 <= i < j < a.entries().len() implies voxel_rank(
            depth,
            (#[trigger] a.entries()[i]).0,
        ) < voxel_rank(depth, (#[trigger] a.entries()[j]).0) by {
            a.lemma_entries_rising(i, j);
        }
    }
    assert(rising(b.entries(), depth)) by {
        assert forall|i: int, j: int| 0 <= i < j < b.entries().len() implies voxel_rank(
            depth,
            (#[trigger] b.entries()[i]).0,
        ) < voxel_rank(depth, (#[trigger] b.entries()[j]).0) by {
            b.lemma_entries_rising(i, j);
        }
    }
    assert forall|e: (Voxel, PointData)| a.entries().contains(e) <==> b.entries().contains(e) by {
        a.lemma_entries_match_view(e.0, e.1);
        b.lemma_entries_match_view(e.0, e.1);
    }
    lemma_rising_runs_agree(a.entries(), b.entries(), depth);
}

} // verus!
