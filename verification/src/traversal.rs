//! The order-preserving walk over an octree's leaves: one entry per leaf,
//! in interleaved-index order, skipping each leaf's whole footprint at once.

use vstd::prelude::*;
use vstd::arithmetic::power2::pow2;

use crate::octree::{lemma_get_cube_shape, lemma_get_cube_voxel, spec_get_cube, voxel_at, Octree, OctreeContent, Voxel};
use crate::position::{pos_morton, pow8, OctreePosition};

verus! {

/// A cursor over the leaves of an octree, in interleaved order.  Each step
/// yields one leaf and jumps to the cell just past the leaf's footprint;
/// the walk is over once any coordinate reaches the tree's edge length.
pub struct OctreeIterator<'a> {
    pos: OctreePosition,
    octree: &'a Octree,
    limit: u64,
}

impl<'a> OctreeIterator<'a> {
    /// The cursor keeps pointing at its tree, with the tree's edge length
    /// as its limit.
    pub closed spec fn wf(self) -> bool {
        self.octree.well_formed() && self.limit == pow2(self.octree.size as nat)
    }

    /// The position the cursor stands on.
    pub closed spec fn position(self) -> OctreePosition {
        self.pos
    }

    /// The tree being walked.
    pub closed spec fn tree(self) -> Octree {
        *self.octree
    }

    /// The walk is finished: some coordinate has left the volume.
    pub closed spec fn done(self) -> bool {
        self.pos.0 >= self.limit || self.pos.1 >= self.limit || self.pos.2 >= self.limit
    }

    /// A fresh cursor at the volume's first cell.
    pub fn new(octree: &'a Octree) -> (r: Self)
        requires
            octree.well_formed(),
        ensures
            r.wf(),
            r.tree() == *octree,
            r.position() == (OctreePosition { 0: 0, 1: 0, 2: 0 }),
    {
        OctreeIterator { pos: OctreePosition(0, 0, 0), octree: octree, limit: octree.cart_size() }
    }

    /// The next leaf under the cursor, with the position of its minimum
    /// corner and its size, or nothing once the walk is finished.  The
    /// cursor jumps past the whole leaf: its interleaved index grows by
    /// exactly the leaf's cell count.
    pub fn next(&mut self) -> (r: Option<(Voxel, OctreePosition, u8)>)
        requires
            old(self).wf(),
        ensures
            final(self).wf(),
            final(self).tree() == old(self).tree(),
            match r {
                None => *final(self) == *old(self) && old(self).done(),
                Some(entry) => {
                    let leaf = spec_get_cube(old(self).tree(), old(self).position(), 0);
                    &&& !old(self).done()
                    &&& entry.1 == old(self).position()
                    &&& leaf.content == OctreeContent::Voxel(entry.0)
                    &&& entry.0 == voxel_at(
                        old(self).tree()@,
                        old(self).tree().size as nat,
                        old(self).position(),
                    )
                    &&& entry.2 == leaf.size
                    &&& pos_morton(final(self).position()) == pos_morton(old(self).position())
                        + pow8(entry.2 as nat)
                },
            },
    {
        if self.pos.0 >= self.limit || self.pos.1 >= self.limit || self.pos.2 >= self.limit {
            return None;
        }
        let deepest_cube = self.octree.find_cube(self.pos, 0);
        proof {
            lemma_get_cube_shape(*self.octree, self.pos, 0);
            lemma_get_cube_voxel(*self.octree, self.pos, 0);
            if self.octree.size < 63 {
                vstd::arithmetic::power2::lemma_pow2_strictly_increases(self.octree.size as nat, 63);
            }
            vstd::arithmetic::power2::lemma2_to64_rest();
        }
        let voxel = match &deepest_cube.content {
            OctreeContent::Voxel(v) => *v,
            OctreeContent::Childs(_) => vstd::pervasive::unreached(),
        };
        let previous_pos = self.pos;
        let leaf_size = deepest_cube.size;
        self.pos.morton_increment(leaf_size);
        Some((voxel, previous_pos, leaf_size))
    }
}

impl Octree {
    /// A cursor over this tree's leaves, in interleaved order, starting at
    /// the volume's first cell.
    pub fn voxel_iterator<'a>(&'a self) -> (r: OctreeIterator<'a>)
        requires
            self.well_formed(),
        ensures
            r.wf(),
            r.tree() == *self,
            r.position() == (OctreePosition { 0: 0, 1: 0, 2: 0 }),
    {
        OctreeIterator::new(self)
    }
}

} // verus!
