//! The sparse voxel octree: a cube region of edge length `2^size` that is
//! either one homogeneous voxel or eight child octants of half the edge.

use vstd::prelude::*;

use crate::position::{octant_at, OctreePosition};

verus! {

/// The material stored in a leaf of the octree.
#[derive(Debug, Clone, Copy, PartialEq, Eq, Structural)]
pub enum Voxel {
    Empty,
    Dirt,
    Stone,
}

/// What a node holds: eight children of half the edge length, or one voxel
/// for the whole region.
#[derive(Debug, PartialEq, Eq)]
pub enum OctreeContent {
    Childs(Vec<Octree>),
    Voxel(Voxel),
}

/// A query or mutation that asked something the tree's structure rules out.
#[derive(Debug, Clone, Copy, PartialEq, Eq, Structural)]
pub enum OctreeError {
    SizeLargerThanOctree,
    NotAVoxel,
    NotAnEdge,
    TooSmallToBeSplit,
}

/// A cube region of edge length `2^size` cells.
#[derive(Debug, PartialEq, Eq)]
pub struct Octree {
    pub size: u8,
    pub content: OctreeContent,
}

/// The mathematical shape of an octree: the tree of voxel values alone,
/// with the sizes stripped away.
#[verifier::ext_equal]
pub enum OctreeView {
    Childs(Seq<OctreeView>),
    Voxel(Voxel),
}

/// The views of a run of sibling nodes, in child-index order.
pub open spec fn views_of(cs: Seq<Octree>) -> Seq<OctreeView>
    decreases cs,
{
    Seq::new(
        cs.len(),
        |i: int|
            if 0 <= i < cs.len() {
                cs[i]@
            } else {
                OctreeView::Voxel(Voxel::Empty)
            },
    )
}

impl View for Octree {
    type V = OctreeView;

    open spec fn view(&self) -> OctreeView
        decreases self,
    {
        match self.content {
            OctreeContent::Voxel(v) => OctreeView::Voxel(v),
            OctreeContent::Childs(cs) => OctreeView::Childs(views_of(cs@)),
        }
    }
}

impl Octree {
    /// The tree invariant: sizes stay within the 63 bit planes of a
    /// coordinate, a branch sits strictly above size 0, has exactly eight
    /// children, and each child is one size smaller.
    pub open spec fn well_formed(self) -> bool
        decreases self,
    {
        self.size <= 63 && match self.content {
            OctreeContent::Voxel(_) => true,
            OctreeContent::Childs(childs) => {
                &&& self.size >= 1
                &&& childs@.len() == 8
                &&& forall|i: int|
                    0 <= i < 8 ==> (#[trigger] childs@[i]).size == self.size - 1
                        && childs@[i].well_formed()
            },
        }
    }

    /// A single leaf of the given size holding the given voxel
    /// (`Voxel::Empty` when none is named).
    pub fn new(size: u8, voxel: Option<Voxel>) -> (r: Self)
        requires
            size <= 63,
        ensures
            r.size == size,
            r.content == OctreeContent::Voxel(match voxel {
                Some(v) => v,
                None => Voxel::Empty,
            }),
            r@ == OctreeView::Voxel(match voxel {
                Some(v) => v,
                None => Voxel::Empty,
            }),
            r.well_formed(),
    {
        Self {
            size,
            content: OctreeContent::Voxel(
                match voxel {
                    Some(v) => v,
                    None => Voxel::Empty,
                },
            ),
        }
    }
}

/// Well-formedness of a bare view: every branch has exactly eight children.
pub open spec fn wf_view(v: OctreeView) -> bool
    decreases v,
{
    match v {
        OctreeView::Voxel(_) => true,
        OctreeView::Childs(cs) => cs.len() == 8 && forall|i: int|
            0 <= i < 8 ==> wf_view(#[trigger] cs[i]),
    }
}

/// The voxel a tree of the given size shows at position `p`: descend by the
/// octant `p` selects at each bit plane until a leaf answers.
pub open spec fn voxel_at(v: OctreeView, size: nat, p: OctreePosition) -> Voxel
    decreases v,
{
    match v {
        OctreeView::Voxel(w) => w,
        OctreeView::Childs(cs) => {
            let i = octant_at(p, (size - 1) as nat);
            if 0 <= i < cs.len() {
                voxel_at(cs[i], (size - 1) as nat, p)
            } else {
                Voxel::Empty
            }
        },
    }
}

/// The node `get_cube` finds: descend towards `p`, stopping at size
/// `min_size` or at the first leaf.
pub open spec fn spec_get_cube(t: Octree, p: OctreePosition, min_size: u8) -> Octree
    decreases t,
{
    match t.content {
        OctreeContent::Voxel(_) => t,
        OctreeContent::Childs(cs) => if t.size <= min_size {
            t
        } else {
            let i = octant_at(p, (t.size - 1) as nat);
            if 0 <= i < cs@.len() {
                spec_get_cube(cs@[i], p, min_size)
            } else {
                t
            }
        },
    }
}

/// What the found cube looks like: well-formed, of a size between the
/// request and the tree, and a leaf unless it sits exactly at the request.
pub proof fn lemma_get_cube_shape(t: Octree, p: OctreePosition, min_size: u8)
    requires
        t.well_formed(),
        min_size <= t.size,
    ensures
        spec_get_cube(t, p, min_size).well_formed(),
        min_size <= spec_get_cube(t, p, min_size).size <= t.size,
        spec_get_cube(t, p, min_size).size > min_size ==> spec_get_cube(
            t,
            p,
            min_size,
        ).content matches OctreeContent::Voxel(_),
    decreases t,
{
    match t.content {
        OctreeContent::Voxel(_) => {},
        OctreeContent::Childs(cs) => {
            if t.size > min_size {
                let i = octant_at(p, (t.size - 1) as nat);
                lemma_get_cube_shape(cs@[i], p, min_size);
            }
        },
    }
}

/// The leaf found at size 0 carries exactly the voxel that `voxel_at` names.
pub proof fn lemma_get_cube_voxel(t: Octree, p: OctreePosition, min_size: u8)
    requires
        t.well_formed(),
        min_size <= t.size,
    ensures
        spec_get_cube(t, p, min_size).content matches OctreeContent::Voxel(w) ==> forall|q:
            OctreePosition|
            crate::position::same_cube(p, q, spec_get_cube(t, p, min_size).size as nat, t.size as nat)
                ==> voxel_at(t@, t.size as nat, q) == w,
    decreases t,
{
    let c = spec_get_cube(t, p, min_size);
    match t.content {
        OctreeContent::Voxel(_) => {},
        OctreeContent::Childs(cs) => {
            if t.size > min_size {
                let i = octant_at(p, (t.size - 1) as nat);
                lemma_get_cube_shape(cs@[i], p, min_size);
                lemma_get_cube_voxel(cs@[i], p, min_size);
                match c.content {
                    OctreeContent::Voxel(w) => {
                        assert forall|q: OctreePosition|
                            crate::position::same_cube(
                                p,
                                q,
                                c.size as nat,
                                t.size as nat,
                            ) implies voxel_at(t@, t.size as nat, q) == w by {
                            assert(octant_at(q, (t.size - 1) as nat) == i);
                            assert(views_of(cs@)[i] == cs@[i]@);
                            assert(crate::position::same_cube(
                                p,
                                q,
                                c.size as nat,
                                cs@[i].size as nat,
                            ));
                            assert(t@ == OctreeView::Childs(views_of(cs@)));
                            assert(voxel_at(t@, t.size as nat, q) == voxel_at(
                                cs@[i]@,
                                (t.size - 1) as nat,
                                q,
                            ));
                            assert(cs@[i].size as nat == (t.size - 1) as nat);
                        }
                    },
                    OctreeContent::Childs(_) => {},
                }
            }
        },
    }
}

impl Octree {
    /// The edge length of this tree in size-0 cells.
    pub fn cart_size(&self) -> (r: u64)
        requires
            self.size <= 63,
        ensures
            r == vstd::arithmetic::power2::pow2(self.size as nat),
    {
        Self::octree_size_to_cartestian(self.size)
    }

    /// The edge length, in size-0 cells, of a cube of the given size.
    pub fn octree_size_to_cartestian(size: u8) -> (r: u64)
        requires
            size <= 63,
        ensures
            r == vstd::arithmetic::power2::pow2(size as nat),
    {
        proof {
            vstd::bits::lemma_u64_pow2_no_overflow(size as nat);
            vstd::bits::lemma_u64_shl_is_mul(1u64, size as u64);
        }
        1u64 << (size as u64)
    }

    /// Descend towards `p` until reaching `min_size` or a leaf.
    pub(crate) fn find_cube(&self, pos: OctreePosition, min_size: u8) -> (r: &Octree)
        requires
            self.well_formed(),
            min_size <= self.size,
        ensures
            *r == spec_get_cube(*self, pos, min_size),
        decreases *self,
    {
        if min_size == self.size {
            return self;
        }
        match &self.content {
            OctreeContent::Voxel(_) => self,
            OctreeContent::Childs(cs) => {
                let i = pos.get_child_indice(self.size - 1);
                cs[i].find_cube(pos, min_size)
            },
        }
    }

    /// The sub-cube that contains `pos`, descending no deeper than
    /// `min_size`: a leaf above `min_size` answers for its whole region.
    pub fn get_cube(&self, pos: OctreePosition, min_size: u8) -> (r: Result<&Octree, OctreeError>)
        requires
            self.well_formed(),
        ensures
            min_size <= self.size ==> (r matches Ok(c) && *c == spec_get_cube(
                *self,
                pos,
                min_size,
            )),
            min_size > self.size ==> (r matches Err(e) && e == OctreeError::SizeLargerThanOctree),
    {
        if min_size > self.size {
            return Err(OctreeError::SizeLargerThanOctree);
        }
        Ok(self.find_cube(pos, min_size))
    }

    /// The voxel of the size-0 cell at `pos`.
    pub fn get_voxel(&self, pos: OctreePosition) -> (r: Voxel)
        requires
            self.well_formed(),
        ensures
            r == voxel_at(self@, self.size as nat, pos),
    {
        let cube = self.find_cube(pos, 0);
        proof {
            lemma_get_cube_shape(*self, pos, 0);
            lemma_get_cube_voxel(*self, pos, 0);
        }
        match &cube.content {
            OctreeContent::Voxel(v) => *v,
            OctreeContent::Childs(_) => vstd::pervasive::unreached(),
        }
    }

    /// Refine a leaf into a branch of eight leaves that keep its voxel.
    pub fn split(&mut self) -> (r: Result<(), OctreeError>)
        requires
            old(self).well_formed(),
        ensures
            final(self).size == old(self).size,
            final(self).well_formed(),
            r is Ok <==> (old(self).size >= 1 && old(self)@ matches OctreeView::Voxel(_)),
            match r {
                Ok(()) => old(self)@ matches OctreeView::Voxel(v) && final(self)@
                    == OctreeView::Childs(Seq::new(8, |i: int| OctreeView::Voxel(v))),
                Err(e) => *final(self) == *old(self) && ((old(self).size == 0 && e
                    == OctreeError::TooSmallToBeSplit) || (old(self).size >= 1 && (old(
                    self,
                )@ matches OctreeView::Childs(_)) && e == OctreeError::NotAVoxel)),
            },
    {
        if self.size == 0 {
            return Err(OctreeError::TooSmallToBeSplit);
        }
        let v = match &self.content {
            OctreeContent::Voxel(v) => *v,
            OctreeContent::Childs(_) => {
                return Err(OctreeError::NotAVoxel);
            },
        };
        let child_size = self.size - 1;
        let mut cs: Vec<Octree> = Vec::new();
        let mut i: usize = 0;
        while i < 8
            invariant
                i <= 8,
                cs@.len() == i,
                child_size <= 62,
                forall|j: int|
                    0 <= j < i ==> #[trigger] cs@[j] == (Octree {
                        size: child_size,
                        content: OctreeContent::Voxel(v),
                    }),
            decreases 8 - i,
        {
            cs.push(Octree::new(child_size, Some(v)));
            i += 1;
        }
        self.content = OctreeContent::Childs(cs);
        proof {
            assert(views_of(cs@) =~= Seq::new(8, |i: int| OctreeView::Voxel(v)));
            assert forall|j: int| 0 <= j < 8 implies (#[trigger] cs@[j]).size == self.size - 1
                && cs@[j].well_formed() by {
                assert(cs@[j] == (Octree { size: child_size, content: OctreeContent::Voxel(v) }));
            }
            assert(self.well_formed());
        }
        Ok(())
    }
}

/// The view a write leaves behind: descend towards `p`, splitting any leaf
/// met above `target`; the whole cube at `target` becomes one leaf of `vox`,
/// whatever stood there before.
pub open spec fn set_spec(
    v: OctreeView,
    node_size: nat,
    p: OctreePosition,
    target: nat,
    vox: Voxel,
) -> OctreeView
    decreases node_size,
{
    if node_size <= target {
        OctreeView::Voxel(vox)
    } else {
        let oct = octant_at(p, (node_size - 1) as nat);
        match v {
            OctreeView::Voxel(w) => OctreeView::Childs(
                Seq::new(
                    8,
                    |i: int|
                        if i == oct {
                            set_spec(OctreeView::Voxel(w), (node_size - 1) as nat, p, target, vox)
                        } else {
                            OctreeView::Voxel(w)
                        },
                ),
            ),
            OctreeView::Childs(cs) => OctreeView::Childs(
                cs.update(oct, set_spec(cs[oct], (node_size - 1) as nat, p, target, vox)),
            ),
        }
    }
}

/// Round trip of a write: after setting the cube of size `target` at `p` to
/// `vox`, every position inside that cube reads `vox`, and every position
/// outside it reads what it read before.
pub proof fn lemma_set_spec_voxel_at(
    v: OctreeView,
    node_size: nat,
    p: OctreePosition,
    target: nat,
    vox: Voxel,
    q: OctreePosition,
)
    requires
        wf_view(v),
        target <= node_size,
    ensures
        voxel_at(set_spec(v, node_size, p, target, vox), node_size, q) == if crate::position::same_cube(
            p,
            q,
            target,
            node_size,
        ) {
            vox
        } else {
            voxel_at(v, node_size, q)
        },
    decreases node_size,
{
    if node_size <= target {
    } else {
        let ns1 = (node_size - 1) as nat;
        let oct_p = octant_at(p, ns1);
        let oct_q = octant_at(q, ns1);
        assert(0 <= oct_p < 8 && 0 <= oct_q < 8);
        match v {
            OctreeView::Voxel(w) => {
                if oct_q == oct_p {
                    lemma_set_spec_voxel_at(OctreeView::Voxel(w), ns1, p, target, vox, q);
                    assert(crate::position::same_cube(p, q, target, node_size)
                        <==> crate::position::same_cube(p, q, target, ns1)) by {
                        if crate::position::same_cube(p, q, target, ns1) {
                            assert forall|k: nat| target <= k < node_size implies octant_at(p, k)
                                == octant_at(q, k) by {
                                if k < ns1 {
                                    assert(octant_at(p, k) == octant_at(q, k));
                                }
                            }
                        }
                    }
                } else {
                    assert(!crate::position::same_cube(p, q, target, node_size));
                    assert(voxel_at(v, node_size, q) == w);
                    let s = set_spec(v, node_size, p, target, vox);
                    assert(s->Childs_0[oct_q] == OctreeView::Voxel(w));
                    assert(voxel_at(OctreeView::Voxel(w), ns1, q) == w);
                    assert(voxel_at(s, node_size, q) == w);
                }
            },
            OctreeView::Childs(cs) => {
                if oct_q == oct_p {
                    lemma_set_spec_voxel_at(cs[oct_p], ns1, p, target, vox, q);
                    assert(crate::position::same_cube(p, q, target, node_size)
                        <==> crate::position::same_cube(p, q, target, ns1)) by {
                        if crate::position::same_cube(p, q, target, ns1) {
                            assert forall|k: nat| target <= k < node_size implies octant_at(p, k)
                                == octant_at(q, k) by {
                                if k < ns1 {
                                    assert(octant_at(p, k) == octant_at(q, k));
                                }
                            }
                        }
                    }
                } else {
                    assert(!crate::position::same_cube(p, q, target, node_size));
                    let s = set_spec(v, node_size, p, target, vox);
                    assert(s->Childs_0[oct_q] == cs[oct_q]);
                    assert(voxel_at(s, node_size, q) == voxel_at(cs[oct_q], ns1, q));
                    assert(voxel_at(v, node_size, q) == voxel_at(cs[oct_q], ns1, q));
                }
            },
        }
    }
}

impl Octree {
    /// The recursive body of `set_voxel`, once the size has been checked.
    fn set_voxel_at(&mut self, pos: OctreePosition, size: u8, voxel: Voxel)
        requires
            old(self).well_formed(),
            size <= old(self).size,
        ensures
            final(self).size == old(self).size,
            final(self).well_formed(),
            final(self)@ == set_spec(old(self)@, old(self).size as nat, pos, size as nat, voxel),
        decreases old(self).size,
    {
        if self.size == size {
            self.content = OctreeContent::Voxel(voxel);
            return ;
        }
        let ghost old_self = *self;
        let child_size = self.size - 1;
        let idx = pos.get_child_indice(child_size);
        let ghost oct = octant_at(pos, child_size as nat);
        let mut content = OctreeContent::Voxel(Voxel::Empty);
        core::mem::swap(&mut content, &mut self.content);
        match content {
            OctreeContent::Voxel(w) => {
                let mut cs: Vec<Octree> = Vec::new();
                let mut i: usize = 0;
                while i < 8
                    invariant
                        i <= 8,
                        cs@.len() == i,
                        child_size <= 62,
                        forall|j: int|
                            0 <= j < i ==> #[trigger] cs@[j] == (Octree {
                                size: child_size,
                                content: OctreeContent::Voxel(w),
                            }),
                    decreases 8 - i,
                {
                    cs.push(Octree::new(child_size, Some(w)));
                    i += 1;
                }
                let mut c = Octree::new(child_size, Some(w));
                c.set_voxel_at(pos, size, voxel);
                cs[idx] = c;
                self.content = OctreeContent::Childs(cs);
                proof {
                    assert forall|j: int| 0 <= j < 8 implies views_of(cs@)[j] == set_spec(
                        old_self@,
                        old_self.size as nat,
                        pos,
                        size as nat,
                        voxel,
                    )->Childs_0[j] by {
                        if j != oct {
                            assert(cs@[j] == (Octree {
                                size: child_size,
                                content: OctreeContent::Voxel(w),
                            }));
                        }
                    }
                    assert(views_of(cs@) =~= set_spec(
                        old_self@,
                        old_self.size as nat,
                        pos,
                        size as nat,
                        voxel,
                    )->Childs_0);
                    assert(self.well_formed());
                }
            },
            OctreeContent::Childs(mut cs) => {
                let ghost old_cs = cs@;
                let mut c = cs.remove(idx);
                c.set_voxel_at(pos, size, voxel);
                cs.insert(idx, c);
                self.content = OctreeContent::Childs(cs);
                proof {
                    assert(cs@ =~= old_cs.update(
                        oct,
                        cs@[oct],
                    ));
                    assert forall|j: int| 0 <= j < 8 implies views_of(cs@)[j] == set_spec(
                        old_self@,
                        old_self.size as nat,
                        pos,
                        size as nat,
                        voxel,
                    )->Childs_0[j] by {
                        assert(views_of(old_cs)[j] == old_cs[j]@);
                    }
                    assert(views_of(cs@) =~= set_spec(
                        old_self@,
                        old_self.size as nat,
                        pos,
                        size as nat,
                        voxel,
                    )->Childs_0);
                    assert(self.well_formed());
                }
            },
        }
    }

    /// Write one voxel over the whole cube of the given size that contains
    /// `pos`: a coarser leaf on the way is split until the cube exists, and
    /// whatever subtree stood at the cube is replaced outright.
    pub fn set_voxel(&mut self, pos: OctreePosition, size: u8, voxel: Voxel) -> (r: Result<
        (),
        OctreeError,
    >)
        requires
            old(self).well_formed(),
        ensures
            r is Ok <==> size <= old(self).size,
            r is Err ==> (r matches Err(e) && e == OctreeError::SizeLargerThanOctree && *final(self)
                == *old(self)),
            r is Ok ==> final(self).size == old(self).size && final(self).well_formed()
                && final(self)@ == set_spec(old(self)@, old(self).size as nat, pos, size as nat, voxel),
    {
        if size > self.size {
            return Err(OctreeError::SizeLargerThanOctree);
        }
        self.set_voxel_at(pos, size, voxel);
        Ok(())
    }
}

/// Eight equal leaves: the shape that a merge collapses into its parent.
pub open spec fn uniform_leaves(cs: Seq<OctreeView>) -> bool {
    cs.len() == 8 && (cs[0] matches OctreeView::Voxel(_)) && (forall|i: int|
        0 <= i < 8 ==> #[trigger] cs[i] == cs[0])
}

/// No branch anywhere in the tree could still be merged.
pub open spec fn canonical(v: OctreeView) -> bool
    decreases v,
{
    match v {
        OctreeView::Voxel(_) => true,
        OctreeView::Childs(cs) => !uniform_leaves(cs) && forall|i: int|
            0 <= i < cs.len() ==> canonical(#[trigger] cs[i]),
    }
}

/// The views of a run of siblings after each has been optimized.
pub open spec fn optimize_children(cs: Seq<OctreeView>) -> Seq<OctreeView>
    decreases cs,
{
    Seq::new(
        cs.len(),
        |i: int|
            if 0 <= i < cs.len() {
                optimize_spec(cs[i])
            } else {
                OctreeView::Voxel(Voxel::Empty)
            },
    )
}

/// The view `optimize` leaves behind: children are optimized first, and a
/// branch whose eight children came out as equal leaves becomes that leaf.
pub open spec fn optimize_spec(v: OctreeView) -> OctreeView
    decreases v,
{
    match v {
        OctreeView::Voxel(_) => v,
        OctreeView::Childs(cs) => {
            let cs2 = optimize_children(cs);
            if uniform_leaves(cs2) {
                cs2[0]
            } else {
                OctreeView::Childs(cs2)
            }
        },
    }
}

/// Optimizing merges homogeneous branches and never changes a voxel: every
/// position reads afterwards exactly what it read before.
pub proof fn lemma_optimize_voxels(v: OctreeView, size: nat, q: OctreePosition)
    requires
        wf_view(v),
    ensures
        wf_view(optimize_spec(v)),
        voxel_at(optimize_spec(v), size, q) == voxel_at(v, size, q),
    decreases v,
{
    match v {
        OctreeView::Voxel(_) => {},
        OctreeView::Childs(cs) => {
            let ns1 = (size - 1) as nat;
            let o = octant_at(q, ns1);
            assert(0 <= o < 8);
            let cs2 = optimize_children(cs);
            lemma_optimize_voxels(cs[o], ns1, q);
            assert forall|i: int| 0 <= i < 8 implies wf_view(#[trigger] cs2[i]) by {
                lemma_optimize_voxels(cs[i], ns1, q);
            }
            assert(voxel_at(v, size, q) == voxel_at(cs[o], ns1, q));
            if uniform_leaves(cs2) {
                assert(cs2[o] == cs2[0]);
                match cs2[0] {
                    OctreeView::Voxel(w) => {
                        assert(voxel_at(cs2[0], size, q) == w);
                        assert(voxel_at(cs2[o], ns1, q) == w);
                    },
                    OctreeView::Childs(_) => {},
                }
            } else {
                assert(voxel_at(OctreeView::Childs(cs2), size, q) == voxel_at(cs2[o], ns1, q));
            }
        },
    }
}

/// Optimizing is idempotent: a second pass finds nothing left to merge and
/// returns the tree of the first pass unchanged.
pub proof fn lemma_optimize_idempotent(v: OctreeView)
    ensures
        optimize_spec(optimize_spec(v)) == optimize_spec(v),
    decreases v,
{
    match v {
        OctreeView::Voxel(_) => {},
        OctreeView::Childs(cs) => {
            let cs2 = optimize_children(cs);
            assert forall|i: int| 0 <= i < cs.len() implies #[trigger] optimize_spec(cs2[i])
                == cs2[i] by {
                lemma_optimize_idempotent(cs[i]);
            }
            if uniform_leaves(cs2) {
            } else {
                assert forall|i: int| 0 <= i < cs2.len() implies #[trigger] optimize_children(
                    cs2,
                )[i] == cs2[i] by {
                    assert(optimize_children(cs2)[i] == optimize_spec(cs2[i]));
                }
                assert(optimize_children(cs2) =~= cs2);
            }
        },
    }
}

/// After one `optimize` pass the tree is canonical: no branch of eight equal
/// leaves survives anywhere, so in particular a size-1 parent of equal
/// leaves has become a single leaf.
pub proof fn lemma_optimize_canonical(v: OctreeView)
    ensures
        canonical(optimize_spec(v)),
    decreases v,
{
    match v {
        OctreeView::Voxel(_) => {},
        OctreeView::Childs(cs) => {
            let cs2 = optimize_children(cs);
            assert forall|i: int| 0 <= i < cs2.len() implies canonical(#[trigger] cs2[i]) by {
                lemma_optimize_canonical(cs[i]);
            }
        },
    }
}

impl Octree {
    /// Merge, throughout the tree, every branch whose eight children hold
    /// one and the same voxel, so that homogeneous regions are stored as
    /// single leaves again.
    pub fn optimize(&mut self)
        requires
            old(self).well_formed(),
        ensures
            final(self).size == old(self).size,
            final(self).well_formed(),
            final(self)@ == optimize_spec(old(self)@),
        decreases old(self).size,
    {
        let ghost old_self = *self;
        let mut content = OctreeContent::Voxel(Voxel::Empty);
        core::mem::swap(&mut content, &mut self.content);
        match content {
            OctreeContent::Voxel(v) => {
                self.content = OctreeContent::Voxel(v);
            },
            OctreeContent::Childs(mut cs) => {
                let ghost orig = cs@;
                let mut i: usize = 0;
                while i < 8
                    invariant
                        i <= 8,
                        cs@.len() == 8,
                        orig.len() == 8,
                        old_self == *old(self),
                        old_self.size >= 1,
                        forall|j: int|
                            0 <= j < 8 ==> (#[trigger] orig[j]).size == old_self.size - 1
                                && orig[j].well_formed(),
                        forall|j: int|
                            i <= j < 8 ==> #[trigger] cs@[j] == orig[j],
                        forall|j: int|
                            0 <= j < i ==> (#[trigger] cs@[j]).size == old_self.size - 1
                                && cs@[j].well_formed() && cs@[j]@ == optimize_spec(orig[j]@),
                    decreases 8 - i,
                {
                    let mut c = cs.remove(i);
                    proof {
                        assert(c == orig[i as int]);
                        assert(c.size < old(self).size);
                    }
                    c.optimize();
                    cs.insert(i, c);
                    i += 1;
                }
                let mut uniform = false;
                let mut w0 = Voxel::Empty;
                match &cs[0].content {
                    OctreeContent::Voxel(w) => {
                        uniform = true;
                        w0 = *w;
                    },
                    OctreeContent::Childs(_) => {},
                }
                if uniform {
                    let mut j: usize = 1;
                    while j < 8
                        invariant
                            1 <= j <= 8,
                            cs@.len() == 8,
                            cs@[0].content == OctreeContent::Voxel(w0),
                            uniform <==> forall|m: int|
                                0 <= m < j ==> (#[trigger] cs@[m]).content
                                    == OctreeContent::Voxel(w0),
                        decreases 8 - j,
                    {
                        match &cs[j].content {
                            OctreeContent::Voxel(w) => {
                                if *w != w0 {
                                    uniform = false;
                                }
                            },
                            OctreeContent::Childs(_) => {
                                uniform = false;
                            },
                        }
                        j += 1;
                    }
                }
                proof {
                    assert(old_self@ == OctreeView::Childs(views_of(orig)));
                    let cs2 = optimize_children(views_of(orig));
                    assert(views_of(cs@) =~= cs2);
                    assert(uniform <==> uniform_leaves(cs2)) by {
                        if uniform {
                            assert forall|m: int| 0 <= m < 8 implies #[trigger] cs2[m]
                                == cs2[0] by {
                                assert(cs@[m].content == OctreeContent::Voxel(w0));
                                assert(cs2[m] == cs@[m]@);
                            }
                            assert(cs2[0] == cs@[0]@);
                            assert(cs@[0]@ == OctreeView::Voxel(w0));
                        } else {
                            if uniform_leaves(cs2) {
                                assert forall|m: int| 0 <= m < 8 implies (#[trigger] cs@[m]).content
                                    == OctreeContent::Voxel(w0) by {
                                    assert(cs2[m] == cs2[0]);
                                    assert(cs@[m]@ == cs@[0]@);
                                    match cs@[m].content {
                                        OctreeContent::Voxel(u) => {
                                            assert(cs@[0]@ == OctreeView::Voxel(u));
                                            match cs@[0].content {
                                                OctreeContent::Voxel(u0) => {},
                                                OctreeContent::Childs(_) => {
                                                    assert(false);
                                                },
                                            }
                                        },
                                        OctreeContent::Childs(_) => {
                                            assert(cs@[m]@ matches OctreeView::Childs(_));
                                            assert(false);
                                        },
                                    }
                                }
                                assert(false);
                            }
                        }
                    }
                }
                if uniform {
                    self.content = OctreeContent::Voxel(w0);
                } else {
                    self.content = OctreeContent::Childs(cs);
                }
            },
        }
    }
}

impl Clone for Octree {
    /// A deep copy: the clone has the same size and the same view.
    fn clone(&self) -> (r: Self)
        ensures
            r.size == self.size,
            r@ == self@,
            self.well_formed() ==> r.well_formed(),
        decreases *self,
    {
        match &self.content {
            OctreeContent::Voxel(v) => Octree { size: self.size, content: OctreeContent::Voxel(*v) },
            OctreeContent::Childs(cs) => {
                let mut copies: Vec<Octree> = Vec::new();
                let mut i: usize = 0;
                while i < cs.len()
                    invariant
                        i <= cs@.len(),
                        copies@.len() == i,
                        forall|j: int|
                            0 <= j < i ==> (#[trigger] copies@[j]).size == cs@[j].size
                                && copies@[j]@ == cs@[j]@
                                && (cs@[j].well_formed() ==> copies@[j].well_formed()),
                        *self == (Octree { size: self.size, content: OctreeContent::Childs(*cs) }),
                    decreases cs@.len() - i,
                {
                    proof {
                        assert(decreases_to!(*self => self.content));
                        assert(*cs == self.content->Childs_0);
                        assert(decreases_to!(self.content => self.content->Childs_0));
                        assert(decreases_to!(*cs => cs@));
                        assert(decreases_to!(cs@ => cs@[i as int]));
                    }
                    let c = cs[i].clone();
                    copies.push(c);
                    i += 1;
                }
                let r = Octree { size: self.size, content: OctreeContent::Childs(copies) };
                proof {
                    assert(views_of(copies@) =~= views_of(cs@));
                }
                r
            },
        }
    }
}



impl Octree {
    /// Descend mutably towards `p` until reaching `min_size` or a leaf.
    fn find_cube_mut(&mut self, pos: OctreePosition, min_size: u8) -> (r: &mut Octree)
        requires
            old(self).well_formed(),
            min_size <= old(self).size,
        ensures
            *r == spec_get_cube(*old(self), pos, min_size),
            spec_get_cube(*old(self), pos, min_size).size == old(self).size ==> *final(self)
                == *final(r),
            spec_get_cube(*old(self), pos, min_size).size < old(self).size ==> final(self).size
                == old(self).size,
            final(r).size == spec_get_cube(*old(self), pos, min_size).size
                && final(r).well_formed() ==> final(self).well_formed(),
            forall|q: OctreePosition| #[trigger]
                voxel_at(final(self)@, old(self).size as nat, q) == (
            if crate::position::same_cube(
                pos,
                q,
                spec_get_cube(*old(self), pos, min_size).size as nat,
                old(self).size as nat,
            ) {
                voxel_at(final(r)@, spec_get_cube(*old(self), pos, min_size).size as nat, q)
            } else {
                voxel_at(old(self)@, old(self).size as nat, q)
            }),
        decreases old(self).size,
    {
        let is_leaf = match &self.content {
            OctreeContent::Voxel(_) => true,
            OctreeContent::Childs(_) => false,
        };
        if min_size == self.size || is_leaf {
            return self;
        }
        let ghost old_self = *self;
        let idx = pos.get_child_indice(self.size - 1);
        let ghost oct = octant_at(pos, (self.size - 1) as nat);
        proof {
            let oc = old_self.content->Childs_0@[idx as int];
            lemma_get_cube_shape(oc, pos, min_size);
            assert(spec_get_cube(old_self, pos, min_size) == spec_get_cube(oc, pos, min_size));
        }
        match &mut self.content {
            OctreeContent::Childs(cs) => {
                let ghost old_cs = cs@;
                let c = &mut cs[idx];
                let r = c.find_cube_mut(pos, min_size);
                proof {
                    let oc = old_self.content->Childs_0@[idx as int];
                    let found = spec_get_cube(oc, pos, min_size);
                    let fc = after_borrow(*c);
                    let fcs = after_borrow(*cs);
                    let fself = after_borrow(*self);
                    assert(fcs@ == old_cs.update(idx as int, fc));
                    assert(fself.size == old_self.size);
                    assert(fself.content == OctreeContent::Childs(fcs));
                    if final(r).size == found.size && final(r).well_formed() {
                        assert(fc.size == oc.size && fc.well_formed());
                        assert forall|j: int|
                            0 <= j < 8 implies (#[trigger] fcs@[j]).size == old_self.size - 1
                            && fcs@[j].well_formed() by {
                            if j != idx {
                                assert(fcs@[j] == old_cs[j]);
                            }
                        }
                        assert(fself.well_formed());
                    }
                    assert forall|q: OctreePosition| #[trigger]
                        voxel_at(fself@, old_self.size as nat, q) == (
                    if crate::position::same_cube(pos, q, found.size as nat, old_self.size as nat) {
                        voxel_at(final(r)@, found.size as nat, q)
                    } else {
                        voxel_at(old_self@, old_self.size as nat, q)
                    }) by {
                        let oq = octant_at(q, (old_self.size - 1) as nat);
                        assert(0 <= oq < 8);
                        assert(views_of(fcs@)[oq] == fcs@[oq]@);
                        assert(views_of(old_self.content->Childs_0@)[oq]
                            == old_self.content->Childs_0@[oq]@);
                        assert(voxel_at(fself@, old_self.size as nat, q) == voxel_at(
                            fcs@[oq]@,
                            (old_self.size - 1) as nat,
                            q,
                        ));
                        if oq == oct {
                            assert(fcs@[oq] == fc);
                            assert(crate::position::same_cube(
                                pos,
                                q,
                                found.size as nat,
                                old_self.size as nat,
                            ) <==> crate::position::same_cube(
                                pos,
                                q,
                                found.size as nat,
                                (old_self.size - 1) as nat,
                            )) by {
                                if crate::position::same_cube(
                                    pos,
                                    q,
                                    found.size as nat,
                                    (old_self.size - 1) as nat,
                                ) {
                                    assert forall|k: nat|
                                        found.size as nat <= k < old_self.size as nat implies octant_at(
                                        pos,
                                        k,
                                    ) == octant_at(q, k) by {
                                        if k < (old_self.size - 1) as nat {
                                            assert(octant_at(pos, k) == octant_at(q, k));
                                        }
                                    }
                                }
                            }
                        } else {
                            assert(fcs@[oq] == old_cs[oq]);
                            assert(!crate::position::same_cube(
                                pos,
                                q,
                                found.size as nat,
                                old_self.size as nat,
                            ));
                            assert(voxel_at(old_self@, old_self.size as nat, q) == voxel_at(
                                old_cs[oq]@,
                                (old_self.size - 1) as nat,
                                q,
                            ));
                        }
                    }
                }
                r
            },
            OctreeContent::Voxel(_) => vstd::pervasive::unreached(),
        }
    }

    /// The sub-cube that contains `pos`, descending no deeper than
    /// `min_size`, borrowed for writing.  Whatever the caller then makes
    /// of the cube, every position outside it keeps its voxel, and the
    /// tree stays well-formed as long as the cube is put back well-formed
    /// and of its own size.
    pub fn get_cube_mut(&mut self, pos: OctreePosition, min_size: u8) -> (r: Result<
        &mut Octree,
        OctreeError,
    >)
        requires
            old(self).well_formed(),
        ensures
            min_size > old(self).size ==> (r matches Err(e) && e
                == OctreeError::SizeLargerThanOctree && *final(self) == *old(self)),
            min_size <= old(self).size ==> (r matches Ok(c) && *c == spec_get_cube(
                *old(self),
                pos,
                min_size,
            ) && (spec_get_cube(*old(self), pos, min_size).size == old(self).size ==> *final(self)
                == *final(c)) && (spec_get_cube(*old(self), pos, min_size).size < old(self).size
                ==> final(self).size == old(self).size) && (final(c).size == spec_get_cube(
                *old(self),
                pos,
                min_size,
            ).size && final(c).well_formed() ==> final(self).well_formed()) && (forall|
                q: OctreePosition,
            | #[trigger]
                voxel_at(final(self)@, old(self).size as nat, q) == (
            if crate::position::same_cube(
                pos,
                q,
                spec_get_cube(*old(self), pos, min_size).size as nat,
                old(self).size as nat,
            ) {
                voxel_at(final(c)@, spec_get_cube(*old(self), pos, min_size).size as nat, q)
            } else {
                voxel_at(old(self)@, old(self).size as nat, q)
            }))),
    {
        if min_size > self.size {
            return Err(OctreeError::SizeLargerThanOctree);
        }
        Ok(self.find_cube_mut(pos, min_size))
    }
}

} // verus!
