//! The chunk streaming scheduler: per-coordinate lifecycle records, the
//! reconciliation tick that decides which chunks must exist around a
//! viewpoint, and the hand-over of finished background generations.

use vstd::prelude::*;

use crate::octree::Octree;

verus! {

/// A chunk's coordinate, in whole chunks.
#[derive(Debug, Clone, Copy, PartialEq, Eq, Structural)]
pub struct ChunkCoord {
    pub x: i64,
    pub y: i64,
    pub z: i64,
}

/// A generated chunk: its octree and the coordinate it fills.
#[derive(Debug)]
pub struct Chunk {
    pub octree: Octree,
    pub position: ChunkCoord,
}

/// Where a chunk record stands in its life.
#[derive(Debug, Clone, Copy, PartialEq, Eq, Structural)]
pub enum ChunkLoadingStatus {
    GenerationRequested(ChunkCoord),
    Loaded,
    DestructionRequested,
}

/// One chunk the scheduler tracks: its status, whether a background
/// generation runs for it, and its data once generated.
pub struct ChunkRecord {
    pub status: ChunkLoadingStatus,
    pub has_task: bool,
    pub chunk: Option<Chunk>,
}

impl ChunkRecord {
    /// The coordinate this record accounts for, where one is known.
    pub open spec fn coord(self) -> Option<ChunkCoord> {
        match self.status {
            ChunkLoadingStatus::GenerationRequested(c) => Some(c),
            _ => match self.chunk {
                Some(ch) => Some(ch.position),
                None => None,
            },
        }
    }

    /// The record still holds its place: it is not marked for destruction.
    pub open spec fn active(self) -> bool {
        !(self.status is DestructionRequested)
    }

    /// The record accounts for coordinate `c`.
    pub open spec fn covers(self, c: ChunkCoord) -> bool {
        self.active() && self.coord() == Some(c)
    }
}

/// Some record accounts for coordinate `c`.
pub open spec fn covered(rs: Seq<ChunkRecord>, c: ChunkCoord) -> bool {
    exists|i: int| 0 <= i < rs.len() && (#[trigger] rs[i]).covers(c)
}

/// No two records account for the same coordinate.
pub open spec fn records_distinct(rs: Seq<ChunkRecord>) -> bool {
    forall|i: int, j: int|
        0 <= i < rs.len() && 0 <= j < rs.len() && i != j && (#[trigger] rs[i]).active()
            && (#[trigger] rs[j]).active() && rs[i].coord() is Some ==> rs[i].coord()
            != rs[j].coord()
}

/// A coordinate small enough that offsets around it stay in range.
pub open spec fn coord_bounded(c: ChunkCoord) -> bool {
    &&& -0x2000_0000_0000_0000 <= c.x <= 0x2000_0000_0000_0000
    &&& -0x2000_0000_0000_0000 <= c.y <= 0x2000_0000_0000_0000
    &&& -0x2000_0000_0000_0000 <= c.z <= 0x2000_0000_0000_0000
}

/// What the reconciliation tick leaves of an existing record: one whose
/// coordinate has left the active cube is marked for destruction, the
/// rest stay as they are.
pub open spec fn evicted(
    r: ChunkRecord,
    generator: ChunkGenerator,
    player: ChunkCoord,
) -> ChunkRecord {
    if r.active() && (match r.coord() {
        Some(c) => !generator.in_radius(player, c),
        None => false,
    }) {
        ChunkRecord { status: ChunkLoadingStatus::DestructionRequested, ..r }
    } else {
        r
    }
}

/// The streaming configuration: the edge length, in chunks, of the cube
/// of chunks kept loaded around the viewpoint.
#[derive(Debug)]
pub struct ChunkGenerator {
    pub render_cube_size: u32,
}

impl ChunkGenerator {
    /// The half-open range of chunk offsets, per axis, that the active
    /// cube spans around the viewpoint.
    pub open spec fn spec_lo(self) -> int {
        -((self.render_cube_size as int) / 2)
    }

    /// The end of the offset range: for an odd cube one more chunk lies
    /// on the positive side.
    pub open spec fn spec_hi(self) -> int {
        (self.render_cube_size as int) / 2 + (self.render_cube_size as int) % 2
    }

    /// `pos` lies inside the active cube around `player`.
    pub open spec fn in_radius(self, player: ChunkCoord, pos: ChunkCoord) -> bool {
        &&& self.spec_lo() <= pos.x - player.x < self.spec_hi()
        &&& self.spec_lo() <= pos.y - player.y < self.spec_hi()
        &&& self.spec_lo() <= pos.z - player.z < self.spec_hi()
    }

    /// The offset range as a pair of bounds.
    pub fn relative_pos_range(&self) -> (r: (i64, i64))
        ensures
            r.0 == self.spec_lo(),
            r.1 == self.spec_hi(),
    {
        let n = self.render_cube_size as i64;
        (-(n / 2), n / 2 + n % 2)
    }

    /// Whether a chunk coordinate lies inside the active cube.
    pub fn chunk_is_in_loading_radius(&self, player: ChunkCoord, chunk_pos: ChunkCoord) -> (r:
        bool)
        requires
            coord_bounded(player),
            coord_bounded(chunk_pos),
        ensures
            r == self.in_radius(player, chunk_pos),
    {
        let (lo, hi) = self.relative_pos_range();
        let dx = chunk_pos.x - player.x;
        let dy = chunk_pos.y - player.y;
        let dz = chunk_pos.z - player.z;
        lo <= dx && dx < hi && lo <= dy && dy < hi && lo <= dz && dz < hi
    }
}

/// Whether some record accounts for coordinate `c`.
fn covered_exec(records: &Vec<ChunkRecord>, c: ChunkCoord) -> (r: bool)
    ensures
        r == covered(records@, c),
{
    let mut i: usize = 0;
    while i < records.len()
        invariant
            i <= records@.len(),
            forall|m: int| 0 <= m < i ==> !(#[trigger] records@[m]).covers(c),
        decreases records@.len() - i,
    {
        let rec = &records[i];
        let active = match rec.status {
            ChunkLoadingStatus::DestructionRequested => false,
            _ => true,
        };
        if active {
            let coord: Option<ChunkCoord> = match rec.status {
                ChunkLoadingStatus::GenerationRequested(cc) => Some(cc),
                _ => match &rec.chunk {
                    Some(ch) => Some(ch.position),
                    None => None,
                },
            };
            match coord {
                Some(cc) => {
                    if cc.x == c.x && cc.y == c.y && cc.z == c.z {
                        proof {
                            assert(records@[i as int].covers(c));
                        }
                        return true;
                    }
                },
                None => {},
            }
        }
        i += 1;
    }
    false
}


/// One reconciliation tick.  Every tracked chunk whose coordinate has left
/// the active cube around the viewpoint is marked for destruction, and a
/// fresh generation request is spawned for every coordinate of the cube
/// that no record accounts for yet — never a second one for a coordinate
/// already tracked.
pub fn chunk_generator_system(
    generator: &ChunkGenerator,
    player_pos: ChunkCoord,
    records: &mut Vec<ChunkRecord>,
)
    requires
        records_distinct(old(records)@),
        coord_bounded(player_pos),
        forall|i: int|
            0 <= i < old(records)@.len() ==> (match (#[trigger] old(records)@[i]).coord() {
                Some(c) => coord_bounded(c),
                None => true,
            }),
    ensures
        final(records)@.len() >= old(records)@.len(),
        forall|i: int|
            0 <= i < old(records)@.len() ==> #[trigger] final(records)@[i] == evicted(
                old(records)@[i],
                *generator,
                player_pos,
            ),
        forall|i: int|
            old(records)@.len() <= i < final(records)@.len() ==> ((#[trigger] final(records)@[i]).has_task == false
                && final(records)@[i].chunk is None
                && (final(records)@[i].status matches ChunkLoadingStatus::GenerationRequested(c)
                && generator.in_radius(player_pos, c) && !covered(old(records)@, c))),
        forall|c: ChunkCoord| #[trigger]
            generator.in_radius(player_pos, c) ==> covered(final(records)@, c),
        records_distinct(final(records)@),
        (forall|c: ChunkCoord| #[trigger]
            generator.in_radius(player_pos, c) ==> covered(old(records)@, c)) ==> final(records)@.len() == old(records)@.len(),
{
    let ghost old_rs = records@;
    let mut i: usize = 0;
    while i < records.len()
        invariant
            i <= records@.len(),
            records@.len() == old_rs.len(),
            old_rs == old(records)@,
            records_distinct(old_rs),
            coord_bounded(player_pos),
            forall|m: int|
                0 <= m < old_rs.len() ==> (match (#[trigger] old_rs[m]).coord() {
                    Some(c) => coord_bounded(c),
                    None => true,
                }),
            forall|m: int|
                0 <= m < i ==> #[trigger] records@[m] == evicted(old_rs[m], *generator, player_pos),
            forall|m: int| i <= m < old_rs.len() ==> #[trigger] records@[m] == old_rs[m],
        decreases records@.len() - i,
    {
        let rec = &records[i];
        let active = match rec.status {
            ChunkLoadingStatus::DestructionRequested => false,
            _ => true,
        };
        let coord_opt: Option<ChunkCoord> = match rec.status {
            ChunkLoadingStatus::GenerationRequested(cc) => Some(cc),
            _ => match &rec.chunk {
                Some(ch) => Some(ch.position),
                None => None,
            },
        };
        if active {
            match coord_opt {
                Some(c) => {
                    proof {
                        assert(records@[i as int].coord() == Some(c));
                    }
                    if !generator.chunk_is_in_loading_radius(player_pos, c) {
                        let ghost before = records@;
                        let mut r = records.remove(i);
                        r.status = ChunkLoadingStatus::DestructionRequested;
                        records.insert(i, r);
                        proof {
                            assert(records@ =~= before.update(i as int, records@[i as int]));
                            assert(records@[i as int] == evicted(
                                old_rs[i as int],
                                *generator,
                                player_pos,
                            ));
                        }
                    }
                },
                None => {},
            }
        }
        i += 1;
    }
    let ghost evicted_rs = records@;
    proof {
        assert forall|c: ChunkCoord| covered(evicted_rs, c) implies covered(old_rs, c) by {
            let w = choose|w: int| 0 <= w < evicted_rs.len() && (#[trigger] evicted_rs[w]).covers(
                c,
            );
            assert(old_rs[w].covers(c));
        }
        assert forall|c: ChunkCoord|
            generator.in_radius(player_pos, c) && covered(old_rs, c) implies covered(
            evicted_rs,
            c,
        ) by {
            let w = choose|w: int| 0 <= w < old_rs.len() && (#[trigger] old_rs[w]).covers(c);
            assert(evicted_rs[w] == evicted(old_rs[w], *generator, player_pos));
            assert(evicted_rs[w].covers(c));
        }
        assert(records_distinct(evicted_rs)) by {
            assert forall|a: int, b: int|
                0 <= a < evicted_rs.len() && 0 <= b < evicted_rs.len() && a != b && (
                #[trigger] evicted_rs[a]).active() && (#[trigger] evicted_rs[b]).active()
                    && evicted_rs[a].coord() is Some implies evicted_rs[a].coord()
                != evicted_rs[b].coord() by {
                assert(evicted_rs[a] == evicted(old_rs[a], *generator, player_pos));
                assert(evicted_rs[b] == evicted(old_rs[b], *generator, player_pos));
                assert(old_rs[a].active() && old_rs[b].active());
                assert(old_rs[a].coord() == evicted_rs[a].coord());
                assert(old_rs[b].coord() == evicted_rs[b].coord());
            }
        }
    }
    let (lo, hi) = generator.relative_pos_range();
    let mut dx: i64 = lo;
    while dx < hi
        invariant
            lo <= dx <= hi || (lo >= hi && dx == lo),
            lo == generator.spec_lo(),
            hi == generator.spec_hi(),
            coord_bounded(player_pos),
            old_rs == old(records)@,
            evicted_rs.len() == old_rs.len(),
            records@.len() >= old_rs.len(),
            forall|m: int| 0 <= m < old_rs.len() ==> #[trigger] records@[m] == evicted_rs[m],
            forall|m: int|
                0 <= m < old_rs.len() ==> #[trigger] evicted_rs[m] == evicted(
                    old_rs[m],
                    *generator,
                    player_pos,
                ),
            forall|i: int|
                old_rs.len() <= i < records@.len() ==> ((#[trigger] records@[i]).has_task == false
                    && records@[i].chunk is None && (records@[i].status matches ChunkLoadingStatus::GenerationRequested(c)
                    && generator.in_radius(player_pos, c) && !covered(old_rs, c))),
            records_distinct(records@),
            forall|c: ChunkCoord|
                #[trigger] generator.in_radius(player_pos, c) && c.x - player_pos.x < dx
                    ==> covered(records@, c),
            (forall|c: ChunkCoord| #[trigger]
                generator.in_radius(player_pos, c) ==> covered(old_rs, c)) ==> records@.len()
                == old_rs.len(),
        decreases hi - dx,
    {
        let mut dy: i64 = lo;
        while dy < hi
            invariant
                lo <= dx < hi,
                lo <= dy <= hi,
                lo == generator.spec_lo(),
                hi == generator.spec_hi(),
                coord_bounded(player_pos),
                old_rs == old(records)@,
                evicted_rs.len() == old_rs.len(),
                records@.len() >= old_rs.len(),
                forall|m: int| 0 <= m < old_rs.len() ==> #[trigger] records@[m] == evicted_rs[m],
                forall|m: int|
                    0 <= m < old_rs.len() ==> #[trigger] evicted_rs[m] == evicted(
                        old_rs[m],
                        *generator,
                        player_pos,
                    ),
                forall|i: int|
                    old_rs.len() <= i < records@.len() ==> ((#[trigger] records@[i]).has_task
                        == false && records@[i].chunk is None && (records@[i].status matches ChunkLoadingStatus::GenerationRequested(c)
                        && generator.in_radius(player_pos, c) && !covered(old_rs, c))),
                records_distinct(records@),
                forall|c: ChunkCoord|
                    #[trigger] generator.in_radius(player_pos, c) && (c.x - player_pos.x < dx || (
                    c.x - player_pos.x == dx && c.y - player_pos.y < dy)) ==> covered(records@, c),
                (forall|c: ChunkCoord| #[trigger]
                    generator.in_radius(player_pos, c) ==> covered(old_rs, c)) ==> records@.len()
                    == old_rs.len(),
            decreases hi - dy,
        {
            let mut dz: i64 = lo;
            while dz < hi
                invariant
                    lo <= dx < hi,
                    lo <= dy < hi,
                    lo <= dz <= hi,
                    lo == generator.spec_lo(),
                    hi == generator.spec_hi(),
                    coord_bounded(player_pos),
                    old_rs == old(records)@,
                    evicted_rs.len() == old_rs.len(),
                    records@.len() >= old_rs.len(),
                    forall|m: int|
                        0 <= m < old_rs.len() ==> #[trigger] records@[m] == evicted_rs[m],
                    forall|m: int|
                        0 <= m < old_rs.len() ==> #[trigger] evicted_rs[m] == evicted(
                            old_rs[m],
                            *generator,
                            player_pos,
                        ),
                    forall|i: int|
                        old_rs.len() <= i < records@.len() ==> ((#[trigger] records@[i]).has_task
                            == false && records@[i].chunk is None && (records@[i].status matches ChunkLoadingStatus::GenerationRequested(c)
                            && generator.in_radius(player_pos, c) && !covered(old_rs, c))),
                    records_distinct(records@),
                    forall|c: ChunkCoord|
                        #[trigger] generator.in_radius(player_pos, c) && (c.x - player_pos.x < dx
                            || (c.x - player_pos.x == dx && c.y - player_pos.y < dy) || (c.x
                            - player_pos.x == dx && c.y - player_pos.y == dy && c.z - player_pos.z
                            < dz)) ==> covered(records@, c),
                    (forall|c: ChunkCoord| #[trigger]
                        generator.in_radius(player_pos, c) ==> covered(old_rs, c))
                        ==> records@.len() == old_rs.len(),
                decreases hi - dz,
            {
                let ghost rs_before = records@;
                let c = ChunkCoord {
                    x: player_pos.x + dx,
                    y: player_pos.y + dy,
                    z: player_pos.z + dz,
                };
                if !covered_exec(records, c) {
                    proof {
                        assert(generator.in_radius(player_pos, c));
                        if covered(old_rs, c) {
                            let w0 = choose|w0: int|
                                0 <= w0 < old_rs.len() && (#[trigger] old_rs[w0]).covers(c);
                            assert(evicted_rs[w0] == evicted(old_rs[w0], *generator, player_pos));
                            assert(evicted_rs[w0].covers(c));
                            assert(records@[w0].covers(c));
                            assert(false);
                        }
                    }
                    records.push(
                        ChunkRecord {
                            status: ChunkLoadingStatus::GenerationRequested(c),
                            has_task: false,
                            chunk: None,
                        },
                    );
                    proof {
                        assert forall|cc: ChunkCoord| covered(rs_before, cc) implies covered(
                            records@,
                            cc,
                        ) by {
                            let w = choose|w: int|
                                0 <= w < rs_before.len() && (#[trigger] rs_before[w]).covers(cc);
                            assert(records@[w].covers(cc));
                        }
                        assert(records@[records@.len() - 1].covers(c));
                        assert(records_distinct(records@)) by {
                            assert forall|a: int, b: int|
                                0 <= a < records@.len() && 0 <= b < records@.len() && a != b && (
                                #[trigger] records@[a]).active() && (
                                #[trigger] records@[b]).active() && records@[a].coord()
                                    is Some implies records@[a].coord() != records@[b].coord() by {
                                if a < records@.len() - 1 && b < records@.len() - 1 {
                                    assert(records@[a] == rs_before[a]);
                                    assert(records@[b] == rs_before[b]);
                                } else if b == records@.len() - 1 {
                                    assert(records@[b].coord() == Some(c));
                                    if records@[a].coord() == Some(c) {
                                        assert(rs_before[a].covers(c));
                                        assert(covered(rs_before, c));
                                        assert(false);
                                    }
                                } else {
                                    assert(records@[a].coord() == Some(c));
                                    if records@[b].coord() == Some(c) {
                                        assert(rs_before[b].covers(c));
                                        assert(covered(rs_before, c));
                                        assert(false);
                                    }
                                }
                            }
                        }
                    }
                } else {
                    proof {
                        assert(covered(records@, c));
                    }
                }
                proof {
                    assert(covered(records@, c));
                    assert forall|cc: ChunkCoord|
                        #[trigger] generator.in_radius(player_pos, cc) && (cc.x - player_pos.x < dx
                            || (cc.x - player_pos.x == dx && cc.y - player_pos.y < dy) || (cc.x
                            - player_pos.x == dx && cc.y - player_pos.y == dy && cc.z
                            - player_pos.z < dz + 1)) implies covered(records@, cc) by {
                        if cc.x - player_pos.x == dx && cc.y - player_pos.y == dy && cc.z
                            - player_pos.z == dz {
                            assert(cc == c);
                        } else {
                            assert(covered(rs_before, cc));
                            let w = choose|w: int|
                                0 <= w < rs_before.len() && (#[trigger] rs_before[w]).covers(cc);
                            assert(records@[w].covers(cc));
                        }
                    }
                }
                dz += 1;
            }
            dy += 1;
        }
        dx += 1;
    }
    proof {
        assert forall|c: ChunkCoord| #[trigger]
            generator.in_radius(player_pos, c) implies covered(records@, c) by {
            assert(c.x - player_pos.x < hi);
        }
        assert forall|i: int|
            old_rs.len() <= i < records@.len() implies ((#[trigger] records@[i]).has_task == false
                && records@[i].chunk is None
                && (records@[i].status matches ChunkLoadingStatus::GenerationRequested(c) && generator.in_radius(
                player_pos,
                c,
            ) && !covered(old(records)@, c))) by {}
    }
}

/// A requested chunk that still has no background generation running.
pub open spec fn needs_start(r: ChunkRecord) -> bool {
    (r.status matches ChunkLoadingStatus::GenerationRequested(_)) && !r.has_task
}

/// This record survives the destruction pass: it is not a destruction
/// candidate that already holds chunk data.
pub open spec fn kept_after_destroy(r: ChunkRecord) -> bool {
    !(r.status is DestructionRequested && r.chunk is Some)
}

/// Mark every requested chunk that has no background generation yet, and
/// hand back, in record order, which records to generate and the
/// coordinate each one is for.
pub fn chunk_generation_system_start_generation(records: &mut Vec<ChunkRecord>) -> (started: Vec<
    (usize, ChunkCoord),
>)
    ensures
        final(records)@.len() == old(records)@.len(),
        forall|i: int|
            0 <= i < old(records)@.len() ==> #[trigger] final(records)@[i] == (if needs_start(
                old(records)@[i],
            ) {
                ChunkRecord { has_task: true, ..old(records)@[i] }
            } else {
                old(records)@[i]
            }),
        forall|m: int|
            0 <= m < started@.len() ==> 0 <= (#[trigger] started@[m]).0 < old(records)@.len()
                && old(records)@[started@[m].0 as int].status
                == ChunkLoadingStatus::GenerationRequested(started@[m].1) && !old(
                records,
            )@[started@[m].0 as int].has_task,
        forall|i: int|
            0 <= i < old(records)@.len() && needs_start(#[trigger] old(records)@[i]) ==> exists|
                m: int,
            | 0 <= m < started@.len() && (#[trigger] started@[m]).0 == i,
{
    let ghost old_rs = records@;
    let mut started: Vec<(usize, ChunkCoord)> = Vec::new();
    let mut i: usize = 0;
    while i < records.len()
        invariant
            i <= records@.len(),
            records@.len() == old_rs.len(),
            old_rs == old(records)@,
            forall|m: int|
                0 <= m < i ==> #[trigger] records@[m] == (if needs_start(old_rs[m]) {
                    ChunkRecord { has_task: true, ..old_rs[m] }
                } else {
                    old_rs[m]
                }),
            forall|m: int| i <= m < old_rs.len() ==> #[trigger] records@[m] == old_rs[m],
            forall|m: int|
                0 <= m < started@.len() ==> 0 <= (#[trigger] started@[m]).0 < i
                    && old_rs[started@[m].0 as int].status
                    == ChunkLoadingStatus::GenerationRequested(started@[m].1)
                    && !old_rs[started@[m].0 as int].has_task,
            forall|m: int|
                0 <= m < i && needs_start(#[trigger] old_rs[m]) ==> exists|w: int|
                    0 <= w < started@.len() && (#[trigger] started@[w]).0 == m,
        decreases records@.len() - i,
    {
        let start_coord: Option<ChunkCoord> = match records[i].status {
            ChunkLoadingStatus::GenerationRequested(c) => {
                if !records[i].has_task {
                    Some(c)
                } else {
                    None
                }
            },
            _ => None,
        };
        match start_coord {
            Some(c) => {
                let ghost before = records@;
                let ghost old_started = started@;
                let mut r = records.remove(i);
                r.has_task = true;
                records.insert(i, r);
                started.push((i, c));
                proof {
                    assert(records@ =~= before.update(i as int, records@[i as int]));
                    assert(records@[i as int] == (ChunkRecord { has_task: true, ..old_rs[i as int] }));
                    assert forall|m: int|
                        0 <= m < i + 1 && needs_start(#[trigger] old_rs[m]) implies exists|w: int|
                        0 <= w < started@.len() && (#[trigger] started@[w]).0 == m by {
                        if m < i {
                            let w0 = choose|w0: int|
                                0 <= w0 < old_started.len() && (#[trigger] old_started[w0]).0 == m;
                            assert(started@[w0] == old_started[w0]);
                            assert(started@[w0].0 == m);
                        } else {
                            assert(started@[started@.len() - 1] == (i, c));
                            assert(started@[started@.len() - 1].0 == i);
                        }
                    }
                }
            },
            None => {},
        }
        i += 1;
    }
    started
}

/// Take delivery of one finished background generation.  A chunk still
/// wanted becomes `Loaded` and holds its octree; one marked for
/// destruction while in flight is discarded and its record removed.
pub fn chunk_generation_system_end_generation(
    records: &mut Vec<ChunkRecord>,
    index: usize,
    octree: Octree,
)
    requires
        index < old(records)@.len(),
        old(records)@[index as int].has_task,
    ensures
        match old(records)@[index as int].status {
            ChunkLoadingStatus::GenerationRequested(c) => final(records)@ == old(records)@.update(
                index as int,
                ChunkRecord {
                    status: ChunkLoadingStatus::Loaded,
                    has_task: false,
                    chunk: Some(Chunk { octree, position: c }),
                },
            ),
            ChunkLoadingStatus::DestructionRequested => final(records)@ == old(records)@.remove(
                index as int,
            ),
            ChunkLoadingStatus::Loaded => final(records)@ == old(records)@.update(
                index as int,
                ChunkRecord { has_task: false, ..old(records)@[index as int] },
            ),
        },
{
    let ghost before = records@;
    let status = records[index].status;
    match status {
        ChunkLoadingStatus::GenerationRequested(c) => {
            let _ = records.remove(index);
            records.insert(
                index,
                ChunkRecord {
                    status: ChunkLoadingStatus::Loaded,
                    has_task: false,
                    chunk: Some(Chunk { octree, position: c }),
                },
            );
            proof {
                assert(records@ =~= before.update(index as int, records@[index as int]));
            }
        },
        ChunkLoadingStatus::DestructionRequested => {
            let _ = records.remove(index);
        },
        ChunkLoadingStatus::Loaded => {
            let mut r = records.remove(index);
            r.has_task = false;
            records.insert(index, r);
            proof {
                assert(records@ =~= before.update(index as int, records@[index as int]));
            }
        },
    }
}

/// Remove every chunk marked for destruction that already holds data;
/// records still waiting on an in-flight generation stay until their task
/// is accounted for.
pub fn chunk_destroying_system(records: &mut Vec<ChunkRecord>)
    ensures
        final(records)@ == old(records)@.filter(|r: ChunkRecord| kept_after_destroy(r)),
{
    let ghost old_rs = records@;
    let ghost pred = |r: ChunkRecord| kept_after_destroy(r);
    let mut kept: Vec<ChunkRecord> = Vec::new();
    let mut taken: usize = 0;
    proof {
        vstd::std_specs::vec::axiom_spec_len(records);
    }
    while records.len() > 0
        invariant
            taken <= old_rs.len() <= usize::MAX,
            records@.len() == old_rs.len() - taken,
            records@ == old_rs.subrange(taken as int, old_rs.len() as int),
            kept@ == old_rs.subrange(0, taken as int).filter(pred),
            pred == (|r: ChunkRecord| kept_after_destroy(r)),
        decreases records@.len(),
    {
        let r = records.remove(0);
        proof {
            assert(r == old_rs[taken as int]);
        }
        let keep = match r.status {
            ChunkLoadingStatus::DestructionRequested => match &r.chunk {
                Some(_) => false,
                None => true,
            },
            _ => true,
        };
        proof {
            let pre = old_rs.subrange(0, taken as int);
            let pre1 = old_rs.subrange(0, taken as int + 1);
            assert(pre1.drop_last() =~= pre);
            assert(pre1.last() == old_rs[taken as int]);
            reveal(Seq::filter);
            assert(pre1.filter(pred) == pre.filter(pred) + (if pred(old_rs[taken as int]) {
                seq![old_rs[taken as int]]
            } else {
                Seq::empty()
            }));
            assert(keep == pred(r));
            if keep {
                assert(pre1.filter(pred) =~= pre.filter(pred).push(r));
            } else {
                assert(pre1.filter(pred) =~= pre.filter(pred));
            }
            assert(records@ =~= old_rs.subrange(taken as int + 1, old_rs.len() as int));
        }
        if keep {
            kept.push(r);
        }
        taken += 1;
    }
    proof {
        assert(old_rs.subrange(0, old_rs.len() as int) =~= old_rs);
    }
    core::mem::swap(records, &mut kept);
}
} // verus!
