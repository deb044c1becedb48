//! Terrain generation: a per-column heightmap is summarised into min and
//! max mip pyramids, and an octree is filled from them, deciding whole
//! regions at once wherever a region lies entirely above or entirely below
//! the surface.

use vstd::prelude::*;
use vstd::arithmetic::power2::pow2;

use crate::octree::{views_of, voxel_at, Octree, OctreeContent, OctreeView, Voxel};
use crate::position::OctreePosition;

verus! {

/// A square grid of heights with the given edge length.
pub open spec fn grid_dims(g: Seq<Seq<i128>>, n: nat) -> bool {
    g.len() == n && forall|j: int| 0 <= j < g.len() ==> (#[trigger] g[j]).len() == n
}

/// The larger of two heights.
pub open spec fn spec_max2(a: i128, b: i128) -> i128 {
    if a >= b {
        a
    } else {
        b
    }
}

/// The smaller of two heights.
pub open spec fn spec_min2(a: i128, b: i128) -> i128 {
    if a <= b {
        a
    } else {
        b
    }
}

/// The largest of four heights.
pub open spec fn spec_max4(a: i128, b: i128, c: i128, d: i128) -> i128 {
    spec_max2(spec_max2(a, b), spec_max2(c, d))
}

/// The smallest of four heights.
pub open spec fn spec_min4(a: i128, b: i128, c: i128, d: i128) -> i128 {
    spec_min2(spec_min2(a, b), spec_min2(c, d))
}

/// `next` halves `prev` along both axes: each of its cells aggregates the
/// four cells of `prev` below it, by maximum or by minimum.
pub open spec fn downsample_ok(
    prev: Seq<Seq<i128>>,
    next: Seq<Seq<i128>>,
    n: nat,
    is_max: bool,
) -> bool {
    forall|j: int, k: int|
        0 <= j < n && 0 <= k < n ==> #[trigger] next[j][k] == (if is_max {
            spec_max4(prev[2 * j][2 * k], prev[2 * j + 1][2 * k], prev[2 * j][2 * k + 1], prev[2 * j
                + 1][2 * k + 1])
        } else {
            spec_min4(prev[2 * j][2 * k], prev[2 * j + 1][2 * k], prev[2 * j][2 * k + 1], prev[2 * j
                + 1][2 * k + 1])
        })
}

/// A full mip pyramid over a base grid of edge `2^size`: level 0 is the
/// base, each level halves the one before, and the top level is one cell.
pub open spec fn pyramid_ok(pyr: Seq<Seq<Seq<i128>>>, size: nat, is_max: bool) -> bool {
    &&& pyr.len() == size + 1
    &&& forall|l: int| 0 <= l <= size ==> grid_dims(#[trigger] pyr[l], pow2((size - l) as nat))
    &&& forall|l: int|
        0 <= l < size ==> downsample_ok(
            #[trigger] pyr[l],
            pyr[l + 1],
            pow2((size - l - 1) as nat),
            is_max,
        )
}

/// The mathematical grid behind a vector of rows.
pub open spec fn grid_view(g: Vec<Vec<i128>>) -> Seq<Seq<i128>> {
    Seq::new(g@.len(), |j: int| if 0 <= j < g@.len() { g@[j]@ } else { Seq::empty() })
}

/// The mathematical pyramid behind a sequence of grids.
pub open spec fn pyramid_view(p: Seq<Vec<Vec<i128>>>) -> Seq<Seq<Seq<i128>>> {
    Seq::new(p.len(), |l: int| if 0 <= l < p.len() { grid_view(p[l]) } else { Seq::empty() })
}

/// The largest of four heights.
fn max4(a: i128, b: i128, c: i128, d: i128) -> (r: i128)
    ensures
        r == spec_max4(a, b, c, d),
{
    let mut m = a;
    if b > m {
        m = b;
    }
    if c > m {
        m = c;
    }
    if d > m {
        m = d;
    }
    m
}

/// The smallest of four heights.
fn min4(a: i128, b: i128, c: i128, d: i128) -> (r: i128)
    ensures
        r == spec_min4(a, b, c, d),
{
    let mut m = a;
    if b < m {
        m = b;
    }
    if c < m {
        m = c;
    }
    if d < m {
        m = d;
    }
    m
}

/// A fresh copy of a grid of heights.
fn copy_grid(g: &Vec<Vec<i128>>) -> (r: Vec<Vec<i128>>)
    ensures
        grid_view(r) == grid_view(*g),
{
    let mut r: Vec<Vec<i128>> = Vec::new();
    let mut j: usize = 0;
    while j < g.len()
        invariant
            j <= g@.len(),
            r@.len() == j,
            forall|m: int| 0 <= m < j ==> (#[trigger] r@[m])@ == g@[m]@,
        decreases g@.len() - j,
    {
        let mut row: Vec<i128> = Vec::new();
        let mut k: usize = 0;
        let src = &g[j];
        while k < src.len()
            invariant
                k <= src@.len(),
                row@.len() == k,
                forall|m: int| 0 <= m < k ==> row@[m] == src@[m],
            decreases src@.len() - k,
        {
            row.push(src[k]);
            k += 1;
        }
        proof {
            assert(row@ =~= src@);
        }
        r.push(row);
        j += 1;
    }
    proof {
        assert(grid_view(r) =~= grid_view(*g));
    }
    r
}

impl Octree {
    /// Build the min and max pyramids over a heightmap of edge
    /// `2^heigh_map_size`: level 0 is the map itself, and every further
    /// level holds, per cell, the smallest (first result) or largest
    /// (second result) of the four cells below it, up to a single cell.
    #[verifier::rlimit(100)]
    pub fn generate_res_high_maps(heigh_map: Vec<Vec<i128>>, heigh_map_size: u8) -> (r: (
        Vec<Vec<Vec<i128>>>,
        Vec<Vec<Vec<i128>>>,
    ))
        requires
            heigh_map_size <= 63,
            pow2(heigh_map_size as nat) <= usize::MAX,
            grid_dims(grid_view(heigh_map), pow2(heigh_map_size as nat)),
        ensures
            pyramid_ok(pyramid_view(r.0@), heigh_map_size as nat, false),
            pyramid_ok(pyramid_view(r.1@), heigh_map_size as nat, true),
            pyramid_view(r.0@)[0] == grid_view(heigh_map),
            pyramid_view(r.1@)[0] == grid_view(heigh_map),
    {
        let size = heigh_map_size as usize;
        let mut highest_point_res: Vec<Vec<Vec<i128>>> = Vec::new();
        let mut lowest_point_res: Vec<Vec<Vec<i128>>> = Vec::new();
        let ghost base = grid_view(heigh_map);
        highest_point_res.push(copy_grid(&heigh_map));
        lowest_point_res.push(heigh_map);
        let mut level: usize = 0;
        while level < size
            invariant
                level <= size,
                size == heigh_map_size as nat,
                heigh_map_size <= 63,
                pow2(heigh_map_size as nat) <= usize::MAX,
                highest_point_res@.len() == level + 1,
                lowest_point_res@.len() == level + 1,
                base == grid_view(heigh_map),
                pyramid_view(highest_point_res@)[0] == base,
                pyramid_view(lowest_point_res@)[0] == base,
                forall|l: int|
                    0 <= l <= level ==> grid_dims(
                        #[trigger] pyramid_view(highest_point_res@)[l],
                        pow2((size - l) as nat),
                    ) && grid_dims(pyramid_view(lowest_point_res@)[l], pow2((size - l) as nat)),
                forall|l: int|
                    0 <= l < level ==> downsample_ok(
                        #[trigger] pyramid_view(highest_point_res@)[l],
                        pyramid_view(highest_point_res@)[l + 1],
                        pow2((size - l - 1) as nat),
                        true,
                    ) && downsample_ok(
                        pyramid_view(lowest_point_res@)[l],
                        pyramid_view(lowest_point_res@)[l + 1],
                        pow2((size - l - 1) as nat),
                        false,
                    ),
            decreases size - level,
        {
            let prev_hi = &highest_point_res[level];
            let prev_lo = &lowest_point_res[level];
            let ghost n_prev = pow2((size - level) as nat);
            let current_len = prev_hi.len() / 2;
            let ghost n = pow2((size - level - 1) as nat);
            proof {
                vstd::arithmetic::power2::lemma_pow2_unfold((size - level) as nat);
                assert(pyramid_view(highest_point_res@)[level as int] == grid_view(*prev_hi));
                assert(pyramid_view(lowest_point_res@)[level as int] == grid_view(*prev_lo));
                assert(grid_view(*prev_hi).len() == prev_hi@.len());
                assert(grid_view(*prev_lo).len() == prev_lo@.len());
                vstd::arithmetic::div_mod::lemma_div_multiples_vanish(n as int, 2);
                assert(current_len == n);
                assert(n_prev == prev_hi@.len());
                assert(n_prev <= usize::MAX);
            }
            let mut highest_point: Vec<Vec<i128>> = Vec::new();
            let mut lowest_point: Vec<Vec<i128>> = Vec::new();
            let mut j: usize = 0;
            while j < current_len
                invariant
                    j <= current_len,
                    current_len == n,
                    2 * n == n_prev,
                    n_prev <= usize::MAX,
                    grid_dims(grid_view(*prev_hi), n_prev),
                    grid_dims(grid_view(*prev_lo), n_prev),
                    highest_point@.len() == j,
                    lowest_point@.len() == j,
                    forall|m: int| 0 <= m < j ==> (#[trigger] highest_point@[m])@.len() == n,
                    forall|m: int| 0 <= m < j ==> (#[trigger] lowest_point@[m])@.len() == n,
                    forall|m: int, k: int|
                        0 <= m < j && 0 <= k < n ==> #[trigger] highest_point@[m]@[k] == spec_max4(
                            grid_view(*prev_hi)[2 * m][2 * k],
                            grid_view(*prev_hi)[2 * m + 1][2 * k],
                            grid_view(*prev_hi)[2 * m][2 * k + 1],
                            grid_view(*prev_hi)[2 * m + 1][2 * k + 1],
                        ),
                    forall|m: int, k: int|
                        0 <= m < j && 0 <= k < n ==> #[trigger] lowest_point@[m]@[k] == spec_min4(
                            grid_view(*prev_lo)[2 * m][2 * k],
                            grid_view(*prev_lo)[2 * m + 1][2 * k],
                            grid_view(*prev_lo)[2 * m][2 * k + 1],
                            grid_view(*prev_lo)[2 * m + 1][2 * k + 1],
                        ),
                decreases current_len - j,
            {
                let mut hi_row: Vec<i128> = Vec::new();
                let mut lo_row: Vec<i128> = Vec::new();
                let mut k: usize = 0;
                while k < current_len
                    invariant
                        k <= current_len,
                        j < current_len,
                        current_len == n,
                        2 * n == n_prev,
                        n_prev <= usize::MAX,
                        grid_dims(grid_view(*prev_hi), n_prev),
                        grid_dims(grid_view(*prev_lo), n_prev),
                        hi_row@.len() == k,
                        lo_row@.len() == k,
                        forall|m: int|
                            0 <= m < k ==> #[trigger] hi_row@[m] == spec_max4(
                                grid_view(*prev_hi)[2 * j][2 * m],
                                grid_view(*prev_hi)[2 * j + 1][2 * m],
                                grid_view(*prev_hi)[2 * j][2 * m + 1],
                                grid_view(*prev_hi)[2 * j + 1][2 * m + 1],
                            ),
                        forall|m: int|
                            0 <= m < k ==> #[trigger] lo_row@[m] == spec_min4(
                                grid_view(*prev_lo)[2 * j][2 * m],
                                grid_view(*prev_lo)[2 * j + 1][2 * m],
                                grid_view(*prev_lo)[2 * j][2 * m + 1],
                                grid_view(*prev_lo)[2 * j + 1][2 * m + 1],
                            ),
                    decreases current_len - k,
                {
                    proof {
                        assert(grid_view(*prev_hi)[2 * j as int] == prev_hi@[2 * j as int]@);
                        assert(grid_view(*prev_hi)[2 * j as int + 1] == prev_hi@[2 * j as int + 1]@);
                        assert(grid_view(*prev_lo)[2 * j as int] == prev_lo@[2 * j as int]@);
                        assert(grid_view(*prev_lo)[2 * j as int + 1] == prev_lo@[2 * j as int + 1]@);
                    }
                    let hi = max4(
                        prev_hi[2 * j][2 * k],
                        prev_hi[2 * j + 1][2 * k],
                        prev_hi[2 * j][2 * k + 1],
                        prev_hi[2 * j + 1][2 * k + 1],
                    );
                    let lo = min4(
                        prev_lo[2 * j][2 * k],
                        prev_lo[2 * j + 1][2 * k],
                        prev_lo[2 * j][2 * k + 1],
                        prev_lo[2 * j + 1][2 * k + 1],
                    );
                    hi_row.push(hi);
                    lo_row.push(lo);
                    k += 1;
                }
                highest_point.push(hi_row);
                lowest_point.push(lo_row);
                j += 1;
            }
            let ghost g_prev_hi = grid_view(*prev_hi);
            let ghost g_prev_lo = grid_view(*prev_lo);
            let ghost old_hi_res = highest_point_res@;
            let ghost old_lo_res = lowest_point_res@;
            let ghost g_new_hi = grid_view(highest_point);
            let ghost g_new_lo = grid_view(lowest_point);
            proof {
                assert forall|a: int| 0 <= a < n implies (#[trigger] g_new_hi[a]).len() == n by {
                    assert(g_new_hi[a] == highest_point@[a]@);
                }
                assert forall|a: int| 0 <= a < n implies (#[trigger] g_new_lo[a]).len() == n by {
                    assert(g_new_lo[a] == lowest_point@[a]@);
                }
                assert(grid_dims(g_new_hi, n));
                assert(grid_dims(g_new_lo, n));
            }
            highest_point_res.push(highest_point);
            lowest_point_res.push(lowest_point);
            proof {
                assert forall|l: int| 0 <= l <= level implies #[trigger] pyramid_view(
                    highest_point_res@,
                )[l] == pyramid_view(old_hi_res)[l] && pyramid_view(lowest_point_res@)[l]
                    == pyramid_view(old_lo_res)[l] by {
                    assert(highest_point_res@[l] == old_hi_res[l]);
                    assert(lowest_point_res@[l] == old_lo_res[l]);
                    assert(pyramid_view(old_hi_res)[l] == grid_view(old_hi_res[l]));
                    assert(pyramid_view(highest_point_res@)[l] == grid_view(highest_point_res@[l]));
                    assert(pyramid_view(old_lo_res)[l] == grid_view(old_lo_res[l]));
                    assert(pyramid_view(lowest_point_res@)[l] == grid_view(lowest_point_res@[l]));
                }
                assert(pyramid_view(highest_point_res@)[level + 1] == g_new_hi);
                assert(pyramid_view(lowest_point_res@)[level + 1] == g_new_lo);
            }
            proof {
                assert forall|l: int| 0 <= l <= level + 1 implies grid_dims(
                    #[trigger] pyramid_view(highest_point_res@)[l],
                    pow2((size - l) as nat),
                ) && grid_dims(pyramid_view(lowest_point_res@)[l], pow2((size - l) as nat)) by {
                    if l <= level {
                        assert(pyramid_view(old_hi_res)[l] == pyramid_view(highest_point_res@)[l]);
                        assert(pyramid_view(old_lo_res)[l] == pyramid_view(lowest_point_res@)[l]);
                        assert(grid_dims(pyramid_view(old_hi_res)[l], pow2((size - l) as nat)));
                        assert(grid_dims(pyramid_view(old_lo_res)[l], pow2((size - l) as nat)));
                    } else {
                        assert(pyramid_view(highest_point_res@)[l] == g_new_hi);
                        assert(pyramid_view(lowest_point_res@)[l] == g_new_lo);
                        assert forall|a: int| 0 <= a < n implies (#[trigger] g_new_hi[a]).len() == n
                            && g_new_lo[a].len() == n by {
                            assert(g_new_hi[a] == highest_point@[a]@);
                            assert(g_new_lo[a] == lowest_point@[a]@);
                        }
                    }
                }
                assert forall|l: int| 0 <= l <= level implies downsample_ok(
                    #[trigger] pyramid_view(highest_point_res@)[l],
                    pyramid_view(highest_point_res@)[l + 1],
                    pow2((size - l - 1) as nat),
                    true,
                ) && downsample_ok(
                    pyramid_view(lowest_point_res@)[l],
                    pyramid_view(lowest_point_res@)[l + 1],
                    pow2((size - l - 1) as nat),
                    false,
                ) by {
                    if l < level {
                        assert(pyramid_view(highest_point_res@)[l] == pyramid_view(old_hi_res)[l]);
                        assert(pyramid_view(highest_point_res@)[l + 1] == pyramid_view(old_hi_res)[l
                            + 1]);
                        assert(pyramid_view(lowest_point_res@)[l] == pyramid_view(old_lo_res)[l]);
                        assert(pyramid_view(lowest_point_res@)[l + 1] == pyramid_view(old_lo_res)[l
                            + 1]);
                    } else {
                        assert(pyramid_view(highest_point_res@)[l] == g_prev_hi);
                        assert(pyramid_view(highest_point_res@)[l + 1] == g_new_hi);
                        assert(pyramid_view(lowest_point_res@)[l] == g_prev_lo);
                        assert(pyramid_view(lowest_point_res@)[l + 1] == g_new_lo);
                        assert forall|a: int, b: int| 0 <= a < n && 0 <= b < n implies #[trigger] g_new_hi[a][b] == spec_max4(
                            g_prev_hi[2 * a][2 * b],
                            g_prev_hi[2 * a + 1][2 * b],
                            g_prev_hi[2 * a][2 * b + 1],
                            g_prev_hi[2 * a + 1][2 * b + 1],
                        ) && g_new_lo[a][b] == spec_min4(
                            g_prev_lo[2 * a][2 * b],
                            g_prev_lo[2 * a + 1][2 * b],
                            g_prev_lo[2 * a][2 * b + 1],
                            g_prev_lo[2 * a + 1][2 * b + 1],
                        ) by {
                            assert(g_new_hi[a] == highest_point@[a]@);
                            assert(g_new_lo[a] == lowest_point@[a]@);
                        }
                    }
                }
            }
            level += 1;
        }
        proof {
            assert(pyramid_view(lowest_point_res@)[0] == grid_view(lowest_point_res@[0]));
            assert(pyramid_view(highest_point_res@)[0] == grid_view(highest_point_res@[0]));
        }
        (lowest_point_res, highest_point_res)
    }
}


/// Every base cell of the map is at most `v`.
pub open spec fn grid_le(g: Seq<Seq<i128>>, n: nat, v: int) -> bool {
    forall|j: int, k: int| 0 <= j < n && 0 <= k < n ==> #[trigger] g[j][k] <= v
}

/// Every base cell of the map is at least `v`.
pub open spec fn grid_ge(g: Seq<Seq<i128>>, n: nat, v: int) -> bool {
    forall|j: int, k: int| 0 <= j < n && 0 <= k < n ==> #[trigger] g[j][k] >= v
}

/// A cell of the max pyramid bounds from above every base cell of the
/// square it covers.
#[verifier::spinoff_prover]
proof fn lemma_pyramid_cell_le(
    pyr: Seq<Seq<Seq<i128>>>,
    size: nat,
    l: nat,
    j: int,
    k: int,
    bj: int,
    bk: int,
)
    requires
        pyramid_ok(pyr, size, true),
        l <= size,
        0 <= j < pow2((size - l) as nat),
        0 <= k < pow2((size - l) as nat),
        j * pow2(l) <= bj < (j + 1) * pow2(l),
        k * pow2(l) <= bk < (k + 1) * pow2(l),
    ensures
        pyr[0][bj][bk] <= pyr[l as int][j][k],
    decreases l,
{
    vstd::arithmetic::power2::lemma_pow2_pos(l);
    if l == 0 {
        assert(pow2(0) == 1) by {
            vstd::arithmetic::power2::lemma2_to64();
        }
        assert(bj == j && bk == k) by (nonlinear_arith)
            requires
                pow2(l) == 1,
                j * pow2(l) <= bj < (j + 1) * pow2(l),
                k * pow2(l) <= bk < (k + 1) * pow2(l),
        ;
    } else {
        let h = pow2((l - 1) as nat) as int;
        vstd::arithmetic::power2::lemma_pow2_pos((l - 1) as nat);
        vstd::arithmetic::power2::lemma_pow2_unfold(l);
        assert(pow2(l) == 2 * h);
        let j2 = bj / h;
        let k2 = bk / h;
        assert(2 * j <= j2 < 2 * j + 2 && h * j2 <= bj < h * (j2 + 1)) by (nonlinear_arith)
            requires
                h > 0,
                j2 == bj / h,
                j * (2 * h) <= bj < (j + 1) * (2 * h),
        ;
        assert(2 * k <= k2 < 2 * k + 2 && h * k2 <= bk < h * (k2 + 1)) by (nonlinear_arith)
            requires
                h > 0,
                k2 == bk / h,
                k * (2 * h) <= bk < (k + 1) * (2 * h),
        ;
        assert(j2 * h <= bj < (j2 + 1) * h && k2 * h <= bk < (k2 + 1) * h) by (nonlinear_arith)
            requires
                h * j2 <= bj < h * (j2 + 1),
                h * k2 <= bk < h * (k2 + 1),
        ;
        assert(j2 < pow2((size - (l - 1)) as nat) && k2 < pow2((size - (l - 1)) as nat)) by {
            vstd::arithmetic::power2::lemma_pow2_unfold((size - l + 1) as nat);
        }
        lemma_pyramid_cell_le(pyr, size, (l - 1) as nat, j2, k2, bj, bk);
        assert(downsample_ok(pyr[l - 1], pyr[l as int], pow2((size - l) as nat), true));
        assert(pyr[l as int][j][k] == spec_max4(
            pyr[l - 1][2 * j][2 * k],
            pyr[l - 1][2 * j + 1][2 * k],
            pyr[l - 1][2 * j][2 * k + 1],
            pyr[l - 1][2 * j + 1][2 * k + 1],
        ));
        assert(j2 == 2 * j || j2 == 2 * j + 1);
        assert(k2 == 2 * k || k2 == 2 * k + 1);
        assert(pyr[l - 1][j2][k2] <= pyr[l as int][j][k]);
        assert(pyr[0][bj][bk] <= pyr[l - 1][j2][k2]);
        assert(pyr[0][bj][bk] <= pyr[l as int][j][k]);
    }
}

/// A cell of the min pyramid bounds from below every base cell of the
/// square it covers.
#[verifier::spinoff_prover]
proof fn lemma_pyramid_cell_ge(
    pyr: Seq<Seq<Seq<i128>>>,
    size: nat,
    l: nat,
    j: int,
    k: int,
    bj: int,
    bk: int,
)
    requires
        pyramid_ok(pyr, size, false),
        l <= size,
        0 <= j < pow2((size - l) as nat),
        0 <= k < pow2((size - l) as nat),
        j * pow2(l) <= bj < (j + 1) * pow2(l),
        k * pow2(l) <= bk < (k + 1) * pow2(l),
    ensures
        pyr[0][bj][bk] >= pyr[l as int][j][k],
    decreases l,
{
    vstd::arithmetic::power2::lemma_pow2_pos(l);
    if l == 0 {
        assert(pow2(0) == 1) by {
            vstd::arithmetic::power2::lemma2_to64();
        }
        assert(bj == j && bk == k) by (nonlinear_arith)
            requires
                pow2(l) == 1,
                j * pow2(l) <= bj < (j + 1) * pow2(l),
                k * pow2(l) <= bk < (k + 1) * pow2(l),
        ;
    } else {
        let h = pow2((l - 1) as nat) as int;
        vstd::arithmetic::power2::lemma_pow2_pos((l - 1) as nat);
        vstd::arithmetic::power2::lemma_pow2_unfold(l);
        assert(pow2(l) == 2 * h);
        let j2 = bj / h;
        let k2 = bk / h;
        assert(2 * j <= j2 < 2 * j + 2 && h * j2 <= bj < h * (j2 + 1)) by (nonlinear_arith)
            requires
                h > 0,
                j2 == bj / h,
                j * (2 * h) <= bj < (j + 1) * (2 * h),
        ;
        assert(2 * k <= k2 < 2 * k + 2 && h * k2 <= bk < h * (k2 + 1)) by (nonlinear_arith)
            requires
                h > 0,
                k2 == bk / h,
                k * (2 * h) <= bk < (k + 1) * (2 * h),
        ;
        assert(j2 * h <= bj < (j2 + 1) * h && k2 * h <= bk < (k2 + 1) * h) by (nonlinear_arith)
            requires
                h * j2 <= bj < h * (j2 + 1),
                h * k2 <= bk < h * (k2 + 1),
        ;
        assert(j2 < pow2((size - (l - 1)) as nat) && k2 < pow2((size - (l - 1)) as nat)) by {
            vstd::arithmetic::power2::lemma_pow2_unfold((size - l + 1) as nat);
        }
        lemma_pyramid_cell_ge(pyr, size, (l - 1) as nat, j2, k2, bj, bk);
        assert(downsample_ok(pyr[l - 1], pyr[l as int], pow2((size - l) as nat), false));
        assert(pyr[l as int][j][k] == spec_min4(
            pyr[l - 1][2 * j][2 * k],
            pyr[l - 1][2 * j + 1][2 * k],
            pyr[l - 1][2 * j][2 * k + 1],
            pyr[l - 1][2 * j + 1][2 * k + 1],
        ));
        assert(j2 == 2 * j || j2 == 2 * j + 1);
        assert(k2 == 2 * k || k2 == 2 * k + 1);
        assert(pyr[l - 1][j2][k2] >= pyr[l as int][j][k]);
        assert(pyr[0][bj][bk] >= pyr[l - 1][j2][k2]);
        assert(pyr[0][bj][bk] >= pyr[l as int][j][k]);
    }
}

/// A bound that holds of every base cell climbs the pyramid: every cell of
/// every level respects it, up to the single top cell.
proof fn lemma_pyramid_level_bound(pyr: Seq<Seq<Seq<i128>>>, size: nat, is_max: bool, l: nat, v: int)
    requires
        pyramid_ok(pyr, size, is_max),
        l <= size,
        is_max ==> grid_le(pyr[0], pow2(size), v),
        !is_max ==> grid_ge(pyr[0], pow2(size), v),
    ensures
        is_max ==> grid_le(pyr[l as int], pow2((size - l) as nat), v),
        !is_max ==> grid_ge(pyr[l as int], pow2((size - l) as nat), v),
    decreases l,
{
    if l == 0 {
    } else {
        lemma_pyramid_level_bound(pyr, size, is_max, (l - 1) as nat, v);
        let n = pow2((size - l) as nat);
        assert(downsample_ok(pyr[l - 1], pyr[l as int], n, is_max));
        assert forall|a: int, b: int| 0 <= a < n && 0 <= b < n implies (is_max
            ==> #[trigger] pyr[l as int][a][b] <= v) && (!is_max ==> pyr[l as int][a][b] >= v) by {
            vstd::arithmetic::power2::lemma_pow2_unfold((size - l + 1) as nat);
            assert(pyr[l as int][a][b] == (if is_max {
                spec_max4(
                    pyr[l - 1][2 * a][2 * b],
                    pyr[l - 1][2 * a + 1][2 * b],
                    pyr[l - 1][2 * a][2 * b + 1],
                    pyr[l - 1][2 * a + 1][2 * b + 1],
                )
            } else {
                spec_min4(
                    pyr[l - 1][2 * a][2 * b],
                    pyr[l - 1][2 * a + 1][2 * b],
                    pyr[l - 1][2 * a][2 * b + 1],
                    pyr[l - 1][2 * a + 1][2 * b + 1],
                )
            }));
        }
    }
}

/// The voxel the terrain owes to cell `q` of a node: the node covers
/// `2^delta` heightmap blocks starting at block coordinates `pos`, each
/// block `2^bs` cells wide, and a cell is solid exactly when its column's
/// height exceeds the cell's block row.
pub open spec fn terrain_voxel(
    hm0: Seq<Seq<i128>>,
    bs: nat,
    delta: nat,
    pos: OctreePosition,
    q: OctreePosition,
) -> Voxel {
    let bx = pos.0 as int + ((q.0 as nat / pow2(bs)) % pow2(delta)) as int;
    let by = pos.1 as int + ((q.1 as nat / pow2(bs)) % pow2(delta)) as int;
    let bz = pos.2 as int + ((q.2 as nat / pow2(bs)) % pow2(delta)) as int;
    if (hm0[bx][bz] > by) {
        Voxel::Stone
    } else {
        Voxel::Empty
    }
}

/// The block coordinates of child octant `j` of a node at block
/// coordinates `pos` covering `2^delta` blocks.
pub open spec fn child_block_pos(pos: OctreePosition, delta: nat, j: int) -> OctreePosition {
    let h = pow2((delta - 1) as nat);
    OctreePosition(
        (pos.0 + (j % 2) * h) as u64,
        (pos.1 + ((j / 2) % 2) * h) as u64,
        (pos.2 + ((j / 4) % 2) * h) as u64,
    )
}

/// The block offset of a cell within a node splits into its offset within
/// the child octant plus, possibly, half the node's width.
proof fn lemma_block_offset_split(c: u64, bs: nat, delta: nat)
    requires
        delta >= 1,
    ensures
        ((c as nat / pow2(bs)) % pow2(delta)) as int == ((c as nat / pow2(bs)) % pow2(
            (delta - 1) as nat,
        )) as int + (if crate::position::coord_bit(c, (bs + delta - 1) as nat) == 1 {
            pow2((delta - 1) as nat) as int
        } else {
            0
        }),
{
    let x = (c as nat / pow2(bs)) as int;
    let h = pow2((delta - 1) as nat) as int;
    vstd::arithmetic::power2::lemma_pow2_pos(bs);
    vstd::arithmetic::power2::lemma_pow2_pos((delta - 1) as nat);
    vstd::arithmetic::power2::lemma_pow2_unfold(delta);
    vstd::arithmetic::div_mod::lemma_breakdown(x, h, 2);
    assert(x % (h * 2) == h * ((x / h) % 2) + x % h);
    assert((x / h) == c as int / pow2((bs + delta - 1) as nat) as int) by {
        vstd::arithmetic::power2::lemma_pow2_adds(bs, (delta - 1) as nat);
        vstd::arithmetic::div_mod::lemma_div_denominator(
            c as int,
            pow2(bs) as int,
            h,
        );
    }
    let b = (x / h) % 2;
    assert(b == crate::position::coord_bit(c, (bs + delta - 1) as nat));
    assert(b == 0 || b == 1);
    if b == 1 {
        assert(h * b == h);
    } else {
        assert(h * b == 0);
    }
    assert(pow2(delta) as int == h * 2);
}

/// The octant value at a plane decomposes into one bit per axis.
proof fn lemma_octant_bits(q: OctreePosition, k: nat)
    ensures
        crate::position::octant_at(q, k) % 2 == crate::position::coord_bit(q.0, k),
        (crate::position::octant_at(q, k) / 2) % 2 == crate::position::coord_bit(q.1, k),
        crate::position::octant_at(q, k) / 4 == crate::position::coord_bit(q.2, k),
{
    let b0 = crate::position::coord_bit(q.0, k);
    let b1 = crate::position::coord_bit(q.1, k);
    let b2 = crate::position::coord_bit(q.2, k);
    let oct = crate::position::octant_at(q, k);
    assert(0 <= b0 < 2 && 0 <= b1 < 2 && 0 <= b2 < 2);
    assert(oct == 2 * (b1 + 2 * b2) + b0);
    vstd::arithmetic::div_mod::lemma_fundamental_div_mod_converse_mod(oct, 2, b1 + 2 * b2, b0);
    vstd::arithmetic::div_mod::lemma_fundamental_div_mod_converse_div(oct, 2, b1 + 2 * b2, b0);
    vstd::arithmetic::div_mod::lemma_fundamental_div_mod_converse_mod(b1 + 2 * b2, 2, b2, b1);
    vstd::arithmetic::div_mod::lemma_fundamental_div_mod_converse_div(oct, 4, b2, b0 + 2 * b1);
}

/// Within a split node, the terrain owed to a cell is the terrain its
/// child octant owes to it.
proof fn lemma_terrain_child(
    hm0: Seq<Seq<i128>>,
    bs: nat,
    delta: nat,
    pos: OctreePosition,
    q: OctreePosition,
    oct: int,
)
    requires
        delta >= 1,
        oct == crate::position::octant_at(q, (bs + delta - 1) as nat),
        pos.0 as int + pow2(delta) <= u64::MAX as int + 1,
        pos.1 as int + pow2(delta) <= u64::MAX as int + 1,
        pos.2 as int + pow2(delta) <= u64::MAX as int + 1,
    ensures
        terrain_voxel(hm0, bs, delta, pos, q) == terrain_voxel(
            hm0,
            bs,
            (delta - 1) as nat,
            child_block_pos(pos, delta, oct),
            q,
        ),
{
    let k = (bs + delta - 1) as nat;
    let h = pow2((delta - 1) as nat);
    lemma_octant_bits(q, k);
    lemma_block_offset_split(q.0, bs, delta);
    lemma_block_offset_split(q.1, bs, delta);
    lemma_block_offset_split(q.2, bs, delta);
    vstd::arithmetic::power2::lemma_pow2_unfold(delta);
    vstd::arithmetic::power2::lemma_pow2_pos((delta - 1) as nat);
    let cp = child_block_pos(pos, delta, oct);
    let b0 = oct % 2;
    let b1 = (oct / 2) % 2;
    let b2g = oct / 4;
    assert(b0 == crate::position::coord_bit(q.0, k));
    assert(b1 == crate::position::coord_bit(q.1, k));
    assert(b2g == crate::position::coord_bit(q.2, k));
    assert(b0 == 0 || b0 == 1);
    assert(b1 == 0 || b1 == 1);
    assert(b2g == 0 || b2g == 1);
    assert(b0 * h == (if b0 == 1 { h as int } else { 0 })) by (nonlinear_arith)
        requires
            b0 == 0 || b0 == 1,
    ;
    assert(b1 * h == (if b1 == 1 { h as int } else { 0 })) by (nonlinear_arith)
        requires
            b1 == 0 || b1 == 1,
    ;
    let ghost b2m = (oct / 4) % 2;
    assert(b2m == b2g) by {
        vstd::arithmetic::div_mod::lemma_small_mod(b2g as nat, 2);
    }
    assert(b2m * h == (if b2m == 1 { h as int } else { 0 })) by (nonlinear_arith)
        requires
            b2m == 0 || b2m == 1,
    ;
    assert(cp.0 as int == pos.0 as int + (oct % 2) * h);
    assert(cp.1 as int == pos.1 as int + ((oct / 2) % 2) * h);
    assert(cp.2 as int == pos.2 as int + ((oct / 4) % 2) * h);
    assert(((q.1 as nat / pow2(bs)) % pow2(delta)) < pow2(delta)) by {
        vstd::arithmetic::power2::lemma_pow2_pos(delta);
        vstd::arithmetic::div_mod::lemma_mod_division_less_than_divisor(
            (q.1 as nat / pow2(bs)) as int,
            pow2(delta) as int,
        );
    }
}

/// Matching min and max pyramids built over one heightmap, every level
/// within reach of a machine index.
pub open spec fn pyramids_ok_for(lo: Seq<Vec<Vec<i128>>>, hi: Seq<Vec<Vec<i128>>>) -> bool {
    &&& lo.len() == hi.len()
    &&& 1 <= lo.len() <= 64
    &&& pyramid_ok(pyramid_view(lo), (lo.len() - 1) as nat, false)
    &&& pyramid_ok(pyramid_view(hi), (lo.len() - 1) as nat, true)
    &&& pyramid_view(lo)[0] == pyramid_view(hi)[0]
    &&& pow2((lo.len() - 1) as nat) <= usize::MAX
}

/// A node's block position is aligned to its own width and keeps its whole
/// footprint inside the map.
pub open spec fn block_pos_ok(pos: OctreePosition, delta: nat, hm: nat) -> bool {
    &&& pos.0 as nat % pow2(delta) == 0
    &&& pos.1 as nat % pow2(delta) == 0
    &&& pos.2 as nat % pow2(delta) == 0
    &&& pos.0 as nat + pow2(delta) <= pow2(hm)
    &&& pos.1 as nat + pow2(delta) <= pow2(hm)
    &&& pos.2 as nat + pow2(delta) <= pow2(hm)
}

impl Octree {
    /// Fill this node from the two pyramids: a node whose footprint lies
    /// entirely above the surface becomes one empty leaf, one entirely
    /// below becomes one stone leaf, and a node straddling the surface
    /// splits and decides each octant on its own, down to single columns
    /// at the block level.
    #[verifier::rlimit(40)]
    pub fn apply_res_heigh_map(
        &mut self,
        block_size: u8,
        pos: OctreePosition,
        lowest_point_res: &Vec<Vec<Vec<i128>>>,
        highest_point_res: &Vec<Vec<Vec<i128>>>,
    )
        requires
            old(self).well_formed(),
            old(self).content matches OctreeContent::Voxel(_),
            block_size <= old(self).size,
            pyramids_ok_for(lowest_point_res@, highest_point_res@),
            old(self).size - block_size < lowest_point_res@.len(),
            block_pos_ok(
                pos,
                (old(self).size - block_size) as nat,
                (lowest_point_res@.len() - 1) as nat,
            ),
        ensures
            final(self).size == old(self).size,
            final(self).well_formed(),
            forall|q: OctreePosition| #[trigger]
                voxel_at(final(self)@, final(self).size as nat, q) == terrain_voxel(
                    pyramid_view(highest_point_res@)[0],
                    block_size as nat,
                    (old(self).size - block_size) as nat,
                    pos,
                    q,
                ),
            old(self).size > block_size ==> ({
                let delta = (old(self).size - block_size) as nat;
                let mx = pyramid_view(highest_point_res@)[delta as int][(pos.0 as nat / pow2(
                    delta)) as int][(pos.2 as nat / pow2(delta)) as int];
                let mn = pyramid_view(lowest_point_res@)[delta as int][(pos.0 as nat / pow2(
                    delta)) as int][(pos.2 as nat / pow2(delta)) as int];
                &&& (mx <= pos.1 as int ==> final(self)@ == OctreeView::Voxel(Voxel::Empty))
                &&& (mx > pos.1 as int && mn >= pos.1 as int + pow2(delta) ==> final(self)@
                    == OctreeView::Voxel(Voxel::Stone))
                &&& (mx > pos.1 as int && mn < pos.1 as int + pow2(delta)
                    ==> (final(self)@ matches OctreeView::Childs(_)))
            }),
        decreases old(self).size,
    {
        let ghost hm0 = pyramid_view(highest_point_res@)[0];
        let ghost hm_size = (lowest_point_res@.len() - 1) as nat;
        let ghost bs = block_size as nat;
        proof {
            vstd::arithmetic::power2::lemma_pow2_pos(hm_size);
            vstd::arithmetic::power2::lemma_pow2_pos(bs);
        }
        if block_size == self.size {
            proof {
                assert(pow2(0) == 1) by {
                    vstd::arithmetic::power2::lemma2_to64();
                }
                assert(pos.0 < pow2(hm_size));
                assert(pyramid_view(highest_point_res@)[0] == grid_view(highest_point_res@[0]));
                assert(grid_dims(hm0, pow2(hm_size)));
                assert(grid_view(highest_point_res@[0])[pos.0 as int]
                    == highest_point_res@[0]@[pos.0 as int]@);
            }
            let height = highest_point_res[0][pos.0 as usize][pos.2 as usize];
            if height > pos.1 as i128 {
                self.content = OctreeContent::Voxel(Voxel::Stone);
            } else {
                self.content = OctreeContent::Voxel(Voxel::Empty);
            }
            proof {
                assert forall|q: OctreePosition| #[trigger]
                    voxel_at(self@, self.size as nat, q) == terrain_voxel(
                        hm0,
                        bs,
                        0,
                        pos,
                        q,
                    ) by {
                    vstd::arithmetic::div_mod::lemma_mod_division_less_than_divisor(
                        (q.0 as nat / pow2(bs)) as int,
                        1,
                    );
                    vstd::arithmetic::div_mod::lemma_mod_division_less_than_divisor(
                        (q.1 as nat / pow2(bs)) as int,
                        1,
                    );
                    vstd::arithmetic::div_mod::lemma_mod_division_less_than_divisor(
                        (q.2 as nat / pow2(bs)) as int,
                        1,
                    );
                }
            }
        } else {
            let delta = self.size - block_size;
            let ghost d = delta as nat;
            let p2delta = 1u64 << (delta as u64);
            proof {
                vstd::bits::lemma_u64_pow2_no_overflow(d);
                vstd::bits::lemma_u64_shl_is_mul(1u64, delta as u64);
                assert(p2delta == pow2(d));
                vstd::arithmetic::power2::lemma_pow2_pos(d);
            }
            let map_x = pos.0 / p2delta;
            let map_y = pos.2 / p2delta;
            let ghost mxi = map_x as int;
            let ghost myi = map_y as int;
            proof {
                assert(pos.0 as nat == pow2(d) * (map_x as nat)) by (nonlinear_arith)
                    requires
                        pos.0 as nat % pow2(d) == 0,
                        map_x == pos.0 as nat / pow2(d),
                        pow2(d) > 0,
                ;
                assert(pos.2 as nat == pow2(d) * (map_y as nat)) by (nonlinear_arith)
                    requires
                        pos.2 as nat % pow2(d) == 0,
                        map_y == pos.2 as nat / pow2(d),
                        pow2(d) > 0,
                ;
                assert(pow2(d) * pow2((hm_size - d) as nat) == pow2(hm_size)) by {
                    vstd::arithmetic::power2::lemma_pow2_adds(d, (hm_size - d) as nat);
                }
                assert((map_x as int) < pow2((hm_size - d) as nat) && (map_y as int) < pow2(
                    (hm_size - d) as nat)) by (nonlinear_arith)
                    requires
                        pos.0 as nat == pow2(d) * (map_x as nat),
                        pos.2 as nat == pow2(d) * (map_y as nat),
                        pos.0 as nat + pow2(d) <= pow2(hm_size),
                        pos.2 as nat + pow2(d) <= pow2(hm_size),
                        pow2(d) * pow2((hm_size - d) as nat) == pow2(hm_size),
                        pow2(d) > 0,
                ;
                assert(pyramid_view(highest_point_res@)[d as int] == grid_view(
                    highest_point_res@[d as int],
                ));
                assert(pyramid_view(lowest_point_res@)[d as int] == grid_view(
                    lowest_point_res@[d as int],
                ));
                assert(grid_dims(pyramid_view(highest_point_res@)[d as int], pow2((hm_size - d) as nat)));
                assert(grid_dims(pyramid_view(lowest_point_res@)[d as int], pow2((hm_size - d) as nat)));
                assert(grid_view(highest_point_res@[d as int])[mxi]
                    == highest_point_res@[d as int]@[mxi]@);
                assert(grid_view(lowest_point_res@[d as int])[mxi]
                    == lowest_point_res@[d as int]@[mxi]@);
                assert(pow2((hm_size - d) as nat) <= pow2(hm_size)) by {
                    if d > 0 {
                        vstd::arithmetic::power2::lemma_pow2_strictly_increases(
                            (hm_size - d) as nat,
                            hm_size,
                        );
                    }
                }
            }
            let highest_point = highest_point_res[delta as usize][map_x as usize][map_y as usize];
            let lowest_point = lowest_point_res[delta as usize][map_x as usize][map_y as usize];
            let ghost mx_cell = pyramid_view(highest_point_res@)[d as int][mxi][myi];
            let ghost mn_cell = pyramid_view(lowest_point_res@)[d as int][mxi][myi];
            proof {
                assert(highest_point == mx_cell);
                assert(lowest_point == mn_cell);
            }
            if highest_point <= pos.1 as i128 {
                self.content = OctreeContent::Voxel(Voxel::Empty);
                proof {
                    assert forall|q: OctreePosition| #[trigger]
                        voxel_at(self@, self.size as nat, q) == terrain_voxel(
                            hm0,
                            bs,
                            d,
                            pos,
                            q,
                        ) by {
                        let ox = ((q.0 as nat / pow2(bs)) % pow2(d)) as int;
                        let oy = ((q.1 as nat / pow2(bs)) % pow2(d)) as int;
                        let oz = ((q.2 as nat / pow2(bs)) % pow2(d)) as int;
                        assert(0 <= ox < pow2(d) && 0 <= oy < pow2(d) && 0 <= oz < pow2(d)) by {
                            vstd::arithmetic::div_mod::lemma_mod_division_less_than_divisor(
                                (q.0 as nat / pow2(bs)) as int,
                                pow2(d) as int,
                            );
                            vstd::arithmetic::div_mod::lemma_mod_division_less_than_divisor(
                                (q.1 as nat / pow2(bs)) as int,
                                pow2(d) as int,
                            );
                            vstd::arithmetic::div_mod::lemma_mod_division_less_than_divisor(
                                (q.2 as nat / pow2(bs)) as int,
                                pow2(d) as int,
                            );
                        }
                        let bx = pos.0 as int + ox;
                        let bz = pos.2 as int + oz;
                        assert(mxi * pow2(d) <= bx < (mxi + 1) * pow2(d) && myi * pow2(d) <= bz < (
                        myi + 1) * pow2(d)) by (nonlinear_arith)
                            requires
                                pos.0 as nat == pow2(d) * (map_x as nat),
                                pos.2 as nat == pow2(d) * (map_y as nat),
                                mxi == map_x as int,
                                myi == map_y as int,
                                bx == pos.0 as int + ox,
                                bz == pos.2 as int + oz,
                                0 <= ox < pow2(d),
                                0 <= oz < pow2(d),
                        ;
                        lemma_pyramid_cell_le(
                            pyramid_view(highest_point_res@),
                            hm_size,
                            d,
                            mxi,
                            myi,
                            bx,
                            bz,
                        );
                        assert(hm0[bx][bz] <= mx_cell);
                    }
                }
            } else if lowest_point >= pos.1 as i128 + (p2delta as i128) {
                self.content = OctreeContent::Voxel(Voxel::Stone);
                proof {
                    assert forall|q: OctreePosition| #[trigger]
                        voxel_at(self@, self.size as nat, q) == terrain_voxel(
                            hm0,
                            bs,
                            d,
                            pos,
                            q,
                        ) by {
                        let ox = ((q.0 as nat / pow2(bs)) % pow2(d)) as int;
                        let oy = ((q.1 as nat / pow2(bs)) % pow2(d)) as int;
                        let oz = ((q.2 as nat / pow2(bs)) % pow2(d)) as int;
                        assert(0 <= ox < pow2(d) && 0 <= oy < pow2(d) && 0 <= oz < pow2(d)) by {
                            vstd::arithmetic::div_mod::lemma_mod_division_less_than_divisor(
                                (q.0 as nat / pow2(bs)) as int,
                                pow2(d) as int,
                            );
                            vstd::arithmetic::div_mod::lemma_mod_division_less_than_divisor(
                                (q.1 as nat / pow2(bs)) as int,
                                pow2(d) as int,
                            );
                            vstd::arithmetic::div_mod::lemma_mod_division_less_than_divisor(
                                (q.2 as nat / pow2(bs)) as int,
                                pow2(d) as int,
                            );
                        }
                        let bx = pos.0 as int + ox;
                        let bz = pos.2 as int + oz;
                        assert(mxi * pow2(d) <= bx < (mxi + 1) * pow2(d) && myi * pow2(d) <= bz < (
                        myi + 1) * pow2(d)) by (nonlinear_arith)
                            requires
                                pos.0 as nat == pow2(d) * (map_x as nat),
                                pos.2 as nat == pow2(d) * (map_y as nat),
                                mxi == map_x as int,
                                myi == map_y as int,
                                bx == pos.0 as int + ox,
                                bz == pos.2 as int + oz,
                                0 <= ox < pow2(d),
                                0 <= oz < pow2(d),
                        ;
                        lemma_pyramid_cell_ge(
                            pyramid_view(lowest_point_res@),
                            hm_size,
                            d,
                            mxi,
                            myi,
                            bx,
                            bz,
                        );
                        assert(hm0[bx][bz] >= mn_cell) by {
                            assert(pyramid_view(lowest_point_res@)[0] == hm0);
                        }
                    }
                }
            } else {
                let v0 = match &self.content {
                    OctreeContent::Voxel(v) => *v,
                    OctreeContent::Childs(_) => vstd::pervasive::unreached(),
                };
                let child_size = self.size - 1;
                let half = 1u64 << ((delta - 1) as u64);
                proof {
                    vstd::bits::lemma_u64_pow2_no_overflow((d - 1) as nat);
                    vstd::bits::lemma_u64_shl_is_mul(1u64, (delta - 1) as u64);
                    assert(half == pow2((d - 1) as nat));
                    vstd::arithmetic::power2::lemma_pow2_unfold(d);
                    vstd::arithmetic::power2::lemma_pow2_pos((d - 1) as nat);
                }
                let ghost old_self = *self;
                let mut cs: Vec<Octree> = Vec::new();
                let mut i: usize = 0;
                while i < 8
                    invariant
                        i <= 8,
                        cs@.len() == i,
                        old_self == *old(self),
                        old_self.well_formed(),
                        block_size <= old_self.size,
                        old_self.size > block_size,
                        child_size == old_self.size - 1,
                        delta == old_self.size - block_size,
                        d == delta as nat,
                        bs == block_size as nat,
                        hm_size == (lowest_point_res@.len() - 1) as nat,
                        hm0 == pyramid_view(highest_point_res@)[0],
                        pyramids_ok_for(lowest_point_res@, highest_point_res@),
                        old_self.size - block_size < lowest_point_res@.len(),
                        block_pos_ok(pos, d, hm_size),
                        half == pow2((d - 1) as nat),
                        pow2(d) == 2 * half,
                        half >= 1,
                        forall|j: int|
                            0 <= j < i ==> (#[trigger] cs@[j]).size == child_size
                                && cs@[j].well_formed(),
                        forall|j: int, q: OctreePosition|
                            0 <= j < i ==> #[trigger] voxel_at(cs@[j]@, child_size as nat, q)
                                == terrain_voxel(
                                hm0,
                                bs,
                                (d - 1) as nat,
                                child_block_pos(pos, d, j),
                                q,
                            ),
                    decreases 8 - i,
                {
                    let ox: u64 = if i % 2 == 1 { half } else { 0 };
                    let oy: u64 = if (i / 2) % 2 == 1 { half } else { 0 };
                    let oz: u64 = if (i / 4) % 2 == 1 { half } else { 0 };
                    let ghost b0: int = if i % 2 == 1 { 1 } else { 0 };
                    let ghost b1: int = if (i / 2) % 2 == 1 { 1 } else { 0 };
                    let ghost b2: int = if (i / 4) % 2 == 1 { 1 } else { 0 };
                    proof {
                        vstd::bits::lemma_u64_pow2_no_overflow(hm_size);
                    }
                    let cpos = OctreePosition(pos.0 + ox, pos.1 + oy, pos.2 + oz);
                    let mut c = Octree::new(child_size, Some(v0));
                    proof {
                        assert(b0 == i as int % 2 && b1 == (i as int / 2) % 2 && b2 == (i as int
                            / 4) % 2);
                        assert(ox as int == b0 * half && oy as int == b1 * half && oz as int == b2
                            * half) by (nonlinear_arith)
                            requires
                                b0 == 0 || b0 == 1,
                                b1 == 0 || b1 == 1,
                                b2 == 0 || b2 == 1,
                                ox == (if b0 == 1 { half } else { 0u64 }),
                                oy == (if b1 == 1 { half } else { 0u64 }),
                                oz == (if b2 == 1 { half } else { 0u64 }),
                        ;
                        assert(cpos == child_block_pos(pos, d, i as int));
                        assert(block_pos_ok(cpos, (d - 1) as nat, hm_size)) by {
                            let h = pow2((d - 1) as nat) as int;
                            vstd::arithmetic::div_mod::lemma_mod_mod(pos.0 as int, h, 2);
                            vstd::arithmetic::div_mod::lemma_mod_mod(pos.1 as int, h, 2);
                            vstd::arithmetic::div_mod::lemma_mod_mod(pos.2 as int, h, 2);
                            assert(pow2(d) as int == h * 2);
                            assert(pos.0 as int % h == 0);
                            assert(pos.1 as int % h == 0);
                            assert(pos.2 as int % h == 0);
                            vstd::arithmetic::div_mod::lemma_mod_add_multiples_vanish(
                                pos.0 as int,
                                h,
                            );
                            vstd::arithmetic::div_mod::lemma_mod_add_multiples_vanish(
                                pos.1 as int,
                                h,
                            );
                            vstd::arithmetic::div_mod::lemma_mod_add_multiples_vanish(
                                pos.2 as int,
                                h,
                            );
                            assert(cpos.0 as int % h == 0);
                            assert(cpos.1 as int % h == 0);
                            assert(cpos.2 as int % h == 0);
                            assert(cpos.0 as nat + pow2((d - 1) as nat) <= pow2(hm_size));
                            assert(cpos.1 as nat + pow2((d - 1) as nat) <= pow2(hm_size));
                            assert(cpos.2 as nat + pow2((d - 1) as nat) <= pow2(hm_size));
                        }
                    }
                    c.apply_res_heigh_map(block_size, cpos, lowest_point_res, highest_point_res);
                    cs.push(c);
                    i += 1;
                }
                self.content = OctreeContent::Childs(cs);
                proof {
                    assert(self.well_formed());
                    assert forall|q: OctreePosition| #[trigger]
                        voxel_at(self@, self.size as nat, q) == terrain_voxel(
                            hm0,
                            bs,
                            d,
                            pos,
                            q,
                        ) by {
                        let oct = crate::position::octant_at(q, (self.size - 1) as nat);
                        assert(0 <= oct < 8);
                        assert(views_of(cs@)[oct] == cs@[oct]@);
                        assert(voxel_at(self@, self.size as nat, q) == voxel_at(
                            cs@[oct]@,
                            child_size as nat,
                            q,
                        ));
                        assert(voxel_at(cs@[oct]@, child_size as nat, q) == terrain_voxel(
                            hm0,
                            bs,
                            (d - 1) as nat,
                            child_block_pos(pos, d, oct),
                            q,
                        ));
                        lemma_terrain_child(hm0, bs, d, pos, q, oct);
                    }
                }
            }
        }
    }
}

impl Octree {
    /// Fill the whole tree from a per-column heightmap sampled at block
    /// resolution: build the min and max pyramids, then decide regions
    /// top-down.  A chunk entirely below the surface becomes one stone
    /// leaf, one entirely above becomes one empty leaf, and only a chunk
    /// straddling the surface splits at all.
    pub fn fill_with_heigh_map(&mut self, heigh_map: Vec<Vec<i128>>, block_size: u8)
        requires
            old(self).well_formed(),
            block_size <= old(self).size,
            grid_dims(grid_view(heigh_map), pow2((old(self).size - block_size) as nat)),
            pow2((old(self).size - block_size) as nat) <= usize::MAX,
        ensures
            final(self).size == old(self).size,
            final(self).well_formed(),
            forall|q: OctreePosition| #[trigger]
                voxel_at(final(self)@, final(self).size as nat, q) == terrain_voxel(
                    grid_view(heigh_map),
                    block_size as nat,
                    (old(self).size - block_size) as nat,
                    OctreePosition(0, 0, 0),
                    q,
                ),
            old(self).size > block_size ==> ({
                let delta = (old(self).size - block_size) as nat;
                let n = pow2(delta);
                &&& (grid_le(grid_view(heigh_map), n, 0) ==> final(self)@ == OctreeView::Voxel(
                    Voxel::Empty,
                ))
                &&& (!grid_le(grid_view(heigh_map), n, 0) && grid_ge(
                    grid_view(heigh_map),
                    n,
                    n as int,
                ) ==> final(self)@ == OctreeView::Voxel(Voxel::Stone))
                &&& (!grid_le(grid_view(heigh_map), n, 0) && !grid_ge(
                    grid_view(heigh_map),
                    n,
                    n as int,
                ) ==> (final(self)@ matches OctreeView::Childs(_)))
            }),
    {
        let delta = self.size - block_size;
        let ghost d = delta as nat;
        let ghost base = grid_view(heigh_map);
        self.content = OctreeContent::Voxel(Voxel::Empty);
        let (lowest_point_res, highest_point_res) = Self::generate_res_high_maps(heigh_map, delta);
        proof {
            vstd::arithmetic::power2::lemma_pow2_pos(d);
            assert(pyramids_ok_for(lowest_point_res@, highest_point_res@));
            assert(block_pos_ok(OctreePosition(0, 0, 0), d, d)) by {
                vstd::arithmetic::div_mod::lemma_small_mod(0, pow2(d));
            }
        }
        self.apply_res_heigh_map(
            block_size,
            OctreePosition(0, 0, 0),
            &lowest_point_res,
            &highest_point_res,
        );
        proof {
            if delta > 0 {
                let pyr_hi = pyramid_view(highest_point_res@);
                let pyr_lo = pyramid_view(lowest_point_res@);
                let n = pow2(d);
                assert(0nat / pow2(d) == 0) by {
                    vstd::arithmetic::div_mod::lemma_basic_div(0, pow2(d) as int);
                }
                let mx = pyr_hi[d as int][0][0];
                let mn = pyr_lo[d as int][0][0];
                assert(pow2((d - d) as nat) == 1) by {
                    vstd::arithmetic::power2::lemma2_to64();
                }
                if grid_le(base, n, 0) {
                    lemma_pyramid_level_bound(pyr_hi, d, true, d, 0);
                    assert(mx <= 0);
                }
                if !grid_le(base, n, 0) {
                    let (wj, wk): (int, int) = choose|wj: int, wk: int|
                        0 <= wj < n && 0 <= wk < n && !(#[trigger] base[wj][wk] <= 0);
                    lemma_pyramid_cell_le(pyr_hi, d, d, 0, 0, wj, wk);
                    assert(base[wj][wk] <= mx) by (nonlinear_arith)
                        requires
                            pyr_hi[0][wj][wk] <= mx,
                            pyr_hi[0] == base,
                            0 * pow2(d) <= wj < (0 + 1) * pow2(d),
                            0 * pow2(d) <= wk < (0 + 1) * pow2(d),
                    ;
                    assert(mx > 0);
                }
                if grid_ge(base, n, n as int) {
                    lemma_pyramid_level_bound(pyr_lo, d, false, d, n as int);
                    assert(mn >= n as int);
                }
                if !grid_ge(base, n, n as int) {
                    let (wj, wk): (int, int) = choose|wj: int, wk: int|
                        0 <= wj < n && 0 <= wk < n && !(#[trigger] base[wj][wk] >= n as int);
                    lemma_pyramid_cell_ge(pyr_lo, d, d, 0, 0, wj, wk);
                    assert(mn < n as int);
                }
                assert(grid_le(base, n, 0) ==> self@ == OctreeView::Voxel(Voxel::Empty));
            }
        }
    }
}
} // verus!
