//! Cartesian cell positions and the interleaved (Morton) index that orders
//! the traversal of an octree.

use vstd::prelude::*;
use vstd::arithmetic::power2::pow2;
use vstd::bits::{lemma_u64_shr_is_div, lemma_u64_shl_is_mul, lemma_u64_pow2_no_overflow};

verus! {

/// A cell position inside an octree: three coordinates, each addressing one
/// size-0 cell along its axis.
#[derive(Debug, Clone, Copy, PartialEq, Eq, Structural)]
pub struct OctreePosition(pub u64, pub u64, pub u64);

/// Bit `k` of a coordinate, as 0 or 1.
pub open spec fn coord_bit(c: u64, k: nat) -> int {
    ((c as nat / pow2(k)) % 2) as int
}

/// The octant that position `p` selects at bit plane `k`: bit `k` of the x
/// coordinate, of the y coordinate doubled, and of the z coordinate
/// quadrupled, together a value in `0..8`.
pub open spec fn octant_at(p: OctreePosition, k: nat) -> int {
    coord_bit(p.0, k) + 2 * coord_bit(p.1, k) + 4 * coord_bit(p.2, k)
}

/// `p` and `q` lie in the same cube of size `low` within a tree of size
/// `high`: they agree on every octant choice from `low` up to `high`.
pub open spec fn same_cube(p: OctreePosition, q: OctreePosition, low: nat, high: nat) -> bool {
    forall|k: nat| low <= k < high ==> octant_at(p, k) == octant_at(q, k)
}

/// The interleaved index of three coordinates: each level contributes its
/// octant value, weighted by the eight-fold weight of the level.
pub open spec fn morton(x: nat, y: nat, z: nat) -> nat
    decreases x + y + z,
{
    if x == 0 && y == 0 && z == 0 {
        0
    } else {
        x % 2 + 2 * (y % 2) + 4 * (z % 2) + 8 * morton(x / 2, y / 2, z / 2)
    }
}

/// The interleaved index of a position.
pub open spec fn pos_morton(p: OctreePosition) -> nat {
    morton(p.0 as nat, p.1 as nat, p.2 as nat)
}

/// `8^k`, the number of size-0 cells in a cube of size `k`, and the weight
/// of bit plane `k` in the interleaved index.
pub open spec fn pow8(k: nat) -> nat
    decreases k,
{
    if k == 0 {
        1
    } else {
        8 * pow8((k - 1) as nat)
    }
}

/// One unfolding of `morton`, valid for every argument triple.
proof fn lemma_morton_unfold(x: nat, y: nat, z: nat)
    ensures
        morton(x, y, z) == x % 2 + 2 * (y % 2) + 4 * (z % 2) + 8 * morton(x / 2, y / 2, z / 2),
{
    if x == 0 && y == 0 && z == 0 {
        assert(morton(0, 0, 0) == 0);
    }
}

/// Raising a clear bit of the x coordinate adds the weight of its level to
/// the interleaved index.
proof fn lemma_morton_add_x(x: nat, y: nat, z: nat, k: nat)
    requires
        (x / pow2(k)) % 2 == 0,
    ensures
        morton(x + pow2(k), y, z) == morton(x, y, z) + pow8(k),
    decreases k,
{
    vstd::arithmetic::power2::lemma_pow2_pos(k);
    vstd::arithmetic::div_mod::lemma_fundamental_div_mod(x as int, 2);
    if k == 0 {
        vstd::arithmetic::power2::lemma2_to64();
        assert(x as int / 1 == x as int) by (nonlinear_arith);
        lemma_morton_unfold(x + 1, y, z);
        lemma_morton_unfold(x, y, z);
        vstd::arithmetic::div_mod::lemma_fundamental_div_mod_converse_div(
            x as int + 1,
            2,
            x as int / 2,
            1,
        );
        vstd::arithmetic::div_mod::lemma_fundamental_div_mod_converse_mod(
            x as int + 1,
            2,
            x as int / 2,
            1,
        );
    } else {
        let c = pow2((k - 1) as nat);
        vstd::arithmetic::power2::lemma_pow2_unfold(k);
        vstd::arithmetic::power2::lemma_pow2_pos((k - 1) as nat);
        lemma_morton_unfold(x + pow2(k), y, z);
        lemma_morton_unfold(x, y, z);
        vstd::arithmetic::div_mod::lemma_fundamental_div_mod_converse_div(
            x as int + 2 * c,
            2,
            x as int / 2 + c,
            x as int % 2,
        );
        vstd::arithmetic::div_mod::lemma_fundamental_div_mod_converse_mod(
            x as int + 2 * c,
            2,
            x as int / 2 + c,
            x as int % 2,
        );
        vstd::arithmetic::div_mod::lemma_div_denominator(x as int, 2, c as int);
        lemma_morton_add_x(x / 2, y / 2, z / 2, (k - 1) as nat);
    }
}

/// Raising a clear bit of the y coordinate adds twice the weight of its
/// level to the interleaved index.
proof fn lemma_morton_add_y(x: nat, y: nat, z: nat, k: nat)
    requires
        (y / pow2(k)) % 2 == 0,
    ensures
        morton(x, y + pow2(k), z) == morton(x, y, z) + 2 * pow8(k),
    decreases k,
{
    vstd::arithmetic::power2::lemma_pow2_pos(k);
    vstd::arithmetic::div_mod::lemma_fundamental_div_mod(y as int, 2);
    if k == 0 {
        vstd::arithmetic::power2::lemma2_to64();
        assert(y as int / 1 == y as int) by (nonlinear_arith);
        lemma_morton_unfold(x, y + 1, z);
        lemma_morton_unfold(x, y, z);
        vstd::arithmetic::div_mod::lemma_fundamental_div_mod_converse_div(
            y as int + 1,
            2,
            y as int / 2,
            1,
        );
        vstd::arithmetic::div_mod::lemma_fundamental_div_mod_converse_mod(
            y as int + 1,
            2,
            y as int / 2,
            1,
        );
    } else {
        let c = pow2((k - 1) as nat);
        vstd::arithmetic::power2::lemma_pow2_unfold(k);
        vstd::arithmetic::power2::lemma_pow2_pos((k - 1) as nat);
        lemma_morton_unfold(x, y + pow2(k), z);
        lemma_morton_unfold(x, y, z);
        vstd::arithmetic::div_mod::lemma_fundamental_div_mod_converse_div(
            y as int + 2 * c,
            2,
            y as int / 2 + c,
            y as int % 2,
        );
        vstd::arithmetic::div_mod::lemma_fundamental_div_mod_converse_mod(
            y as int + 2 * c,
            2,
            y as int / 2 + c,
            y as int % 2,
        );
        vstd::arithmetic::div_mod::lemma_div_denominator(y as int, 2, c as int);
        lemma_morton_add_y(x / 2, y / 2, z / 2, (k - 1) as nat);
    }
}

/// Raising a clear bit of the z coordinate adds four times the weight of
/// its level to the interleaved index.
proof fn lemma_morton_add_z(x: nat, y: nat, z: nat, k: nat)
    requires
        (z / pow2(k)) % 2 == 0,
    ensures
        morton(x, y, z + pow2(k)) == morton(x, y, z) + 4 * pow8(k),
    decreases k,
{
    vstd::arithmetic::power2::lemma_pow2_pos(k);
    vstd::arithmetic::div_mod::lemma_fundamental_div_mod(z as int, 2);
    if k == 0 {
        vstd::arithmetic::power2::lemma2_to64();
        assert(z as int / 1 == z as int) by (nonlinear_arith);
        lemma_morton_unfold(x, y, z + 1);
        lemma_morton_unfold(x, y, z);
        vstd::arithmetic::div_mod::lemma_fundamental_div_mod_converse_div(
            z as int + 1,
            2,
            z as int / 2,
            1,
        );
        vstd::arithmetic::div_mod::lemma_fundamental_div_mod_converse_mod(
            z as int + 1,
            2,
            z as int / 2,
            1,
        );
    } else {
        let c = pow2((k - 1) as nat);
        vstd::arithmetic::power2::lemma_pow2_unfold(k);
        vstd::arithmetic::power2::lemma_pow2_pos((k - 1) as nat);
        lemma_morton_unfold(x, y, z + pow2(k));
        lemma_morton_unfold(x, y, z);
        vstd::arithmetic::div_mod::lemma_fundamental_div_mod_converse_div(
            z as int + 2 * c,
            2,
            z as int / 2 + c,
            z as int % 2,
        );
        vstd::arithmetic::div_mod::lemma_fundamental_div_mod_converse_mod(
            z as int + 2 * c,
            2,
            z as int / 2 + c,
            z as int % 2,
        );
        vstd::arithmetic::div_mod::lemma_div_denominator(z as int, 2, c as int);
        lemma_morton_add_z(x / 2, y / 2, z / 2, (k - 1) as nat);
    }
}

/// Test bit `k` of a coordinate.
fn bit_at(c: u64, k: u64) -> (b: bool)
    requires
        k < 64,
    ensures
        b <==> coord_bit(c, k as nat) == 1,
        !b <==> coord_bit(c, k as nat) == 0,
    {
    proof {
        lemma_u64_shr_is_div(c, k);
        assert(forall|w: u64| #[trigger] (w & 1) == w % 2) by (bit_vector);
    }
    ((c >> k) & 1) == 1
}

/// A set bit can be taken away: the coordinate is at least the bit's
/// weight, and the bit of the difference is clear.
proof fn lemma_bit_set_sub(c: u64, k: nat)
    requires
        k < 64,
        coord_bit(c, k) == 1,
    ensures
        c as nat >= pow2(k),
        coord_bit((c - pow2(k)) as u64, k) == 0,
{
    let p = pow2(k) as int;
    let q = c as int / p;
    let r = c as int % p;
    vstd::bits::lemma_u64_pow2_no_overflow(k);
    vstd::arithmetic::div_mod::lemma_fundamental_div_mod(c as int, p);
    vstd::arithmetic::div_mod::lemma_fundamental_div_mod(q, 2);
    assert(q % 2 == 1);
    assert(c as int == p * q + r && 0 <= r < p);
    assert(q >= 1);
    assert(c as int - p == p * (q - 1) + r) by (nonlinear_arith)
        requires
            c as int == p * q + r,
    ;
    vstd::arithmetic::div_mod::lemma_fundamental_div_mod_converse_div(c as int - p, p, q - 1, r);
    let s = q / 2;
    assert(q == 2 * s + 1);
    vstd::arithmetic::div_mod::lemma_fundamental_div_mod_converse_mod(q - 1, 2, s, 0);
}

/// A clear bit can be raised: the sum still fits in the coordinate, and the
/// bit of the sum is set.
proof fn lemma_bit_clear_add(c: u64, k: nat)
    requires
        k < 64,
        coord_bit(c, k) == 0,
    ensures
        c as nat + pow2(k) <= u64::MAX as nat,
        coord_bit((c + pow2(k)) as u64, k) == 1,
{
    let p = pow2(k) as int;
    let q = c as int / p;
    let r = c as int % p;
    vstd::bits::lemma_u64_pow2_no_overflow(k);
    vstd::arithmetic::div_mod::lemma_fundamental_div_mod(c as int, p);
    assert(q % 2 == 0);
    assert(c as int == p * q + r && 0 <= r < p);
    let hi = pow2((64 - k) as nat) as int;
    vstd::arithmetic::power2::lemma_pow2_pos((64 - k) as nat);
    assert(p * hi == 0x1_0000_0000_0000_0000) by {
        vstd::arithmetic::power2::lemma_pow2_adds(k, (64 - k) as nat);
        vstd::arithmetic::power2::lemma2_to64_rest();
        vstd::arithmetic::power2::lemma2_to64();
    }
    assert(c as int == p * q + r);
    assert(0 <= r);
    assert((c as int) < p * hi);
    assert(p > 0);
    assert(hi > 0);
    assert(q < hi) by (nonlinear_arith)
        requires
            c as int == p * q + r,
            0 <= r,
            (c as int) < p * hi,
            p > 0,
            hi > 0,
    ;
    let s = q / 2;
    vstd::arithmetic::div_mod::lemma_fundamental_div_mod(q, 2);
    assert(q == 2 * s);
    assert(hi % 2 == 0) by {
        vstd::arithmetic::power2::lemma_pow2_unfold((64 - k) as nat);
        let h2 = pow2((64 - k - 1) as nat) as int;
        vstd::arithmetic::div_mod::lemma_fundamental_div_mod_converse_mod(2 * h2, 2, h2, 0);
    }
    assert(q + 1 < hi);
    assert(c as int + p == p * (q + 1) + r) by (nonlinear_arith)
        requires
            c as int == p * q + r,
    ;
    assert(p * (q + 1) + r < p * hi) by (nonlinear_arith)
        requires
            q + 1 < hi,
            0 <= r < p,
            p > 0,
    ;
    vstd::arithmetic::div_mod::lemma_fundamental_div_mod_converse_div(c as int + p, p, q + 1, r);
    vstd::arithmetic::div_mod::lemma_fundamental_div_mod_converse_mod(q + 1, 2, q / 2, 1);
}

/// Bit 63 of a coordinate below `2^63` is clear.
proof fn lemma_high_bit_clear(c: u64)
    requires
        c < 0x8000_0000_0000_0000u64,
    ensures
        coord_bit(c, 63) == 0,
{
    vstd::arithmetic::power2::lemma2_to64_rest();
    vstd::arithmetic::div_mod::lemma_basic_div(c as int, pow2(63) as int);
}

impl OctreePosition {
    /// The child octant this position selects at bit plane `size`.
    pub fn get_child_indice(&self, size: u8) -> (r: usize)
        requires
            size < 64,
        ensures
            r == octant_at(*self, size as nat),
            r < 8,
    {
        proof {
            lemma_u64_shr_is_div(self.0, size as u64);
            lemma_u64_shr_is_div(self.1, size as u64);
            lemma_u64_shr_is_div(self.2, size as u64);
            assert(forall|c: u64| #[trigger] (c & 1) == c % 2) by (bit_vector);
        }
        let b0 = (self.0 >> (size as u64)) & 1;
        let b1 = (self.1 >> (size as u64)) & 1;
        let b2 = (self.2 >> (size as u64)) & 1;
        proof {
            vstd::arithmetic::power2::lemma2_to64();
            lemma_u64_shl_is_mul(b1, 1);
            lemma_u64_shl_is_mul(b2, 2);
        }
        (b0 + (b1 << 1u64) + (b2 << 2u64)) as usize
    }

    /// Step past the cube of the given size that this position points at,
    /// in interleaved order: clear the run of bit planes, starting at
    /// `size`, on which all three coordinates carry, then advance the
    /// octant where the carry stops.  The interleaved index grows by
    /// exactly the cube's cell count, `8^size`.
    pub fn morton_increment(&mut self, size: u8)
        requires
            size <= 63,
            old(self).0 < 0x8000_0000_0000_0000u64,
            old(self).1 < 0x8000_0000_0000_0000u64,
            old(self).2 < 0x8000_0000_0000_0000u64,
        ensures
            pos_morton(*final(self)) == pos_morton(*old(self)) + pow8(size as nat),
    {
        let ghost m0 = pos_morton(*old(self));
        let mut k: u64 = size as u64;
        loop
            invariant
                size as u64 <= k <= 63,
                self.0 < 0x8000_0000_0000_0000u64,
                self.1 < 0x8000_0000_0000_0000u64,
                self.2 < 0x8000_0000_0000_0000u64,
                pos_morton(*self) + pow8(k as nat) == m0 + pow8(size as nat),
            ensures
                k <= 63,
                pos_morton(*self) + pow8(k as nat) == m0 + pow8(size as nat),
                !(coord_bit(self.0, k as nat) == 1 && coord_bit(self.1, k as nat) == 1
                    && coord_bit(self.2, k as nat) == 1),
            decreases 64 - k,
        {
            let bx = bit_at(self.0, k);
            let by = bit_at(self.1, k);
            let bz = bit_at(self.2, k);
            if !(bx && by && bz) {
                break ;
            }
            proof {
                if k == 63 {
                    lemma_high_bit_clear(self.0);
                }
                lemma_u64_pow2_no_overflow(k as nat);
                lemma_u64_shl_is_mul(1u64, k);
                lemma_bit_set_sub(self.0, k as nat);
                lemma_bit_set_sub(self.1, k as nat);
                lemma_bit_set_sub(self.2, k as nat);
                lemma_morton_add_x(
                    (self.0 as nat - pow2(k as nat)) as nat,
                    self.1 as nat,
                    self.2 as nat,
                    k as nat,
                );
                lemma_morton_add_y(
                    (self.0 as nat - pow2(k as nat)) as nat,
                    (self.1 as nat - pow2(k as nat)) as nat,
                    self.2 as nat,
                    k as nat,
                );
                lemma_morton_add_z(
                    (self.0 as nat - pow2(k as nat)) as nat,
                    (self.1 as nat - pow2(k as nat)) as nat,
                    (self.2 as nat - pow2(k as nat)) as nat,
                    k as nat,
                );
            }
            let p = 1u64 << k;
            self.0 = self.0 - p;
            self.1 = self.1 - p;
            self.2 = self.2 - p;
            proof {
                assert(pow8((k + 1) as nat) == 8 * pow8(k as nat));
            }
            k = k + 1;
        }
        proof {
            lemma_u64_pow2_no_overflow(k as nat);
            lemma_u64_shl_is_mul(1u64, k);
        }
        let p = 1u64 << k;
        let bx = bit_at(self.0, k);
        let by = bit_at(self.1, k);
        let bz = bit_at(self.2, k);
        let o: u64 = (if bx { 1 } else { 0 }) + (if by { 2 } else { 0 }) + (if bz { 4 } else { 0 });
        let no: u64 = o + 1;
        let ghost m1 = pos_morton(*self);
        let ghost gb0: int = if bx { 1 } else { 0 };
        let ghost gb1: int = if by { 1 } else { 0 };
        let ghost gb2: int = if bz { 1 } else { 0 };
        let ghost gn0: int = (no % 2) as int;
        let ghost gn1: int = ((no / 2) % 2) as int;
        let ghost gn2: int = ((no / 4) % 2) as int;
        proof {
            assert(o <= 6 && no == o + 1 ==> (no % 2) + 2 * ((no / 2) % 2) + 4 * ((no / 4) % 2)
                == no) by (bit_vector);
            assert(no % 2 < 2 && (no / 2) % 2 < 2 && (no / 4) % 2 < 2) by (bit_vector);
        }
        if bx {
            proof {
                lemma_bit_set_sub(self.0, k as nat);
                lemma_morton_add_x(
                    (self.0 as nat - pow2(k as nat)) as nat,
                    self.1 as nat,
                    self.2 as nat,
                    k as nat,
                );
            }
            self.0 = self.0 - p;
        }
        if no % 2 == 1 {
            proof {
                lemma_bit_clear_add(self.0, k as nat);
                lemma_morton_add_x(self.0 as nat, self.1 as nat, self.2 as nat, k as nat);
            }
            self.0 = self.0 + p;
        }
        let ghost d1: int = if gn0 == gb0 {
            0
        } else if gn0 == 1 {
            pow8(k as nat) as int
        } else {
            -(pow8(k as nat) as int)
        };
        proof {
            assert(pos_morton(*self) as int == m1 as int + d1);
        }
        if by {
            proof {
                lemma_bit_set_sub(self.1, k as nat);
                lemma_morton_add_y(
                    self.0 as nat,
                    (self.1 as nat - pow2(k as nat)) as nat,
                    self.2 as nat,
                    k as nat,
                );
            }
            self.1 = self.1 - p;
        }
        if (no / 2) % 2 == 1 {
            proof {
                lemma_bit_clear_add(self.1, k as nat);
                lemma_morton_add_y(self.0 as nat, self.1 as nat, self.2 as nat, k as nat);
            }
            self.1 = self.1 + p;
        }
        let ghost d2: int = if gn1 == gb1 {
            0
        } else if gn1 == 1 {
            2 * pow8(k as nat) as int
        } else {
            -2 * pow8(k as nat) as int
        };
        proof {
            assert(pos_morton(*self) as int == m1 as int + d1 + d2);
        }
        if bz {
            proof {
                lemma_bit_set_sub(self.2, k as nat);
                lemma_morton_add_z(
                    self.0 as nat,
                    self.1 as nat,
                    (self.2 as nat - pow2(k as nat)) as nat,
                    k as nat,
                );
            }
            self.2 = self.2 - p;
        }
        if (no / 4) % 2 == 1 {
            proof {
                lemma_bit_clear_add(self.2, k as nat);
                lemma_morton_add_z(self.0 as nat, self.1 as nat, self.2 as nat, k as nat);
            }
            self.2 = self.2 + p;
        }
        let ghost d3: int = if gn2 == gb2 {
            0
        } else if gn2 == 1 {
            4 * pow8(k as nat) as int
        } else {
            -4 * pow8(k as nat) as int
        };
        proof {
            assert(pos_morton(*self) as int == m1 as int + d1 + d2 + d3);
            assert(o as int == gb0 + 2 * gb1 + 4 * gb2);
            assert(no as int == gn0 + 2 * gn1 + 4 * gn2);
            assert((gn0 - gb0) + 2 * (gn1 - gb1) + 4 * (gn2 - gb2) == 1);
            assert(d1 + d2 + d3 == pow8(k as nat) as int);
        }
    }
}

} // verus!
