//! Coordinates: the caller-facing signed voxel, the biased signed-to-unsigned
//! transform, and width-checked unsigned coordinates that give up one bit per
//! level of descent.

use vstd::arithmetic::power2::{lemma2_to64, lemma_pow2_pos, lemma_pow2_unfold, pow2};
use vstd::bits::{
    lemma_u32_low_bits_mask_is_mod, lemma_u32_pow2_no_overflow, lemma_u32_shl_is_mul,
    lemma_u32_shr_is_div, low_bits_mask,
};
use vstd::prelude::*;

verus! {

/// A tree depth, and the integer type every coordinate is stored in.
pub type Depth = u32;

/// What a leaf slot stores for an occupied voxel.
pub type PointData = u32;

/// The deepest tree whose coordinates still fit the coordinate type.
pub const MAX_DEPTH: Depth = 31;

/// Why a coordinate, a point or a tree could not be built or used.
#[derive(Clone, Copy, Debug, PartialEq, Eq, Structural)]
pub enum OctreeError {
    /// A coordinate lies outside the cube the tree covers.
    OutOfRange,
    /// Coordinates or nodes of different depths were combined.
    DepthMismatch,
    /// The requested depth needs more bits than a coordinate has.
    UnsupportedDepth,
}

/// A raw signed coordinate triple, not yet checked against any tree.
#[derive(Clone, Copy, Debug, PartialEq, Eq, Structural)]
pub struct Voxel {
    pub x: i32,
    pub y: i32,
    pub z: i32,
}

/// The biased absolute value: `n` itself when it is not negative, and
/// `-(n + 1)` when it is, so that `-1` and `0` both have magnitude zero.
pub open spec fn biased_abs(n: int) -> int {
    if n < 0 {
        -(n + 1)
    } else {
        n
    }
}

/// Whether `n` lies in the centred range `[-2^depth, 2^depth - 1]`.
pub open spec fn axis_in_range(depth: nat, n: int) -> bool {
    -pow2(depth) <= n < pow2(depth)
}

/// The unsigned index of a signed coordinate in a tree of the given depth:
/// the sign in bit `depth`, the biased magnitude in the bits below it.
pub open spec fn axis_index(depth: nat, n: int) -> nat {
    if n < 0 {
        (pow2(depth) + biased_abs(n)) as nat
    } else {
        n as nat
    }
}

/// The signed coordinate that has index `u` in a tree of the given depth.
pub open spec fn axis_coord(depth: nat, u: nat) -> int {
    if u < pow2(depth) {
        u as int
    } else {
        -((u - pow2(depth)) + 1)
    }
}

/// Whether every axis of `v` lies in the centred range of the given depth.
pub open spec fn voxel_in_range(depth: nat, v: Voxel) -> bool {
    &&& axis_in_range(depth, v.x as int)
    &&& axis_in_range(depth, v.y as int)
    &&& axis_in_range(depth, v.z as int)
}

/// The octant a triple of unsigned indices selects at a node of the given
/// depth: the bit at position `depth` of x, y and z, in that order.
pub open spec fn octant(depth: nat, x: nat, y: nat, z: nat) -> nat {
    4 * (x / pow2(depth)) + 2 * (y / pow2(depth)) + z / pow2(depth)
}

/// An unsigned coordinate together with the number of bits it may occupy.
#[derive(Clone, Copy, Debug)]
pub struct MaskUInt {
    bits: Depth,
    value: Depth,
}

impl MaskUInt {
    /// The number of bits this coordinate may occupy.
    pub closed spec fn spec_bits(self) -> nat {
        self.bits as nat
    }

    /// The coordinate's value.
    pub closed spec fn spec_value(self) -> nat {
        self.value as nat
    }

    /// The value fits the declared width, and the width fits the storage.
    pub open spec fn wf(self) -> bool {
        &&& self.spec_bits() <= 32
        &&& self.spec_value() < pow2(self.spec_bits())
    }

    /// Builds a coordinate of `bits` bits, rejecting a value that needs more.
    pub fn try_from(bits: Depth, value: Depth) -> (r: Result<MaskUInt, OctreeError>)
        ensures
            bits > 32 ==> r == Err::<MaskUInt, OctreeError>(OctreeError::UnsupportedDepth),
            bits <= 32 && value >= pow2(bits as nat) ==> r == Err::<MaskUInt, OctreeError>(
                OctreeError::OutOfRange,
            ),
            bits <= 32 && value < pow2(bits as nat) ==> r is Ok && r->Ok_0.wf()
                && r->Ok_0.spec_bits() == bits && r->Ok_0.spec_value() == value,
    {
        if bits > 32 {
            return Err(OctreeError::UnsupportedDepth);
        }
        if bits == 32 {
            proof {
                lemma2_to64();
            }
            return Ok(MaskUInt { bits, value });
        }
        proof {
            lemma_u32_pow2_no_overflow(bits as nat);
            lemma_u32_shl_is_mul(1u32, bits);
        }
        if value < (1u32 << bits) {
            Ok(MaskUInt { bits, value })
        } else {
            Err(OctreeError::OutOfRange)
        }
    }

    /// The number of bits this coordinate may occupy.
    pub fn bits(&self) -> (r: Depth)
        ensures
            r == self.spec_bits(),
    {
        self.bits
    }

    /// The coordinate's value.
    pub fn value(&self) -> (r: Depth)
        ensures
            r == self.spec_value(),
    {
        self.value
    }

    /// The most significant bit of the declared width: the bit that selects
    /// the octant at the current level.
    pub fn get_top_bit(&self) -> (r: Depth)
        requires
            self.wf(),
            self.spec_bits() >= 1,
        ensures
            r == self.spec_value() / pow2((self.spec_bits() - 1) as nat),
            r <= 1,
    {
        let shift: Depth = self.bits - 1;
        proof {
            lemma_u32_shr_is_div(self.value, shift);
            lemma_pow2_unfold(self.bits as nat);
            lemma_pow2_pos(shift as nat);
            lemma_div_below_two(self.value as nat, pow2(shift as nat));
        }
        self.value >> shift
    }

    /// The same coordinate one level down: the top bit is dropped and the
    /// width shrinks by one.
    pub fn remove_top_bit(self) -> (r: MaskUInt)
        requires
            self.wf(),
            self.spec_bits() >= 1,
        ensures
            r.wf(),
            r.spec_bits() == self.spec_bits() - 1,
            r.spec_value() == self.spec_value() % pow2((self.spec_bits() - 1) as nat),
    {
        let shift: Depth = self.bits - 1;
        proof {
            lemma_u32_pow2_no_overflow(shift as nat);
            lemma_u32_shl_is_mul(1u32, shift);
            lemma_u32_low_bits_mask_is_mod(self.value, shift as nat);
            lemma_pow2_pos(shift as nat);
            lemma_mod_below(self.value as nat, pow2(shift as nat));
        }
        let mask: Depth = (1u32 << shift) - 1;
        assert(mask == low_bits_mask(shift as nat) as u32);
        MaskUInt { bits: shift, value: self.value & mask }
    }
}

/// A position inside the region of one node: three coordinates of one width.
#[derive(Clone, Copy, Debug)]
pub struct OctreePoint {
    x: MaskUInt,
    y: MaskUInt,
    z: MaskUInt,
}

impl OctreePoint {
    /// The coordinate along the first axis.
    pub closed spec fn spec_x(self) -> MaskUInt {
        self.x
    }

    /// The coordinate along the second axis.
    pub closed spec fn spec_y(self) -> MaskUInt {
        self.y
    }

    /// The coordinate along the third axis.
    pub closed spec fn spec_z(self) -> MaskUInt {
        self.z
    }

    /// The width shared by the three coordinates.
    pub open spec fn width(self) -> nat {
        self.spec_x().spec_bits()
    }

    /// The value along the first axis.
    pub open spec fn ix(self) -> nat {
        self.spec_x().spec_value()
    }

    /// The value along the second axis.
    pub open spec fn iy(self) -> nat {
        self.spec_y().spec_value()
    }

    /// The value along the third axis.
    pub open spec fn iz(self) -> nat {
        self.spec_z().spec_value()
    }

    /// Each coordinate is well formed and all three have the same width.
    pub open spec fn wf(self) -> bool {
        &&& self.spec_x().wf()
        &&& self.spec_y().wf()
        &&& self.spec_z().wf()
        &&& self.spec_y().spec_bits() == self.spec_x().spec_bits()
        &&& self.spec_z().spec_bits() == self.spec_x().spec_bits()
    }

    /// Joins three coordinates into a point, refusing coordinates of
    /// different widths.
    pub fn new(x: MaskUInt, y: MaskUInt, z: MaskUInt) -> (r: Result<OctreePoint, OctreeError>)
        requires
            x.wf(),
            y.wf(),
            z.wf(),
        ensures
            (x.spec_bits() == y.spec_bits() && y.spec_bits() == z.spec_bits()) ==> r is Ok
                && r->Ok_0.wf() && r->Ok_0.spec_x() == x && r->Ok_0.spec_y() == y
                && r->Ok_0.spec_z() == z,
            !(x.spec_bits() == y.spec_bits() && y.spec_bits() == z.spec_bits()) ==> r
                == Err::<OctreePoint, OctreeError>(OctreeError::DepthMismatch),
    {
        if x.bits == y.bits && y.bits == z.bits {
            Ok(OctreePoint { x, y, z })
        } else {
            Err(OctreeError::DepthMismatch)
        }
    }

    /// The coordinate along the first axis.
    pub fn x(&self) -> (r: MaskUInt)
        ensures
            r == self.spec_x(),
    {
        self.x
    }

    /// The coordinate along the second axis.
    pub fn y(&self) -> (r: MaskUInt)
        ensures
            r == self.spec_y(),
    {
        self.y
    }

    /// The coordinate along the third axis.
    pub fn z(&self) -> (r: MaskUInt)
        ensures
            r == self.spec_z(),
    {
        self.z
    }

    /// The same position seen from the child one level down: the top bit of
    /// each axis is dropped.
    pub fn decrease_depth(self) -> (r: OctreePoint)
        requires
            self.wf(),
            self.width() >= 1,
        ensures
            r.wf(),
            r.width() == self.width() - 1,
            r.ix() == self.ix() % pow2((self.width() - 1) as nat),
            r.iy() == self.iy() % pow2((self.width() - 1) as nat),
            r.iz() == self.iz() % pow2((self.width() - 1) as nat),
    {
        OctreePoint {
            x: self.x.remove_top_bit(),
            y: self.y.remove_top_bit(),
            z: self.z.remove_top_bit(),
        }
    }
}

/// Every power of two up to the thirty-second is positive and at most `2^32`.
pub proof fn lemma_pow2_bound(e: nat)
    requires
        e <= 32,
    ensures
        0 < pow2(e) <= 0x1_0000_0000,
{
    if e < 32 {
        lemma_u32_pow2_no_overflow(e);
    } else {
        lemma2_to64();
    }
}

/// The index of an in-range coordinate fits the root's width, and two
/// in-range coordinates with the same index are the same coordinate.
pub proof fn lemma_axis_index_injective(depth: nat, a: int, b: int)
    requires
        axis_in_range(depth, a),
        axis_in_range(depth, b),
    ensures
        axis_index(depth, a) < pow2(depth + 1),
        axis_index(depth, a) == axis_index(depth, b) ==> a == b,
{
    lemma_pow2_unfold(depth + 1);
    lemma_pow2_pos(depth);
}

/// The biased absolute value maps the centred range `[-2^bits, 2^bits - 1]`
/// onto `[0, 2^bits)`: every in-range coordinate lands there, and every
/// magnitude there is the image of an in-range coordinate.
pub proof fn lemma_biased_abs_image(bits: nat, n: int, m: int)
    ensures
        axis_in_range(bits, n) ==> 0 <= biased_abs(n) < pow2(bits),
        0 <= m < pow2(bits) ==> axis_in_range(bits, m) && biased_abs(m) == m && axis_in_range(
            bits,
            -(m + 1),
        ) && biased_abs(-(m + 1)) == m,
{
    lemma_pow2_pos(bits);
}

/// The biased absolute value tells apart any two coordinates but a
/// coordinate `n` and its mirror image `-(n + 1)`, which share a magnitude.
pub proof fn lemma_biased_abs_injective(a: int, b: int)
    requires
        a + b != -1,
        biased_abs(a) == biased_abs(b),
    ensures
        a == b,
{
}

/// A coordinate and its mirror image share a magnitude, and nothing else
/// shares it: the sign is what tells them apart.
pub proof fn lemma_biased_abs_collision(a: int, b: int)
    ensures
        biased_abs(a) == biased_abs(b) <==> (a == b || a + b == -1),
        biased_abs(a) == biased_abs(b) && (a < 0 <==> b < 0) ==> a == b,
{
}

/// The index, which puts the sign on top of the biased magnitude, maps the
/// centred range `[-2^depth, 2^depth - 1]` one-to-one onto `[0, 2^(depth+1))`.
pub proof fn lemma_axis_index_bijective(depth: nat, a: int, b: int, u: nat)
    ensures
        axis_in_range(depth, a) ==> axis_index(depth, a) < pow2(depth + 1),
        axis_in_range(depth, a) && axis_in_range(depth, b) && axis_index(depth, a) == axis_index(
            depth,
            b,
        ) ==> a == b,
        u < pow2(depth + 1) ==> axis_in_range(depth, axis_coord(depth, u)) && axis_index(
            depth,
            axis_coord(depth, u),
        ) == u,
        axis_in_range(depth, a) ==> axis_index(depth, a) / pow2(depth) == if a < 0 {
            1nat
        } else {
            0nat
        },
        axis_in_range(depth, a) ==> axis_index(depth, a) % pow2(depth) == biased_abs(a),
{
    lemma_pow2_unfold(depth + 1);
    lemma_pow2_pos(depth);
    if axis_in_range(depth, a) {
        let p = pow2(depth) as int;
        let bit: int = if a < 0 {
            1
        } else {
            0
        };
        vstd::arithmetic::div_mod::lemma_fundamental_div_mod_converse(
            axis_index(depth, a) as int,
            p,
            bit,
            biased_abs(a),
        );
    }
}

/// Index and coordinate undo each other: every index below `2^(depth+1)`
/// belongs to exactly one in-range coordinate, and every in-range
/// coordinate comes back from its index.
pub proof fn lemma_axis_round_trip(depth: nat, n: int, u: nat)
    ensures
        axis_in_range(depth, n) ==> axis_coord(depth, axis_index(depth, n)) == n,
        u < pow2(depth + 1) ==> axis_in_range(depth, axis_coord(depth, u)) && axis_index(
            depth,
            axis_coord(depth, u),
        ) == u,
{
    lemma_pow2_unfold(depth + 1);
    lemma_pow2_pos(depth);
}

/// A value below twice a positive divisor has quotient zero or one.
proof fn lemma_div_below_two(v: nat, p: nat)
    requires
        p > 0,
        v < 2 * p,
    ensures
        v / p <= 1,
{
    assert(v / p <= 1) by (nonlinear_arith)
        requires
            p > 0,
            v < 2 * p,
    ;
}

/// A remainder is below its positive divisor.
proof fn lemma_mod_below(v: nat, p: nat)
    requires
        p > 0,
    ensures
        v % p < p,
{
    assert(v % p < p) by (nonlinear_arith)
        requires
            p > 0,
    ;
}

} // verus!
