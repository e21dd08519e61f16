//! Deterministic fixed-point math: a raw `i32` with 8 fractional bits.
//!
//! Simulation state never holds floats; everything that feeds the
//! simulation goes through [`Fixed`], whose every operation is a pure
//! function of its raw integer inputs.

use vstd::prelude::*;

verus! {

/// Number of fractional bits: 8 gives 1/256-tile precision.
pub const FRAC_BITS: u32 = 8;

/// Raw units per whole tile (`1 << FRAC_BITS`).
pub const FRAC_SCALE: i32 = 256;

/// The absolute value of an integer.
pub open spec fn abs_int(x: int) -> int {
    if x < 0 {
        -x
    } else {
        x
    }
}

/// Division that rounds toward zero, as Rust's `/` on signed integers does:
/// the quotient of the magnitudes, negated when the signs differ.
pub open spec fn trunc_div(x: int, y: int) -> int {
    let q = abs_int(x) / abs_int(y);
    if (x < 0) == (y < 0) {
        q
    } else {
        -q
    }
}

/// Whether `v` tiles can be written as a raw `Fixed` value.
pub open spec fn int_fits_fixed(v: int) -> bool {
    -8388608 <= v < 8388608
}

/// A deterministic fixed-point number: raw `i32`, 8 fractional bits
/// (1/256 tile units).
#[derive(Clone, Copy, PartialEq, Eq, Structural, PartialOrd, Ord, Hash, Debug)]
pub struct Fixed(pub i32);

impl Fixed {
    /// The whole number `v` as a fixed-point value.
    pub open spec fn spec_from_int(v: int) -> Fixed {
        Fixed((v * 256) as i32)
    }

    /// The product as computed by [`Fixed::mul`]: floor of the raw product
    /// over 256, narrowed to `i32`.
    pub open spec fn spec_mul(self, rhs: Fixed) -> Fixed {
        Fixed(((self.0 as int * rhs.0 as int) / 256) as i32)
    }

    /// The quotient as computed by [`Fixed::div`]: the raw numerator scaled
    /// by 256, divided toward zero, narrowed to `i32`.
    pub open spec fn spec_div(self, rhs: Fixed) -> Fixed {
        Fixed(trunc_div(self.0 as int * 256, rhs.0 as int) as i32)
    }

    /// The value 0.
    pub fn zero() -> (r: Fixed)
        ensures
            r.0 == 0,
    {
        Fixed(0)
    }

    /// The value 1 (one whole tile).
    pub fn one() -> (r: Fixed)
        ensures
            r.0 == FRAC_SCALE,
    {
        Fixed(FRAC_SCALE)
    }

    /// ~1/sqrt(2), used to scale diagonal movement so it isn't faster
    /// than axis-aligned movement.
    pub fn inv_sqrt2() -> (r: Fixed)
        ensures
            r.0 == 181,
    {
        Fixed(181)
    }

    /// The whole number `v`.
    pub fn from_int(v: i32) -> (r: Fixed)
        requires
            int_fits_fixed(v as int),
        ensures
            r.0 == v * FRAC_SCALE,
            r == Fixed::spec_from_int(v as int),
    {
        Fixed(v * FRAC_SCALE)
    }

    /// Product, rounded toward negative infinity in raw units. Widens to
    /// i64 internally so the intermediate product can't overflow i32 before
    /// the shift back down; the final narrowing wraps as `as i32` does.
    pub fn mul(self, rhs: Fixed) -> (r: Fixed)
        ensures
            r == self.spec_mul(rhs),
    {
        let a: i64 = self.0 as i64;
        let b: i64 = rhs.0 as i64;
        assert(-0x4000_0000_0000_0000 <= a * b <= 0x4000_0000_0000_0000) by (nonlinear_arith)
            requires
                -0x8000_0000 <= a <= 0x8000_0000,
                -0x8000_0000 <= b <= 0x8000_0000,
        ;
        let p: i64 = a * b;
        let q: i64 = p >> FRAC_BITS;
        assert(q == p / 256) by (bit_vector)
            requires
                q == p >> 8u32,
        ;
        Fixed(q as i32)
    }

    /// Quotient, rounded toward zero in raw units. The left shift happens
    /// before the divide so fractional precision survives.
    pub fn div(self, rhs: Fixed) -> (r: Fixed)
        requires
            rhs.0 != 0,
        ensures
            r == self.spec_div(rhs),
    {
        let a: i64 = self.0 as i64;
        let s: i64 = a << FRAC_BITS;
        assert(s == a * 256) by (bit_vector)
            requires
                s == a << 8u32,
                -0x8000_0000 <= a < 0x8000_0000,
        ;
        let d: i64 = rhs.0 as i64;
        // Rust's `/` rounds toward zero, so dividing by `d` equals negating
        // the quotient by `-d`; splitting on the sign keeps the divisor positive.
        let q: i64 = if d > 0 {
            s / d
        } else {
            -(s / (-d))
        };
        Fixed(q as i32)
    }

    /// Absolute value.
    pub fn abs(self) -> (r: Fixed)
        requires
            self.0 != i32::MIN,
        ensures
            r.0 == abs_int(self.0 as int),
    {
        if self.0 < 0 {
            Fixed(-self.0)
        } else {
            Fixed(self.0)
        }
    }
}

impl Default for Fixed {
    fn default() -> (r: Fixed)
        ensures
            r.0 == 0,
    {
        Fixed(0)
    }
}

impl core::ops::Add for Fixed {
    type Output = Fixed;

    fn add(self, rhs: Fixed) -> (r: Fixed) {
        Fixed(self.0 + rhs.0)
    }
}

impl vstd::std_specs::ops::AddSpecImpl for Fixed {
    open spec fn obeys_add_spec() -> bool {
        true
    }

    open spec fn add_req(self, rhs: Fixed) -> bool {
        i32::MIN <= self.0 + rhs.0 <= i32::MAX
    }

    open spec fn add_spec(self, rhs: Fixed) -> Fixed {
        Fixed((self.0 + rhs.0) as i32)
    }
}

impl core::ops::Sub for Fixed {
    type Output = Fixed;

    fn sub(self, rhs: Fixed) -> (r: Fixed) {
        Fixed(self.0 - rhs.0)
    }
}

impl vstd::std_specs::ops::SubSpecImpl for Fixed {
    open spec fn obeys_sub_spec() -> bool {
        true
    }

    open spec fn sub_req(self, rhs: Fixed) -> bool {
        i32::MIN <= self.0 - rhs.0 <= i32::MAX
    }

    open spec fn sub_spec(self, rhs: Fixed) -> Fixed {
        Fixed((self.0 - rhs.0) as i32)
    }
}

impl core::ops::Neg for Fixed {
    type Output = Fixed;

    fn neg(self) -> (r: Fixed) {
        Fixed(-self.0)
    }
}

impl vstd::std_specs::ops::NegSpecImpl for Fixed {
    open spec fn obeys_neg_spec() -> bool {
        true
    }

    open spec fn neg_req(self) -> bool {
        self.0 != i32::MIN
    }

    open spec fn neg_spec(self) -> Fixed {
        Fixed((-self.0) as i32)
    }
}

/// Multiplying two whole numbers is exact whenever the product is itself a
/// representable whole number.
pub proof fn lemma_mul_whole_is_exact(a: int, b: int)
    requires
        int_fits_fixed(a),
        int_fits_fixed(b),
        int_fits_fixed(a * b),
    ensures
        Fixed::spec_from_int(a).spec_mul(Fixed::spec_from_int(b)) == Fixed::spec_from_int(a * b),
{
    assert((a * 256) * (b * 256) == (a * b * 256) * 256) by (nonlinear_arith);
    assert(((a * b * 256) * 256) / 256 == a * b * 256) by (nonlinear_arith);
}

/// Dividing a whole number by a whole divisor of it is exact.
pub proof fn lemma_div_whole_is_exact(a: int, b: int)
    requires
        int_fits_fixed(a),
        int_fits_fixed(b),
        b != 0,
        a % b == 0,
    ensures
        Fixed::spec_from_int(a).spec_div(Fixed::spec_from_int(b)) == Fixed::spec_from_int(a / b),
{
    let k = a / b;
    assert(a == k * b) by {
        vstd::arithmetic::div_mod::lemma_fundamental_div_mod(a, b);
    }
    assert(abs_int(a) == abs_int(k) * abs_int(b)) by (nonlinear_arith)
        requires a == k * b;
    let num = a * 256 * 256;
    let den = b * 256;
    assert(abs_int(num) == (abs_int(k) * 256) * abs_int(den)) by (nonlinear_arith)
        requires
            num == a * 256 * 256,
            den == b * 256,
            abs_int(a) == abs_int(k) * abs_int(b),
    ;
    assert(abs_int(den) > 0);
    assert(abs_int(num) / abs_int(den) == abs_int(k) * 256) by {
        vstd::arithmetic::div_mod::lemma_div_multiples_vanish(abs_int(k) * 256, abs_int(den));
        assert(abs_int(den) * (abs_int(k) * 256) == (abs_int(k) * 256) * abs_int(den)) by (nonlinear_arith);
    }
    assert(abs_int(k) <= abs_int(a)) by (nonlinear_arith)
        requires
            abs_int(a) == abs_int(k) * abs_int(b),
            abs_int(b) >= 1,
            abs_int(k) >= 0,
    ;
    if k != 0 {
        assert((num < 0) == (den < 0) <==> k > 0) by (nonlinear_arith)
            requires
                num == a * 256 * 256,
                den == b * 256,
                a == k * b,
                b != 0,
                k != 0,
        ;
    }
}

/// A 2D point/vector of `Fixed` coordinates.
#[derive(Clone, Copy, PartialEq, Eq, Structural, Hash, Debug)]
pub struct FixedVec2 {
    pub x: Fixed,
    pub y: Fixed,
}

/// The squared Euclidean distance between two points, in raw units squared.
pub open spec fn spec_dist_sq(a: FixedVec2, b: FixedVec2) -> int {
    let dx = a.x.0 - b.x.0;
    let dy = a.y.0 - b.y.0;
    dx * dx + dy * dy
}

impl FixedVec2 {
    pub fn new(x: Fixed, y: Fixed) -> (r: FixedVec2)
        ensures
            r.x == x,
            r.y == y,
    {
        FixedVec2 { x, y }
    }

    /// Squared distance in raw units^2. Both coordinates are widened to i64
    /// before subtracting, so neither the deltas nor the squares can
    /// overflow; only the sum must fit in i64.
    pub fn dist_sq(self, other: FixedVec2) -> (r: i64)
        requires
            spec_dist_sq(self, other) <= i64::MAX,
        ensures
            r == spec_dist_sq(self, other),
    {
        let dx: i64 = self.x.0 as i64 - other.x.0 as i64;
        let dy: i64 = self.y.0 as i64 - other.y.0 as i64;
        assert(0 <= dx * dx && 0 <= dy * dy) by (nonlinear_arith);
        dx * dx + dy * dy
    }
}

impl Default for FixedVec2 {
    fn default() -> (r: FixedVec2)
        ensures
            r.x.0 == 0,
            r.y.0 == 0,
    {
        FixedVec2 { x: Fixed(0), y: Fixed(0) }
    }
}

impl core::ops::Add for FixedVec2 {
    type Output = FixedVec2;

    fn add(self, rhs: FixedVec2) -> (r: FixedVec2) {
        FixedVec2::new(self.x + rhs.x, self.y + rhs.y)
    }
}

impl vstd::std_specs::ops::AddSpecImpl for FixedVec2 {
    open spec fn obeys_add_spec() -> bool {
        true
    }

    open spec fn add_req(self, rhs: FixedVec2) -> bool {
        &&& i32::MIN <= self.x.0 + rhs.x.0 <= i32::MAX
        &&& i32::MIN <= self.y.0 + rhs.y.0 <= i32::MAX
    }

    open spec fn add_spec(self, rhs: FixedVec2) -> FixedVec2 {
        FixedVec2 { x: Fixed((self.x.0 + rhs.x.0) as i32), y: Fixed((self.y.0 + rhs.y.0) as i32) }
    }
}

impl core::ops::Sub for FixedVec2 {
    type Output = FixedVec2;

    fn sub(self, rhs: FixedVec2) -> (r: FixedVec2) {
        FixedVec2::new(self.x - rhs.x, self.y - rhs.y)
    }
}

impl vstd::std_specs::ops::SubSpecImpl for FixedVec2 {
    open spec fn obeys_sub_spec() -> bool {
        true
    }

    open spec fn sub_req(self, rhs: FixedVec2) -> bool {
        &&& i32::MIN <= self.x.0 - rhs.x.0 <= i32::MAX
        &&& i32::MIN <= self.y.0 - rhs.y.0 <= i32::MAX
    }

    open spec fn sub_spec(self, rhs: FixedVec2) -> FixedVec2 {
        FixedVec2 { x: Fixed((self.x.0 - rhs.x.0) as i32), y: Fixed((self.y.0 - rhs.y.0) as i32) }
    }
}

} // verus!
