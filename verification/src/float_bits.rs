//! Floating-point numbers by their bit patterns.
//!
//! Samples and measured times travel through the library as IEEE 754 encodings. The library
//! never adds or multiplies them; it compares them, looks for the largest and keeps thresholds.
//! The order used for this is stated on the exact numbers that the encodings stand for.

use vstd::arithmetic::power2::{
    lemma_pow2_adds, lemma_pow2_pos, lemma_pow2_strictly_increases, pow2,
};
use vstd::prelude::*;

verus! {

/// The number of fraction steps in one binade of the 32-bit format.
pub const FRACTION_STEPS_32: u32 = 0x0080_0000;

/// The number of fraction steps in one binade of the 64-bit format.
pub const FRACTION_STEPS_64: u64 = 0x0010_0000_0000_0000;

/// The encoding of positive infinity in the 32-bit format.
pub const INFINITY_32: u32 = 0x7f80_0000;

/// The encoding of positive infinity in the 64-bit format.
pub const INFINITY_64: u64 = 0x7ff0_0000_0000_0000;

/// The sign bit of the 32-bit format.
pub const SIGN_32: u32 = 0x8000_0000;

/// The sign bit of the 64-bit format.
pub const SIGN_64: u64 = 0x8000_0000_0000_0000;

/// The number that an encoding without its sign bit stands for, in units of the smallest
/// subnormal number of the format. `steps` is the number of fraction steps in one binade.
///
/// An infinity is given the number that would follow the largest finite one, so it compares
/// above every finite number.
pub open spec fn scaled_magnitude(magnitude: nat, steps: nat) -> nat
    recommends
        steps > 0,
{
    let exponent = magnitude / steps;
    let fraction = magnitude % steps;
    if exponent == 0 {
        fraction
    } else {
        (steps + fraction) * pow2((exponent - 1) as nat)
    }
}

/// Zero has magnitude zero, and a larger encoding stands for a larger number.
pub proof fn lemma_scaled_magnitude_increases(a: nat, b: nat, steps: nat)
    requires
        a < b,
        steps > 0,
    ensures
        scaled_magnitude(0, steps) == 0,
        scaled_magnitude(a, steps) < scaled_magnitude(b, steps),
{
    assert(0nat / steps == 0 && 0nat % steps == 0) by (nonlinear_arith)
        requires
            steps > 0,
    ;
    let (ea, fa) = (a / steps, a % steps);
    let (eb, fb) = (b / steps, b % steps);
    assert(a == ea * steps + fa && b == eb * steps + fb && fa < steps && fb < steps)
        by (nonlinear_arith)
        requires
            steps > 0,
            ea == a / steps,
            fa == a % steps,
            eb == b / steps,
            fb == b % steps,
    ;
    assert(ea <= eb) by (nonlinear_arith)
        requires
            a < b,
            a == ea * steps + fa,
            b == eb * steps + fb,
            fb < steps,
            steps > 0,
    ;
    if ea == eb {
        assert(fa < fb);
        if ea > 0 {
            let scale = pow2((ea - 1) as nat);
            lemma_pow2_pos((ea - 1) as nat);
            assert((steps + fa) * scale < (steps + fb) * scale) by (nonlinear_arith)
                requires
                    fa < fb,
                    scale > 0,
            ;
        }
    } else {
        let above = pow2((eb - 1) as nat);
        lemma_pow2_pos((eb - 1) as nat);
        assert(steps <= (steps + fb) * above && steps * above <= (steps + fb) * above)
            by (nonlinear_arith)
            requires
                above > 0,
        ;
        if ea > 0 {
            let below = pow2((ea - 1) as nat);
            lemma_pow2_pos((ea - 1) as nat);
            lemma_pow2_adds(1, (ea - 1) as nat);
            vstd::arithmetic::power2::lemma2_to64();
            assert(pow2(ea as nat) == 2 * below);
            if ea < eb - 1 {
                lemma_pow2_strictly_increases(ea as nat, (eb - 1) as nat);
            }
            assert(2 * below <= above);
            assert((steps + fa) * below < steps * above) by (nonlinear_arith)
                requires
                    fa < steps,
                    2 * below <= above,
                    below > 0,
            ;
        }
    }
}

/// Numbers with an order, some of whose encodings may stand for no number at all.
pub trait Real: Copy {
    /// Whether the encoding stands for no number.
    spec fn nan(self) -> bool;

    /// The number, in units of the smallest subnormal one.
    spec fn value(self) -> int;

    /// Whether the encoding stands for no number.
    fn is_nan(self) -> (r: bool)
        ensures
            r == self.nan(),
    ;

    /// Whether both are numbers and this one is the larger.
    fn exceeds(self, other: Self) -> (r: bool)
        ensures
            r == (!self.nan() && !other.nan() && self.value() > other.value()),
    ;
}

/// Both are numbers and the first is the larger.
pub open spec fn greater<T: Real>(a: T, b: T) -> bool {
    !a.nan() && !b.nan() && a.value() > b.value()
}

/// The encoding of a 32-bit floating-point number.
#[derive(Clone, Copy, Debug, PartialEq, Eq, Structural)]
pub struct Float32 {
    /// The sign, exponent and fraction bits.
    pub bits: u32,
}

/// The encoding of a 64-bit floating-point number.
#[derive(Clone, Copy, Debug, PartialEq, Eq, Structural)]
pub struct Float64 {
    /// The sign, exponent and fraction bits.
    pub bits: u64,
}

impl Float32 {
    /// The encoding without its sign bit.
    pub open spec fn magnitude(self) -> nat {
        (self.bits % SIGN_32) as nat
    }

    /// Whether the sign bit is set.
    pub open spec fn negative(self) -> bool {
        self.bits >= SIGN_32
    }

    /// Positive zero.
    pub fn zero() -> (r: Float32)
        ensures
            r == (Float32 { bits: 0 }),
            !r.nan(),
            r.value() == 0,
    {
        proof {
            lemma_scaled_magnitude_increases(0, 1, FRACTION_STEPS_32 as nat);
        }
        Float32 { bits: 0 }
    }

    /// The same number without its sign.
    pub fn abs(self) -> (r: Float32)
        ensures
            r.nan() == self.nan(),
            r.bits == self.bits % SIGN_32,
            r.value() == (if self.value() < 0 {
                -self.value()
            } else {
                self.value()
            }),
    {
        proof {
            if self.magnitude() > 0 {
                lemma_scaled_magnitude_increases(0, self.magnitude(), FRACTION_STEPS_32 as nat);
            } else {
                lemma_scaled_magnitude_increases(0, 1, FRACTION_STEPS_32 as nat);
            }
        }
        Float32 { bits: self.bits % SIGN_32 }
    }
}

impl Real for Float32 {
    open spec fn nan(self) -> bool {
        self.magnitude() > INFINITY_32
    }

    open spec fn value(self) -> int {
        let magnitude = scaled_magnitude(self.magnitude(), FRACTION_STEPS_32 as nat) as int;
        if self.negative() {
            -magnitude
        } else {
            magnitude
        }
    }

    fn is_nan(self) -> (r: bool) {
        self.bits % SIGN_32 > INFINITY_32
    }

    fn exceeds(self, other: Float32) -> (r: bool) {
        let a: i64 = (self.bits % SIGN_32) as i64;
        let b: i64 = (other.bits % SIGN_32) as i64;
        let left: i64 = if self.bits >= SIGN_32 {
            -a
        } else {
            a
        };
        let right: i64 = if other.bits >= SIGN_32 {
            -b
        } else {
            b
        };
        proof {
            lemma_order(
                self.negative(),
                self.magnitude(),
                other.negative(),
                other.magnitude(),
                FRACTION_STEPS_32 as nat,
            );
        }
        !self.is_nan() && !other.is_nan() && left > right
    }
}

impl Float64 {
    /// The encoding without its sign bit.
    pub open spec fn magnitude(self) -> nat {
        (self.bits % SIGN_64) as nat
    }

    /// Whether the sign bit is set.
    pub open spec fn negative(self) -> bool {
        self.bits >= SIGN_64
    }

    /// Positive zero.
    pub fn zero() -> (r: Float64)
        ensures
            r == (Float64 { bits: 0 }),
            !r.nan(),
            r.value() == 0,
    {
        proof {
            lemma_scaled_magnitude_increases(0, 1, FRACTION_STEPS_64 as nat);
        }
        Float64 { bits: 0 }
    }
}

impl Real for Float64 {
    open spec fn nan(self) -> bool {
        self.magnitude() > INFINITY_64
    }

    open spec fn value(self) -> int {
        let magnitude = scaled_magnitude(self.magnitude(), FRACTION_STEPS_64 as nat) as int;
        if self.negative() {
            -magnitude
        } else {
            magnitude
        }
    }

    fn is_nan(self) -> (r: bool) {
        self.bits % SIGN_64 > INFINITY_64
    }

    fn exceeds(self, other: Float64) -> (r: bool) {
        let a: i64 = (self.bits % SIGN_64) as i64;
        let b: i64 = (other.bits % SIGN_64) as i64;
        let left: i64 = if self.bits >= SIGN_64 {
            -a
        } else {
            a
        };
        let right: i64 = if other.bits >= SIGN_64 {
            -b
        } else {
            b
        };
        proof {
            lemma_order(
                self.negative(),
                self.magnitude(),
                other.negative(),
                other.magnitude(),
                FRACTION_STEPS_64 as nat,
            );
        }
        !self.is_nan() && !other.is_nan() && left > right
    }
}

/// In the 32-bit format an encoding stands for no number exactly where it lies above that of
/// infinity without its sign; the sign bit turns a number into its opposite; the smallest numbers
/// count up one by one; and one exponent step doubles a number that is not among them.
pub proof fn law_singles(x: Float32)
    ensures
        x.nan() <==> x.bits % 0x8000_0000 > 0x7f80_0000,
        x.bits < 0x0080_0000 ==> x.value() == x.bits,
        0x0080_0000 <= x.bits < 0x0100_0000 ==> x.value() == x.bits,
        0x0080_0000 <= x.bits < 0x7f80_0000 ==> (Float32 {
            bits: (x.bits + 0x0080_0000) as u32,
        }).value() == 2 * x.value(),
        x.bits < 0x8000_0000 ==> (Float32 { bits: (x.bits + 0x8000_0000) as u32 }).value()
            == -x.value(),
{
    vstd::arithmetic::power2::lemma2_to64();
    if 0x0080_0000 <= x.bits < 0x7f80_0000 {
        lemma_doubles(x.bits as nat, FRACTION_STEPS_32 as nat);
    }
    if 0x0080_0000 <= x.bits < 0x0100_0000 {
        let steps = FRACTION_STEPS_32 as nat;
        let fraction = (x.bits - steps) as nat;
        assert(pow2(0) == 1);
        assert(x.magnitude() / steps == 1 && x.magnitude() % steps == fraction);
        assert((steps + fraction) * pow2(0) == steps + fraction) by (nonlinear_arith)
            requires
                pow2(0) == 1,
        ;
    }
}

/// The same of the 64-bit format.
pub proof fn law_doubles(x: Float64)
    ensures
        x.nan() <==> x.bits % 0x8000_0000_0000_0000 > 0x7ff0_0000_0000_0000,
        x.bits < 0x0010_0000_0000_0000 ==> x.value() == x.bits,
        0x0010_0000_0000_0000 <= x.bits < 0x0020_0000_0000_0000 ==> x.value() == x.bits,
        0x0010_0000_0000_0000 <= x.bits < 0x7ff0_0000_0000_0000 ==> (Float64 {
            bits: (x.bits + 0x0010_0000_0000_0000) as u64,
        }).value() == 2 * x.value(),
        x.bits < 0x8000_0000_0000_0000 ==> (Float64 {
            bits: (x.bits + 0x8000_0000_0000_0000) as u64,
        }).value() == -x.value(),
{
    vstd::arithmetic::power2::lemma2_to64();
    if 0x0010_0000_0000_0000 <= x.bits < 0x7ff0_0000_0000_0000 {
        lemma_doubles(x.bits as nat, FRACTION_STEPS_64 as nat);
    }
    if 0x0010_0000_0000_0000 <= x.bits < 0x0020_0000_0000_0000 {
        let steps = FRACTION_STEPS_64 as nat;
        let fraction = (x.bits - steps) as nat;
        assert(pow2(0) == 1);
        assert(x.magnitude() / steps == 1 && x.magnitude() % steps == fraction);
        assert((steps + fraction) * pow2(0) == steps + fraction) by (nonlinear_arith)
            requires
                pow2(0) == 1,
        ;
    }
}

proof fn lemma_doubles(magnitude: nat, steps: nat)
    requires
        steps > 0,
        magnitude >= steps,
    ensures
        scaled_magnitude(magnitude + steps, steps) == 2 * scaled_magnitude(magnitude, steps),
{
    let (e, f) = (magnitude / steps, magnitude % steps);
    assert(e >= 1 && (magnitude + steps) / steps == e + 1 && (magnitude + steps) % steps == f)
        by (nonlinear_arith)
        requires
            steps > 0,
            magnitude >= steps,
            e == magnitude / steps,
            f == magnitude % steps,
    ;
    vstd::arithmetic::power2::lemma_pow2_unfold(e);
    let scale = pow2((e - 1) as nat);
    assert((steps + f) * (2 * scale) == 2 * ((steps + f) * scale)) by (nonlinear_arith);
}

/// A signed number made of a sign and a magnitude.
pub open spec fn signed(negative: bool, magnitude: nat) -> int {
    if negative {
        -(magnitude as int)
    } else {
        magnitude as int
    }
}

/// Comparing encodings as sign and magnitude compares the numbers they stand for.
pub proof fn lemma_order(a_negative: bool, a: nat, b_negative: bool, b: nat, steps: nat)
    requires
        steps > 0,
    ensures
        signed(a_negative, a) > signed(b_negative, b) <==> signed(
            a_negative,
            scaled_magnitude(a, steps),
        ) > signed(b_negative, scaled_magnitude(b, steps)),
{
    lemma_scaled_magnitude_increases(0, 1, steps);
    if a > 0 {
        lemma_scaled_magnitude_increases(0, a, steps);
    }
    if b > 0 {
        lemma_scaled_magnitude_increases(0, b, steps);
    }
    if a < b {
        lemma_scaled_magnitude_increases(a, b, steps);
    }
    if b < a {
        lemma_scaled_magnitude_increases(b, a, steps);
    }
}

} // verus!
