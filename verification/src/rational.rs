//! Exact rational numbers over bounded 64-bit numerator and denominator.
//!
//! Every shift, coupling constant, width and weight in the library is a
//! `Rational`.  A well-formed value keeps its numerator and denominator
//! inside `NUM_MAX` / `DEN_MAX`, so all cross multiplications fit
//! comfortably inside `i128` and comparisons are exact.

use vstd::prelude::*;

verus! {

/// Largest numerator magnitude a well-formed `Rational` may hold (2^60).
pub const NUM_MAX: i64 = 0x1000_0000_0000_0000;

/// Largest denominator a well-formed `Rational` may hold (2^60).
pub const DEN_MAX: i64 = 0x1000_0000_0000_0000;

/// An exact rational number.  The denominator of a well-formed value is
/// always positive, so the value is `numer() / denom()` with the sign
/// carried by the numerator.
#[derive(Clone, Copy, Debug)]
pub struct Rational {
    n: i64,
    d: i64,
}

/// Value equality of two rationals, by cross multiplication.
pub open spec fn rat_eq(a: Rational, b: Rational) -> bool {
    a.numer() * b.denom() == b.numer() * a.denom()
}

/// Value ordering of two rationals, by cross multiplication.
pub open spec fn rat_le(a: Rational, b: Rational) -> bool {
    a.numer() * b.denom() <= b.numer() * a.denom()
}

/// Strict value ordering of two rationals, by cross multiplication.
pub open spec fn rat_lt(a: Rational, b: Rational) -> bool {
    a.numer() * b.denom() < b.numer() * a.denom()
}

/// `|x * y| <= bx * by` whenever `|x| <= bx` and `|y| <= by`.
pub proof fn lemma_mul_bound(x: int, y: int, bx: int, by: int)
    by (nonlinear_arith)
    requires
        -bx <= x <= bx,
        -by <= y <= by,
        0 <= bx,
        0 <= by,
    ensures
        -(bx * by) <= x * y <= bx * by,
{
}

/// The rational with the given numerator and denominator, for stating what
/// a computation produces.  Meaningful when both parts are in bounds.
pub closed spec fn spec_rational(num: int, den: int) -> Rational {
    Rational { n: num as i64, d: den as i64 }
}

pub proof fn lemma_spec_rational(num: int, den: int)
    requires
        -NUM_MAX <= num <= NUM_MAX,
        1 <= den <= DEN_MAX,
    ensures
        spec_rational(num, den).numer() == num,
        spec_rational(num, den).denom() == den,
        spec_rational(num, den).wf(),
{
}

/// A rational is determined by its numerator and denominator.
pub proof fn lemma_rational_parts_equal(a: Rational, b: Rational)
    requires
        a.numer() == b.numer(),
        a.denom() == b.denom(),
    ensures
        a == b,
{
}

/// The ordering by cross multiplication is transitive over well-formed
/// denominators.
pub proof fn lemma_rat_le_trans(a: Rational, b: Rational, c: Rational)
    by (nonlinear_arith)
    requires
        rat_le(a, b),
        rat_le(b, c),
        a.denom() > 0,
        b.denom() > 0,
        c.denom() > 0,
    ensures
        rat_le(a, c),
{
}

/// The product of any two `i64` values fits in an `i128`.
proof fn lemma_i64_cross_fits(x: int, y: int)
    requires
        i64::MIN <= x <= i64::MAX,
        i64::MIN <= y <= i64::MAX,
    ensures
        i128::MIN <= x * y <= i128::MAX,
{
    lemma_mul_bound(x, y, 0x8000_0000_0000_0000, 0x8000_0000_0000_0000);
}

impl Rational {
    /// The numerator, as a mathematical integer.
    pub closed spec fn numer(self) -> int {
        self.n as int
    }

    /// The denominator, as a mathematical integer.
    pub closed spec fn denom(self) -> int {
        self.d as int
    }

    /// A well-formed rational: positive denominator, both parts in bounds.
    pub open spec fn wf(self) -> bool {
        &&& -NUM_MAX <= self.numer() <= NUM_MAX
        &&& 1 <= self.denom() <= DEN_MAX
    }

    pub fn new(numer: i64, denom: i64) -> (r: Rational)
        requires
            -NUM_MAX <= numer <= NUM_MAX,
            1 <= denom <= DEN_MAX,
        ensures
            r.wf(),
            r.numer() == numer,
            r.denom() == denom,
    {
        Rational { n: numer, d: denom }
    }

    pub fn from_int(v: i64) -> (r: Rational)
        requires
            -NUM_MAX <= v <= NUM_MAX,
        ensures
            r.wf(),
            r.numer() == v,
            r.denom() == 1,
    {
        Rational { n: v, d: 1 }
    }

    pub fn zero() -> (r: Rational)
        ensures
            r.wf(),
            r.numer() == 0,
            r.denom() == 1,
    {
        Rational { n: 0, d: 1 }
    }

    pub fn one() -> (r: Rational)
        ensures
            r.wf(),
            r.numer() == 1,
            r.denom() == 1,
    {
        Rational { n: 1, d: 1 }
    }

    pub fn num(&self) -> (r: i64)
        ensures
            r == self.numer(),
    {
        self.n
    }

    /// Whether this rational sits inside the well-formedness bounds.
    pub fn is_well_formed(&self) -> (r: bool)
        ensures
            r == self.wf(),
    {
        -NUM_MAX <= self.n && self.n <= NUM_MAX && 1 <= self.d && self.d <= DEN_MAX
    }

    pub fn den(&self) -> (r: i64)
        ensures
            r == self.denom(),
    {
        self.d
    }

    pub fn le(&self, other: &Rational) -> (r: bool)
        ensures
            r == rat_le(*self, *other),
    {
        proof {
            lemma_i64_cross_fits(self.n as int, other.d as int);
            lemma_i64_cross_fits(other.n as int, self.d as int);
        }
        (self.n as i128) * (other.d as i128) <= (other.n as i128) * (self.d as i128)
    }

    pub fn lt(&self, other: &Rational) -> (r: bool)
        ensures
            r == rat_lt(*self, *other),
    {
        proof {
            lemma_i64_cross_fits(self.n as int, other.d as int);
            lemma_i64_cross_fits(other.n as int, self.d as int);
        }
        (self.n as i128) * (other.d as i128) < (other.n as i128) * (self.d as i128)
    }
}

/// The sum of `a` and `b` stays within the well-formedness bounds.
pub open spec fn add_fits(a: Rational, b: Rational) -> bool {
    &&& -NUM_MAX <= a.numer() * b.denom() + b.numer() * a.denom() <= NUM_MAX
    &&& a.denom() * b.denom() <= DEN_MAX
}

/// The difference `a - b` stays within the well-formedness bounds.
pub open spec fn sub_fits(a: Rational, b: Rational) -> bool {
    &&& -NUM_MAX <= a.numer() * b.denom() - b.numer() * a.denom() <= NUM_MAX
    &&& a.denom() * b.denom() <= DEN_MAX
}

/// The product of `a` and `b` stays within the well-formedness bounds.
pub open spec fn mul_fits(a: Rational, b: Rational) -> bool {
    &&& -NUM_MAX <= a.numer() * b.numer() <= NUM_MAX
    &&& a.denom() * b.denom() <= DEN_MAX
}

/// The quotient `a / b` (for positive `b`) stays within the bounds.
pub open spec fn div_fits(a: Rational, b: Rational) -> bool {
    &&& -NUM_MAX <= a.numer() * b.denom() <= NUM_MAX
    &&& a.denom() * b.numer() <= DEN_MAX
}

impl Rational {
    pub fn add(&self, other: &Rational) -> (r: Rational)
        requires
            self.wf(),
            other.wf(),
            add_fits(*self, *other),
        ensures
            r.wf(),
            r.numer() == self.numer() * other.denom() + other.numer() * self.denom(),
            r.denom() == self.denom() * other.denom(),
    {
        proof {
            lemma_mul_bound(self.n as int, other.d as int, NUM_MAX as int, DEN_MAX as int);
            lemma_mul_bound(other.n as int, self.d as int, NUM_MAX as int, DEN_MAX as int);
            lemma_mul_bound(1, 1, self.d as int, other.d as int);
        }
        let n128 = (self.n as i128) * (other.d as i128) + (other.n as i128) * (self.d as i128);
        let d128 = (self.d as i128) * (other.d as i128);
        Rational { n: n128 as i64, d: d128 as i64 }
    }

    pub fn sub(&self, other: &Rational) -> (r: Rational)
        requires
            self.wf(),
            other.wf(),
            sub_fits(*self, *other),
        ensures
            r.wf(),
            r.numer() == self.numer() * other.denom() - other.numer() * self.denom(),
            r.denom() == self.denom() * other.denom(),
    {
        proof {
            lemma_mul_bound(self.n as int, other.d as int, NUM_MAX as int, DEN_MAX as int);
            lemma_mul_bound(other.n as int, self.d as int, NUM_MAX as int, DEN_MAX as int);
            lemma_mul_bound(1, 1, self.d as int, other.d as int);
        }
        let n128 = (self.n as i128) * (other.d as i128) - (other.n as i128) * (self.d as i128);
        let d128 = (self.d as i128) * (other.d as i128);
        Rational { n: n128 as i64, d: d128 as i64 }
    }

    pub fn mul(&self, other: &Rational) -> (r: Rational)
        requires
            self.wf(),
            other.wf(),
            mul_fits(*self, *other),
        ensures
            r.wf(),
            r.numer() == self.numer() * other.numer(),
            r.denom() == self.denom() * other.denom(),
    {
        proof {
            lemma_mul_bound(self.n as int, other.n as int, NUM_MAX as int, NUM_MAX as int);
            lemma_mul_bound(1, 1, self.d as int, other.d as int);
        }
        let n128 = (self.n as i128) * (other.n as i128);
        let d128 = (self.d as i128) * (other.d as i128);
        Rational { n: n128 as i64, d: d128 as i64 }
    }

    /// Division by a strictly positive rational.
    pub fn div(&self, other: &Rational) -> (r: Rational)
        requires
            self.wf(),
            other.wf(),
            other.numer() > 0,
            div_fits(*self, *other),
        ensures
            r.wf(),
            r.numer() == self.numer() * other.denom(),
            r.denom() == self.denom() * other.numer(),
    {
        proof {
            lemma_mul_bound(self.n as int, other.d as int, NUM_MAX as int, DEN_MAX as int);
            lemma_mul_bound(1, 1, self.d as int, other.n as int);
        }
        let n128 = (self.n as i128) * (other.d as i128);
        let d128 = (self.d as i128) * (other.n as i128);
        Rational { n: n128 as i64, d: d128 as i64 }
    }

    /// Integer part of a non-negative rational.
    pub fn floor_of_nonneg(&self) -> (r: i64)
        requires
            self.wf(),
            self.numer() >= 0,
        ensures
            r == self.numer() / self.denom(),
            0 <= r <= self.numer(),
    {
        self.n / self.d
    }

    /// The fractional part of a non-negative rational, as a rational with
    /// the same denominator.
    pub fn fract_of_nonneg(&self) -> (r: Rational)
        requires
            self.wf(),
            self.numer() >= 0,
        ensures
            r.wf(),
            r.numer() == self.numer() % self.denom(),
            r.denom() == self.denom(),
            0 <= r.numer() < r.denom(),
    {
        Rational { n: self.n % self.d, d: self.d }
    }
}

impl PartialEq for Rational {
    fn eq(&self, other: &Rational) -> (r: bool) {
        proof {
            lemma_i64_cross_fits(self.n as int, other.d as int);
            lemma_i64_cross_fits(other.n as int, self.d as int);
        }
        (self.n as i128) * (other.d as i128) == (other.n as i128) * (self.d as i128)
    }
}

impl vstd::std_specs::cmp::PartialEqSpecImpl for Rational {
    open spec fn obeys_eq_spec() -> bool {
        true
    }

    open spec fn eq_spec(&self, other: &Rational) -> bool {
        rat_eq(*self, *other)
    }
}

} // verus!
