//! A fee rate as a ratio, applied as a proportion of an amount.

use std::cmp::Ordering;
use vstd::prelude::*;

verus! {

/// Largest allowed denominator of a fee; its square fits in a `u64`.
pub const MAX_FEE_PRECISION: u64 = 1_000_000_000;

/// Why a fee ratio was refused.
#[derive(Debug, Clone, Copy, PartialEq, Eq, Structural)]
pub enum FeeError {
    /// The denominator is zero or above `MAX_FEE_PRECISION`.
    InvalidFeeDenominator,
    /// The numerator is above the denominator.
    FeeTooHigh,
}

/// Fee rate as a ratio `numerator / denominator`.
#[derive(Debug, Clone, Copy, Default)]
pub struct Fee {
    numerator: u64,
    denominator: u64,
}

/// The error that validating `numerator / denominator` gives, if any.
pub open spec fn fee_error(numerator: u64, denominator: u64) -> Option<FeeError> {
    if denominator == 0 || denominator > MAX_FEE_PRECISION {
        Some(FeeError::InvalidFeeDenominator)
    } else if numerator > denominator {
        Some(FeeError::FeeTooHigh)
    } else {
        None
    }
}

impl Fee {
    /// The numerator.
    pub closed spec fn num(&self) -> u64 {
        self.numerator
    }

    /// The denominator.
    pub closed spec fn den(&self) -> u64 {
        self.denominator
    }

    /// `0 < denominator <= MAX_FEE_PRECISION` and `numerator <= denominator`.
    pub open spec fn valid(&self) -> bool {
        fee_error(self.num(), self.den()).is_none()
    }

    /// Builds a validated fee ratio.
    pub fn try_new(numerator: u64, denominator: u64) -> (r: Result<Fee, FeeError>)
        ensures
            match fee_error(numerator, denominator) {
                Some(e) => r == Err::<Fee, FeeError>(e),
                None => r.is_ok() && r.unwrap().num() == numerator && r.unwrap().den()
                    == denominator,
            },
    {
        let res = Fee { numerator, denominator };
        match res.check() {
            Ok(()) => Ok(res),
            Err(e) => Err(e),
        }
    }

    /// The fee ratio `0 / 1`.
    pub fn zero() -> (r: Fee)
        ensures
            r.num() == 0,
            r.den() == 1,
            r.valid(),
    {
        Fee { numerator: 0, denominator: 1 }
    }

    /// Numerator of the ratio.
    pub fn numerator(&self) -> (r: u64)
        ensures
            r == self.num(),
    {
        self.numerator
    }

    /// Denominator of the ratio.
    pub fn denominator(&self) -> (r: u64)
        ensures
            r == self.den(),
    {
        self.denominator
    }

    /// Validates a fee ratio, for instance one read from untrusted storage.
    pub fn check(&self) -> (r: Result<(), FeeError>)
        ensures
            match fee_error(self.num(), self.den()) {
                Some(e) => r == Err::<(), FeeError>(e),
                None => r.is_ok(),
            },
    {
        if self.denominator == 0 || self.denominator > MAX_FEE_PRECISION {
            return Err(FeeError::InvalidFeeDenominator);
        }
        if self.numerator > self.denominator {
            return Err(FeeError::FeeTooHigh);
        }
        Ok(())
    }

    /// The fee on `amt`: `floor(amt * numerator / denominator)`.
    pub fn apply(&self, amt: u64) -> (r: u64)
        requires
            self.valid(),
        ensures
            r as int == (amt as int * self.num() as int) / (self.den() as int),
            r <= amt,
    {
        let amt_expanded = amt as u128;
        let numerator_expanded = self.numerator as u128;
        let denominator_expanded = self.denominator as u128;
        proof {
            lemma_apply_bounded(amt as int, self.numerator as int, self.denominator as int);
        }
        assert(amt_expanded * numerator_expanded <= u64::MAX as u128 * u64::MAX as u128)
            by (nonlinear_arith)
            requires
                amt_expanded <= u64::MAX,
                numerator_expanded <= u64::MAX,
        ;
        let fees = amt_expanded * numerator_expanded / denominator_expanded;
        fees as u64
    }

    /// Composes two fee ratios: `n1 * n2 / (d1 * d2)`, where a denominator above
    /// `MAX_FEE_PRECISION` has both terms divided by
    /// `max(2, denominator / MAX_FEE_PRECISION)`.
    pub fn mul(self, rhs: Fee) -> (r: Fee)
        requires
            self.valid(),
            rhs.valid(),
        ensures
            is_product(r, self, rhs),
            r.num() <= r.den(),
            0 < r.den(),
    {
        proof {
            lemma_mul_bounds(self, rhs);
        }
        let mut numerator = self.numerator * rhs.numerator;
        let mut denominator = self.denominator * rhs.denominator;
        if denominator > MAX_FEE_PRECISION {
            let q = denominator / MAX_FEE_PRECISION;
            let divisor = if q > 2 { q } else { 2 };
            numerator = numerator / divisor;
            denominator = denominator / divisor;
        }
        Fee { numerator, denominator }
    }
}

/// The divisor that composing brings a denominator `d` back under the cap with.
pub open spec fn rescale_divisor(d: int) -> int {
    let q = d / (MAX_FEE_PRECISION as int);
    if q > 2 { q } else { 2 }
}

/// The two cross products `a.num * b.den` and `b.num * a.den`.
pub open spec fn cross(a: Fee, b: Fee) -> (int, int) {
    (a.num() as int * b.den() as int, b.num() as int * a.den() as int)
}

/// How the ratio of `a` compares to that of `b`, by cross-multiplication.
pub open spec fn compare_spec(a: Fee, b: Fee) -> Ordering {
    let c = cross(a, b);
    if c.0 < c.1 {
        Ordering::Less
    } else if c.0 == c.1 {
        Ordering::Equal
    } else {
        Ordering::Greater
    }
}

/// `x * y`, widened so that it cannot overflow.
fn wide_mul(x: u64, y: u64) -> (r: u128)
    ensures
        r as int == x as int * y as int,
{
    assert(x as u128 * y as u128 <= u64::MAX as u128 * u64::MAX as u128) by (nonlinear_arith)
        requires
            x <= u64::MAX,
            y <= u64::MAX,
    ;
    x as u128 * y as u128
}

impl Fee {
    /// Orders two ratios by cross-multiplication.
    pub fn cmp(&self, other: &Fee) -> (r: Ordering)
        ensures
            r == compare_spec(*self, *other),
    {
        let a = wide_mul(self.numerator, other.denominator);
        let b = wide_mul(other.numerator, self.denominator);
        if a < b {
            Ordering::Less
        } else if a == b {
            Ordering::Equal
        } else {
            Ordering::Greater
        }
    }
}

impl PartialEq for Fee {
    fn eq(&self, other: &Fee) -> (r: bool) {
        wide_mul(self.numerator, other.denominator) == wide_mul(other.numerator, self.denominator)
    }
}

impl vstd::std_specs::cmp::PartialEqSpecImpl for Fee {
    open spec fn obeys_eq_spec() -> bool {
        true
    }

    open spec fn eq_spec(&self, other: &Fee) -> bool {
        cross(*self, *other).0 == cross(*self, *other).1
    }
}

impl Eq for Fee {

}

impl PartialOrd for Fee {
    fn partial_cmp(&self, other: &Fee) -> (r: Option<Ordering>) {
        Some(self.cmp(other))
    }
}

impl vstd::std_specs::cmp::PartialOrdSpecImpl for Fee {
    open spec fn obeys_partial_cmp_spec() -> bool {
        true
    }

    open spec fn partial_cmp_spec(&self, other: &Fee) -> Option<Ordering> {
        Some(compare_spec(*self, *other))
    }
}

/// Numerator and denominator of the composition of `n1 / d1` and `n2 / d2`.
pub open spec fn mul_terms(n1: int, d1: int, n2: int, d2: int) -> (int, int) {
    let n = n1 * n2;
    let d = d1 * d2;
    if d > MAX_FEE_PRECISION {
        (n / rescale_divisor(d), d / rescale_divisor(d))
    } else {
        (n, d)
    }
}

/// `r` is the composition of `a` and `b`.
pub open spec fn is_product(r: Fee, a: Fee, b: Fee) -> bool {
    let t = mul_terms(a.num() as int, a.den() as int, b.num() as int, b.den() as int);
    r.num() as int == t.0 && r.den() as int == t.1
}

proof fn lemma_apply_bounded(amt: int, n: int, d: int)
    requires
        0 <= amt,
        0 <= n <= d,
        0 < d,
    ensures
        (amt * n) / d <= amt,
        0 <= (amt * n) / d,
{
    assert(amt * n <= amt * d) by (nonlinear_arith)
        requires
            0 <= amt,
            n <= d,
    ;
    assert((amt * n) / d <= amt) by (nonlinear_arith)
        requires
            amt * n <= amt * d,
            0 < d,
    ;
    assert(0 <= (amt * n) / d) by (nonlinear_arith)
        requires
            0 <= amt,
            0 <= n,
            0 < d,
    ;
}

proof fn lemma_mul_bounds(a: Fee, b: Fee)
    requires
        a.valid(),
        b.valid(),
    ensures
        a.num() as int * b.num() as int <= a.den() as int * b.den() as int,
        0 < a.den() as int * b.den() as int,
        a.den() as int * b.den() as int <= u64::MAX,
        0 <= mul_terms(a.num() as int, a.den() as int, b.num() as int, b.den() as int).0
            <= mul_terms(a.num() as int, a.den() as int, b.num() as int, b.den() as int).1,
        0 < mul_terms(a.num() as int, a.den() as int, b.num() as int, b.den() as int).1
            <= u64::MAX,
{
    let n1 = a.num() as int;
    let n2 = b.num() as int;
    let d1 = a.den() as int;
    let d2 = b.den() as int;
    let m = MAX_FEE_PRECISION as int;
    assert(n1 * n2 <= d1 * d2 && 0 <= n1 * n2) by (nonlinear_arith)
        requires
            0 <= n1 <= d1,
            0 <= n2 <= d2,
    ;
    assert(0 < d1 * d2 <= m * m) by (nonlinear_arith)
        requires
            0 < d1 <= m,
            0 < d2 <= m,
    ;
    let n = n1 * n2;
    let d = d1 * d2;
    if d > m {
        let q = rescale_divisor(d);
        assert(n / q <= d / q) by (nonlinear_arith)
            requires
                0 <= n <= d,
                q > 0,
        ;
        assert(0 < d / q <= d) by (nonlinear_arith)
            requires
                m < d <= m * m,
                m == 1_000_000_000,
                q == (if d / m > 2 { d / m } else { 2 }),
        ;
        assert(0 <= n / q) by (nonlinear_arith)
            requires
                0 <= n,
                q > 0,
        ;
    }
}

} // verus!
