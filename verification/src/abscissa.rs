//! Exact rational coordinates.

use vstd::prelude::*;
use crate::sort_key::SortKey;

verus! {

/// The largest magnitude of a numerator or a denominator on which the
/// heuristics compute without overflow.
pub const ABSCISSA_LIMIT: i64 = 1_073_741_824;

/// The coordinate of a node along its layer: the rational number `num / den`.
///
/// The fraction is kept as it was computed and never reduced, so two
/// abscissas may differ as values of this type and still denote one number;
/// `same_value` tells.
#[derive(Clone, Copy, Debug)]
pub struct Abscissa {
    /// Numerator.
    pub num: i64,
    /// Denominator, positive in every well-formed abscissa.
    pub den: i64,
}

impl Abscissa {
    /// The denominator is positive.
    pub open spec fn wf(&self) -> bool {
        self.den > 0
    }

    /// Numerator and denominator are at most `ABSCISSA_LIMIT` in magnitude.
    pub open spec fn within_limit(&self) -> bool {
        &&& self.wf()
        &&& -ABSCISSA_LIMIT <= self.num <= ABSCISSA_LIMIT
        &&& self.den <= ABSCISSA_LIMIT
    }

    /// `self` is a smaller number than `other`.
    pub open spec fn less_than(&self, other: &Abscissa) -> bool {
        self.num * other.den < other.num * self.den
    }

    /// `self` and `other` denote the same number.
    pub open spec fn same_value(&self, other: &Abscissa) -> bool {
        self.num * other.den == other.num * self.den
    }

    /// The number halfway between `self` and `other`, as the fraction
    /// `(self.num * other.den + other.num * self.den) / (2 * self.den * other.den)`.
    pub open spec fn midpoint(&self, other: &Abscissa) -> Abscissa {
        Abscissa {
            num: (self.num * other.den + other.num * self.den) as i64,
            den: (2 * (self.den * other.den)) as i64,
        }
    }

    /// The abscissa `num / den`.
    pub fn new(num: i64, den: i64) -> (a: Abscissa)
        requires
            den > 0,
        ensures
            a.num == num,
            a.den == den,
            a.wf(),
    {
        Abscissa { num, den }
    }

    /// Tests whether `self` is a smaller number than `other`.
    pub fn is_less_than(&self, other: &Abscissa) -> (b: bool)
        requires
            self.wf(),
            other.wf(),
        ensures
            b == self.less_than(other),
    {
        let left: i128 = cross_product(self.num, other.den);
        let right: i128 = cross_product(other.num, self.den);
        left < right
    }

    /// Tests whether `self` and `other` denote the same number.
    pub fn has_same_value(&self, other: &Abscissa) -> (b: bool)
        requires
            self.wf(),
            other.wf(),
        ensures
            b == self.same_value(other),
    {
        let left: i128 = cross_product(self.num, other.den);
        let right: i128 = cross_product(other.num, self.den);
        left == right
    }

    /// The number halfway between `self` and `other`.
    pub fn average_with(&self, other: &Abscissa) -> (mid: Abscissa)
        requires
            self.within_limit(),
            other.within_limit(),
        ensures
            mid == self.midpoint(other),
            mid.wf(),
            mid.num == self.num * other.den + other.num * self.den,
            mid.den == 2 * (self.den * other.den),
    {
        let left: i128 = cross_product(self.num, other.den);
        let right: i128 = cross_product(other.num, self.den);
        let below: i128 = cross_product(self.den, other.den);
        proof {
            lemma_product_within_limit(self.num as int, other.den as int);
            lemma_product_within_limit(other.num as int, self.den as int);
            lemma_product_within_limit(self.den as int, other.den as int);
        }
        Abscissa { num: (left + right) as i64, den: (2 * below) as i64 }
    }
}

/// A product of two numbers within the limit is within its square.
pub proof fn lemma_product_within_limit(a: int, b: int)
    requires
        -ABSCISSA_LIMIT <= a <= ABSCISSA_LIMIT,
        0 < b <= ABSCISSA_LIMIT,
    ensures
        -ABSCISSA_LIMIT * ABSCISSA_LIMIT <= a * b <= ABSCISSA_LIMIT * ABSCISSA_LIMIT,
        a > 0 ==> a * b > 0,
        ABSCISSA_LIMIT * ABSCISSA_LIMIT == 0x1000_0000_0000_0000,
{
    assert(-ABSCISSA_LIMIT * ABSCISSA_LIMIT <= a * b <= ABSCISSA_LIMIT * ABSCISSA_LIMIT && (a > 0 ==> a * b > 0))
        by (nonlinear_arith)
        requires
            -ABSCISSA_LIMIT <= a <= ABSCISSA_LIMIT,
            0 < b <= ABSCISSA_LIMIT,
    ;
    assert(ABSCISSA_LIMIT * ABSCISSA_LIMIT == 0x1000_0000_0000_0000) by (nonlinear_arith)
        requires
            ABSCISSA_LIMIT == 0x4000_0000,
    ;
}

/// The product of a numerator and a denominator, which always fits 128 bits.
fn cross_product(num: i64, den: i64) -> (p: i128)
    requires
        den > 0,
    ensures
        p == num * den,
{
    assert(-0x4000_0000_0000_0000_0000_0000_0000_0000 <= num * den
        <= 0x4000_0000_0000_0000_0000_0000_0000_0000) by (nonlinear_arith)
        requires
            -0x8000_0000_0000_0000 <= num <= 0x7fff_ffff_ffff_ffff,
            0 < den <= 0x7fff_ffff_ffff_ffff,
    ;
    (num as i128) * (den as i128)
}

/// The order of the rational numbers, on fractions with positive denominators.
pub proof fn lemma_less_than_is_strict_weak_order(a: Abscissa, b: Abscissa, c: Abscissa)
    requires
        a.wf(),
        b.wf(),
        c.wf(),
    ensures
        !a.less_than(&a),
        a.less_than(&b) && b.less_than(&c) ==> a.less_than(&c),
        !a.less_than(&b) && !b.less_than(&c) ==> !a.less_than(&c),
{
    let (an, ad) = (a.num as int, a.den as int);
    let (bn, bd) = (b.num as int, b.den as int);
    let (cn, cd) = (c.num as int, c.den as int);
    assert(an * bd < bn * ad && bn * cd < cn * bd ==> an * cd < cn * ad) by (nonlinear_arith)
        requires
            ad > 0,
            bd > 0,
            cd > 0,
    ;
    assert(an * bd >= bn * ad && bn * cd >= cn * bd ==> an * cd >= cn * ad) by (nonlinear_arith)
        requires
            ad > 0,
            bd > 0,
            cd > 0,
    ;
}

impl SortKey for Abscissa {
    open spec fn valid(&self) -> bool {
        self.wf()
    }

    open spec fn precedes(&self, other: &Self) -> bool {
        self.less_than(other)
    }

    fn is_before(&self, other: &Self) -> (b: bool) {
        self.is_less_than(other)
    }

    proof fn lemma_strict_weak_order(a: &Self, b: &Self, c: &Self) {
        lemma_less_than_is_strict_weak_order(*a, *b, *c);
    }
}

} // verus!
