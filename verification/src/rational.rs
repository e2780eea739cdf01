//! Exact rational numbers.
//!
//! `Frac` is the mathematical model: a quotient of two unbounded integers.
//! `Rat` is the executable representation: a quotient of two `i64` values
//! with a positive denominator, reduced after every operation so that small
//! values stay small.  Operations that could leave the `i64` range return
//! `None`; comparisons and negation are total.

use vstd::arithmetic::div_mod::*;
use vstd::arithmetic::mul::*;
use vstd::prelude::*;

verus! {

/// A mathematical rational number `num / den`.  Only values with `den > 0`
/// (see `frac_wf`) are meaningful; equality of fractions is `frac_eq`,
/// not structural equality.
pub ghost struct Frac {
    pub num: int,
    pub den: int,
}

/// A fraction is well formed when its denominator is positive.
pub open spec fn frac_wf(q: Frac) -> bool {
    q.den > 0
}

/// `a` and `b` denote the same rational number (cross multiplication).
pub open spec fn frac_eq(a: Frac, b: Frac) -> bool {
    a.num * b.den == b.num * a.den
}

/// `a <= b` as rational numbers, assuming positive denominators.
pub open spec fn frac_le(a: Frac, b: Frac) -> bool
    recommends
        frac_wf(a),
        frac_wf(b),
{
    a.num * b.den <= b.num * a.den
}

/// `a < b` as rational numbers, assuming positive denominators.
pub open spec fn frac_lt(a: Frac, b: Frac) -> bool
    recommends
        frac_wf(a),
        frac_wf(b),
{
    a.num * b.den < b.num * a.den
}

/// The integer `i` as a fraction.
pub open spec fn frac_int(i: int) -> Frac {
    Frac { num: i, den: 1 }
}

/// Exact sum of two fractions.
pub open spec fn frac_add(a: Frac, b: Frac) -> Frac {
    Frac { num: a.num * b.den + b.num * a.den, den: a.den * b.den }
}

/// Exact negation of a fraction.
pub open spec fn frac_neg(a: Frac) -> Frac {
    Frac { num: -a.num, den: a.den }
}

/// Exact difference of two fractions.
pub open spec fn frac_sub(a: Frac, b: Frac) -> Frac {
    frac_add(a, frac_neg(b))
}

/// Exact product of two fractions.
pub open spec fn frac_mul(a: Frac, b: Frac) -> Frac {
    Frac { num: a.num * b.num, den: a.den * b.den }
}

/// Reciprocal of a fraction with a positive numerator.
pub open spec fn frac_inv_pos(a: Frac) -> Frac
    recommends
        a.num > 0,
{
    Frac { num: a.den, den: a.num }
}

/// The larger of two fractions.
pub open spec fn frac_max(a: Frac, b: Frac) -> Frac {
    if frac_lt(a, b) {
        b
    } else {
        a
    }
}

/// The smaller of two fractions.
pub open spec fn frac_min(a: Frac, b: Frac) -> Frac {
    if frac_lt(b, a) {
        b
    } else {
        a
    }
}

/// The fraction denotes a value representable by a well-formed `Rat`.
pub open spec fn frac_fits_i64(q: Frac) -> bool {
    -i64::MAX <= q.num <= i64::MAX && 0 < q.den <= i64::MAX
}

/// The absolute value of an integer.
pub open spec fn iabs(x: int) -> int {
    if x < 0 {
        -x
    } else {
        x
    }
}

/// Euclid's greatest common divisor.
pub open spec fn gcd_rec(a: nat, b: nat) -> nat
    decreases b,
{
    if b == 0 {
        a
    } else {
        gcd_rec(b, a % b)
    }
}

/// The canonical (lowest-terms) representation of a fraction: both
/// components divided by their greatest common divisor.  This is the
/// representation that every `Rat` operation stores.
pub open spec fn frac_canon(q: Frac) -> Frac
    recommends
        frac_wf(q),
{
    let g = gcd_rec(iabs(q.num) as nat, q.den as nat) as int;
    Frac { num: q.num / g, den: q.den / g }
}

/// The canonical representation of the fraction fits a well-formed `Rat`:
/// the exact condition under which the `Rat` operations succeed.
pub open spec fn canon_fits(q: Frac) -> bool {
    frac_fits_i64(frac_canon(q))
}

/// The reciprocal representation that `Rat::recip` stores: the components
/// flipped, with the sign moved into the numerator.
pub open spec fn frac_recip(q: Frac) -> Frac
    recommends
        q.num != 0,
{
    if q.num > 0 {
        Frac { num: q.den, den: q.num }
    } else {
        Frac { num: -q.den, den: -q.num }
    }
}

// ------------------------------------------------------------------
// Laws of the rational model.
// ------------------------------------------------------------------

/// `frac_eq` is symmetric.
pub proof fn lemma_frac_eq_symm(a: Frac, b: Frac)
    requires
        frac_eq(a, b),
    ensures
        frac_eq(b, a),
{
}

/// `frac_eq` is transitive on well-formed fractions.
pub proof fn lemma_frac_eq_trans(a: Frac, b: Frac, c: Frac)
    by (nonlinear_arith)
    requires
        frac_wf(a),
        frac_wf(b),
        frac_wf(c),
        frac_eq(a, b),
        frac_eq(b, c),
    ensures
        frac_eq(a, c),
{
    assert((a.num * c.den) * b.den == (c.num * a.den) * b.den);
}

/// Sums of equal fractions are equal.
#[verifier::rlimit(50)]
pub proof fn lemma_frac_add_congruence(a1: Frac, a2: Frac, b1: Frac, b2: Frac)
    requires
        frac_wf(a1),
        frac_wf(a2),
        frac_wf(b1),
        frac_wf(b2),
        frac_eq(a1, a2),
        frac_eq(b1, b2),
    ensures
        frac_eq(frac_add(a1, b1), frac_add(a2, b2)),
{
    let n1 = a1.num;
    let d1 = a1.den;
    let n2 = a2.num;
    let d2 = a2.den;
    let m1 = b1.num;
    let e1 = b1.den;
    let m2 = b2.num;
    let e2 = b2.den;
    lemma_mul_is_distributive_add_other_way(d2 * e2, n1 * e1, m1 * d1);
    assert((n1 * e1) * (d2 * e2) == (n1 * d2) * (e1 * e2)) by (nonlinear_arith);
    assert((m1 * d1) * (d2 * e2) == (m1 * e2) * (d1 * d2)) by (nonlinear_arith);
    lemma_mul_is_distributive_add_other_way(d1 * e1, n2 * e2, m2 * d2);
    assert((n2 * e2) * (d1 * e1) == (n2 * d1) * (e1 * e2)) by (nonlinear_arith);
    assert((m2 * d2) * (d1 * e1) == (m2 * e1) * (d1 * d2)) by (nonlinear_arith);
}

/// Products of equal fractions are equal.
#[verifier::rlimit(50)]
pub proof fn lemma_frac_mul_congruence(a1: Frac, a2: Frac, b1: Frac, b2: Frac)
    requires
        frac_wf(a1),
        frac_wf(a2),
        frac_wf(b1),
        frac_wf(b2),
        frac_eq(a1, a2),
        frac_eq(b1, b2),
    ensures
        frac_eq(frac_mul(a1, b1), frac_mul(a2, b2)),
{
    let n1 = a1.num;
    let d1 = a1.den;
    let n2 = a2.num;
    let d2 = a2.den;
    let m1 = b1.num;
    let e1 = b1.den;
    let m2 = b2.num;
    let e2 = b2.den;
    assert((n1 * m1) * (d2 * e2) == (n1 * d2) * (m1 * e2)) by (nonlinear_arith);
    assert((n2 * m2) * (d1 * e1) == (n2 * d1) * (m2 * e1)) by (nonlinear_arith);
}

/// Negations of equal fractions are equal.
pub proof fn lemma_frac_neg_congruence(a1: Frac, a2: Frac)
    by (nonlinear_arith)
    requires
        frac_eq(a1, a2),
    ensures
        frac_eq(frac_neg(a1), frac_neg(a2)),
{
}

/// One direction of the order congruence below.
proof fn lemma_frac_le_congruence_forward(a1: Frac, a2: Frac, b1: Frac, b2: Frac)
    requires
        frac_wf(a1),
        frac_wf(a2),
        frac_wf(b1),
        frac_wf(b2),
        frac_eq(a1, a2),
        frac_eq(b1, b2),
        frac_le(a1, b1),
    ensures
        frac_le(a2, b2),
{
    let n1 = a1.num;
    let d1 = a1.den;
    let n2 = a2.num;
    let d2 = a2.den;
    let m1 = b1.num;
    let e1 = b1.den;
    let m2 = b2.num;
    let e2 = b2.den;
    lemma_mul_strictly_positive(d2, e2);
    lemma_mul_inequality(n1 * e1, m1 * d1, d2 * e2);
    assert((n1 * e1) * (d2 * e2) == (n1 * d2) * (e1 * e2)) by (nonlinear_arith);
    assert((m1 * d1) * (d2 * e2) == (m1 * e2) * (d1 * d2)) by (nonlinear_arith);
    assert((n2 * d1) * (e1 * e2) == (n2 * e2) * (d1 * e1)) by (nonlinear_arith);
    assert((m2 * e1) * (d1 * d2) == (m2 * d2) * (d1 * e1)) by (nonlinear_arith);
    lemma_mul_strictly_positive(d1, e1);
    lemma_mul_inequality_converse(n2 * e2, m2 * d2, d1 * e1);
}

/// Order is invariant under `frac_eq`.
pub proof fn lemma_frac_le_congruence(a1: Frac, a2: Frac, b1: Frac, b2: Frac)
    requires
        frac_wf(a1),
        frac_wf(a2),
        frac_wf(b1),
        frac_wf(b2),
        frac_eq(a1, a2),
        frac_eq(b1, b2),
    ensures
        frac_le(a1, b1) == frac_le(a2, b2),
        frac_lt(a1, b1) == frac_lt(a2, b2),
{
    if frac_le(a1, b1) {
        lemma_frac_le_congruence_forward(a1, a2, b1, b2);
    }
    if frac_le(a2, b2) {
        lemma_frac_le_congruence_forward(a2, a1, b2, b1);
    }
    if frac_le(b1, a1) {
        lemma_frac_le_congruence_forward(b1, b2, a1, a2);
    }
    if frac_le(b2, a2) {
        lemma_frac_le_congruence_forward(b2, b1, a2, a1);
    }
}

/// A `<=` followed by a `<` gives a `<`.
pub proof fn lemma_frac_le_lt_trans(a: Frac, b: Frac, c: Frac)
    by (nonlinear_arith)
    requires
        frac_wf(a),
        frac_wf(b),
        frac_wf(c),
        frac_le(a, b),
        frac_lt(b, c),
    ensures
        frac_lt(a, c),
{
}

/// Reciprocals of equal positive fractions are equal.
pub proof fn lemma_frac_inv_pos_congruence(a: Frac, b: Frac)
    by (nonlinear_arith)
    requires
        frac_wf(a),
        frac_wf(b),
        a.num > 0,
        b.num > 0,
        frac_eq(a, b),
    ensures
        frac_eq(frac_inv_pos(a), frac_inv_pos(b)),
{
}

/// Positivity of the numerator carries over rational equality.
pub proof fn lemma_frac_pos_congruence(a: Frac, b: Frac)
    by (nonlinear_arith)
    requires
        frac_wf(a),
        frac_wf(b),
        frac_eq(a, b),
        a.num > 0,
    ensures
        b.num > 0,
{
}

/// Minima and maxima of equal fractions are equal.
pub proof fn lemma_frac_extrema_congruence(a1: Frac, a2: Frac, b1: Frac, b2: Frac)
    requires
        frac_wf(a1),
        frac_wf(a2),
        frac_wf(b1),
        frac_wf(b2),
        frac_eq(a1, a2),
        frac_eq(b1, b2),
    ensures
        frac_eq(frac_min(a1, b1), frac_min(a2, b2)),
        frac_eq(frac_max(a1, b1), frac_max(a2, b2)),
{
    lemma_frac_le_congruence(a1, a2, b1, b2);
    lemma_frac_le_congruence(b1, b2, a1, a2);
}

/// A well-formed sum of well-formed fractions is well formed.
pub proof fn lemma_frac_add_wf(a: Frac, b: Frac)
    by (nonlinear_arith)
    requires
        frac_wf(a),
        frac_wf(b),
    ensures
        frac_wf(frac_add(a, b)),
        frac_wf(frac_mul(a, b)),
{
}

/// Addition is commutative up to structural equality.
pub proof fn lemma_frac_add_comm(a: Frac, b: Frac)
    by (nonlinear_arith)
    ensures
        frac_add(a, b) == frac_add(b, a),
{
}

/// Addition is associative up to structural equality.
#[verifier::rlimit(50)]
pub proof fn lemma_frac_add_assoc(a: Frac, b: Frac, c: Frac)
    ensures
        frac_add(frac_add(a, b), c) == frac_add(a, frac_add(b, c)),
{
    let an = a.num;
    let ad = a.den;
    let bn = b.num;
    let bd = b.den;
    let cn = c.num;
    let cd = c.den;
    lemma_mul_is_distributive_add_other_way(cd, an * bd, bn * ad);
    lemma_mul_is_distributive_add_other_way(ad, bn * cd, cn * bd);
    assert((an * bd) * cd == an * (bd * cd)) by (nonlinear_arith);
    assert((bn * ad) * cd == (bn * cd) * ad) by (nonlinear_arith);
    assert(cn * (ad * bd) == (cn * bd) * ad) by (nonlinear_arith);
    assert((ad * bd) * cd == ad * (bd * cd)) by (nonlinear_arith);
}

/// Multiplication is commutative up to structural equality.
pub proof fn lemma_frac_mul_comm(a: Frac, b: Frac)
    by (nonlinear_arith)
    ensures
        frac_mul(a, b) == frac_mul(b, a),
{
}

/// Multiplication is associative up to structural equality.
pub proof fn lemma_frac_mul_assoc(a: Frac, b: Frac, c: Frac)
    by (nonlinear_arith)
    ensures
        frac_mul(frac_mul(a, b), c) == frac_mul(a, frac_mul(b, c)),
{
}

/// Multiplication distributes over addition, up to rational equality.
#[verifier::rlimit(50)]
pub proof fn lemma_frac_mul_distrib(a: Frac, b: Frac, c: Frac)
    requires
        frac_wf(a),
        frac_wf(b),
        frac_wf(c),
    ensures
        frac_eq(frac_mul(a, frac_add(b, c)), frac_add(frac_mul(a, b), frac_mul(a, c))),
{
    let an = a.num;
    let ad = a.den;
    let bn = b.num;
    let bd = b.den;
    let cn = c.num;
    let cd = c.den;
    let lhs = frac_mul(a, frac_add(b, c));
    let rhs = frac_add(frac_mul(a, b), frac_mul(a, c));
    assert(rhs.num == ad * lhs.num) by {
        lemma_mul_is_distributive_add(an, bn * cd, cn * bd);
        lemma_mul_is_distributive_add(ad, an * (bn * cd), an * (cn * bd));
        assert((an * bn) * (ad * cd) == ad * (an * (bn * cd))) by (nonlinear_arith);
        assert((an * cn) * (ad * bd) == ad * (an * (cn * bd))) by (nonlinear_arith);
    }
    assert(rhs.den == ad * lhs.den) by {
        assert((ad * bd) * (ad * cd) == ad * (ad * (bd * cd))) by (nonlinear_arith);
    }
    assert(lhs.num * rhs.den == rhs.num * lhs.den) by {
        let x = lhs.num;
        let y = lhs.den;
        assert(x * (ad * y) == (ad * x) * y) by (nonlinear_arith);
    }
}

/// Zero is the additive unit, up to rational equality.
pub proof fn lemma_frac_add_zero(a: Frac)
    by (nonlinear_arith)
    requires
        frac_wf(a),
    ensures
        frac_eq(frac_add(a, frac_int(0)), a),
        frac_eq(frac_add(frac_int(0), a), a),
{
}

/// One is the multiplicative unit and zero annihilates, up to rational equality.
pub proof fn lemma_frac_mul_units(a: Frac)
    by (nonlinear_arith)
    requires
        frac_wf(a),
    ensures
        frac_eq(frac_mul(a, frac_int(1)), a),
        frac_eq(frac_mul(frac_int(1), a), a),
        frac_eq(frac_mul(a, frac_int(0)), frac_int(0)),
        frac_eq(frac_mul(frac_int(0), a), frac_int(0)),
{
}

/// Negation distributes over addition, structurally.
pub proof fn lemma_frac_neg_add(a: Frac, b: Frac)
    ensures
        frac_add(frac_neg(a), frac_neg(b)) == frac_neg(frac_add(a, b)),
{
    lemma_mul_unary_negation(a.num, b.den);
    lemma_mul_unary_negation(b.num, a.den);
}

/// Negation moves through multiplication, structurally.
pub proof fn lemma_frac_mul_neg(a: Frac, b: Frac)
    ensures
        frac_mul(frac_neg(a), b) == frac_neg(frac_mul(a, b)),
        frac_mul(a, frac_neg(b)) == frac_neg(frac_mul(a, b)),
{
    lemma_mul_unary_negation(a.num, b.num);
}

/// Adding and then subtracting the same fraction is the identity.
pub proof fn lemma_frac_add_sub_cancel(a: Frac, b: Frac)
    by (nonlinear_arith)
    requires
        frac_wf(a),
        frac_wf(b),
    ensures
        frac_eq(frac_sub(frac_add(a, b), b), a),
{
}

/// A fraction plus its negation is zero.
pub proof fn lemma_frac_add_neg_self(a: Frac)
    requires
        frac_wf(a),
    ensures
        frac_eq(frac_add(a, frac_neg(a)), frac_int(0)),
{
    lemma_mul_unary_negation(a.num, a.den);
    assert((a.num * a.den + (-a.num) * a.den) * 1 == 0 * (a.den * a.den)) by (nonlinear_arith)
        requires
            (-a.num) * a.den == -(a.num * a.den),
    ;
}

/// Subtracting a difference from its minuend leaves the subtrahend.
pub proof fn lemma_frac_sub_sub(a: Frac, b: Frac)
    requires
        frac_wf(a),
        frac_wf(b),
    ensures
        frac_eq(frac_sub(a, frac_sub(a, b)), b),
{
    lemma_frac_neg_add(a, frac_neg(b));
    assert(frac_neg(frac_neg(b)) == b);
    assert(frac_sub(a, frac_sub(a, b)) == frac_add(a, frac_add(frac_neg(a), b)));
    lemma_frac_add_assoc(a, frac_neg(a), b);
    lemma_frac_add_neg_self(a);
    lemma_frac_add_wf(a, frac_neg(a));
    lemma_frac_add_congruence(frac_add(a, frac_neg(a)), frac_int(0), b, b);
    lemma_frac_add_zero(b);
    lemma_frac_add_wf(frac_add(a, frac_neg(a)), b);
    lemma_frac_add_wf(frac_int(0), b);
    lemma_frac_eq_trans(
        frac_add(frac_add(a, frac_neg(a)), b),
        frac_add(frac_int(0), b),
        b,
    );
}

// ------------------------------------------------------------------
// Executable rationals.
// ------------------------------------------------------------------

/// An exact rational number held in machine integers: `num / den` with
/// `den > 0` and `num > i64::MIN` (see `Rat::wf`), kept in lowest terms by
/// the operations of this module.
#[derive(Clone, Copy, Debug)]
pub struct Rat {
    num: i64,
    den: i64,
}

impl View for Rat {
    type V = Frac;

    closed spec fn view(&self) -> Frac {
        Frac { num: self.num as int, den: self.den as int }
    }
}

impl Rat {
    /// Well-formedness: positive denominator, numerator negatable in `i64`.
    pub open spec fn wf(&self) -> bool {
        0 < self@.den && -i64::MAX <= self@.num
    }

    /// The numerator of the stored representation.
    pub fn numer(&self) -> (n: i64)
        ensures
            n == self@.num,
    {
        self.num
    }

    /// The denominator of the stored representation.
    pub fn denom(&self) -> (d: i64)
        ensures
            d == self@.den,
    {
        self.den
    }

    /// The integer `i` as a rational.
    pub fn from_int(i: i64) -> (r: Rat)
        requires
            -i64::MAX <= i,
        ensures
            r.wf(),
            r@ == frac_int(i as int),
    {
        Rat { num: i, den: 1 }
    }

    /// The rational `num / den`, reduced to lowest terms.  `None` when
    /// `den` is zero or the reduced value leaves the `i64` range.
    pub fn new(num: i64, den: i64) -> (r: Option<Rat>)
        ensures
            r matches Some(v) ==> v.wf() && frac_eq(
                v@,
                Frac { num: num as int, den: den as int },
            ),
            -i64::MAX <= num && den != 0 && -i64::MAX <= den ==> r is Some,
            r matches Some(v) ==> iabs(v@.num) <= iabs(num as int) && v@.den <= iabs(den as int),
    {
        if den == 0 {
            return None;
        }
        let n128: i128 = num as i128;
        let d128: i128 = den as i128;
        let flip: bool = den < 0;
        let rn: i128 = if flip {
            -n128
        } else {
            n128
        };
        let rd: i128 = if flip {
            -d128
        } else {
            d128
        };
        let r = reduce(rn, rd);
        proof {
            if flip {
                if let Some(v) = r {
                    assert(v@.num * (den as int) == (num as int) * v@.den) by (nonlinear_arith)
                        requires
                            v@.num * (-(den as int)) == (-(num as int)) * v@.den,
                    ;
                }
            }
        }
        r
    }

    /// The rational zero.
    pub fn zero() -> (r: Rat)
        ensures
            r.wf(),
            r@ == frac_int(0),
    {
        Rat { num: 0, den: 1 }
    }

    /// The rational one.
    pub fn one() -> (r: Rat)
        ensures
            r.wf(),
            r@ == frac_int(1),
    {
        Rat { num: 1, den: 1 }
    }

    /// Exact negation; total on well-formed rationals.
    pub fn neg(&self) -> (r: Rat)
        requires
            self.wf(),
        ensures
            r.wf(),
            r@ == frac_neg(self@),
    {
        Rat { num: -self.num, den: self.den }
    }

    /// Decides rational equality of the denoted values.
    pub fn equals(&self, other: &Rat) -> (r: bool)
        requires
            self.wf(),
            other.wf(),
        ensures
            r == frac_eq(self@, other@),
    {
        let lhs: i128 = mul_i64(self.num, other.den);
        let rhs: i128 = mul_i64(other.num, self.den);
        lhs == rhs
    }

    /// Decides `self < other` on the denoted values.
    pub fn lt(&self, other: &Rat) -> (r: bool)
        requires
            self.wf(),
            other.wf(),
        ensures
            r == frac_lt(self@, other@),
    {
        let lhs: i128 = mul_i64(self.num, other.den);
        let rhs: i128 = mul_i64(other.num, self.den);
        lhs < rhs
    }

    /// Decides `self <= other` on the denoted values.
    pub fn le(&self, other: &Rat) -> (r: bool)
        requires
            self.wf(),
            other.wf(),
        ensures
            r == frac_le(self@, other@),
    {
        let lhs: i128 = mul_i64(self.num, other.den);
        let rhs: i128 = mul_i64(other.num, self.den);
        lhs <= rhs
    }

    /// Decides whether the value is strictly negative.
    pub fn is_neg(&self) -> (r: bool)
        requires
            self.wf(),
        ensures
            r == frac_lt(self@, frac_int(0)),
    {
        proof {
            lemma_mul_strictly_positive(-self@.num, self@.den);
            lemma_mul_strictly_positive(self@.num, self@.den);
        }
        self.num < 0
    }

    /// Exact sum.  `None` only when even the reduced result leaves the
    /// `i64` range; always succeeds when the unreduced result fits.
    pub fn checked_add(&self, other: &Rat) -> (r: Option<Rat>)
        requires
            self.wf(),
            other.wf(),
        ensures
            r matches Some(v) ==> v.wf() && frac_eq(v@, frac_add(self@, other@)),
            frac_fits_i64(frac_add(self@, other@)) ==> r is Some,
            r matches Some(v) ==> v@ == frac_canon(frac_add(self@, other@)),
            r is Some <==> canon_fits(frac_add(self@, other@)),
    {
        let p1: i128 = mul_i64(self.num, other.den);
        let p2: i128 = mul_i64(other.num, self.den);
        let n: i128 = p1 + p2;
        let d: i128 = mul_i64(self.den, other.den);
        proof {
            lemma_mul_strictly_positive(self@.den, other@.den);
        }
        reduce(n, d)
    }

    /// Exact difference.  `None` only when even the reduced result leaves
    /// the `i64` range; always succeeds when the unreduced result fits.
    pub fn checked_sub(&self, other: &Rat) -> (r: Option<Rat>)
        requires
            self.wf(),
            other.wf(),
        ensures
            r matches Some(v) ==> v.wf() && frac_eq(v@, frac_sub(self@, other@)),
            frac_fits_i64(frac_sub(self@, other@)) ==> r is Some,
            r matches Some(v) ==> v@ == frac_canon(frac_sub(self@, other@)),
            r is Some <==> canon_fits(frac_sub(self@, other@)),
    {
        let o = other.neg();
        self.checked_add(&o)
    }

    /// Exact product.  `None` only when even the reduced result leaves the
    /// `i64` range; always succeeds when the unreduced result fits.
    pub fn checked_mul(&self, other: &Rat) -> (r: Option<Rat>)
        requires
            self.wf(),
            other.wf(),
        ensures
            r matches Some(v) ==> v.wf() && frac_eq(v@, frac_mul(self@, other@)),
            frac_fits_i64(frac_mul(self@, other@)) ==> r is Some,
            r matches Some(v) ==> v@ == frac_canon(frac_mul(self@, other@)),
            r is Some <==> canon_fits(frac_mul(self@, other@)),
    {
        let n: i128 = mul_i64(self.num, other.num);
        let d: i128 = mul_i64(self.den, other.den);
        proof {
            lemma_mul_strictly_positive(self@.den, other@.den);
        }
        reduce(n, d)
    }

    /// The larger of the two denoted values.
    pub fn max_of(&self, other: &Rat) -> (r: Rat)
        requires
            self.wf(),
            other.wf(),
        ensures
            r.wf(),
            r@ == frac_max(self@, other@),
    {
        if self.lt(other) {
            *other
        } else {
            *self
        }
    }

    /// The smaller of the two denoted values.
    pub fn min_of(&self, other: &Rat) -> (r: Rat)
        requires
            self.wf(),
            other.wf(),
        ensures
            r.wf(),
            r@ == frac_min(self@, other@),
    {
        if other.lt(self) {
            *other
        } else {
            *self
        }
    }

    /// Decides whether the value is zero.
    pub fn is_zero(&self) -> (r: bool)
        requires
            self.wf(),
        ensures
            r == frac_eq(self@, frac_int(0)),
    {
        self.num == 0
    }

    /// Reciprocal of a nonzero rational; total.
    pub fn recip(&self) -> (r: Rat)
        requires
            self.wf(),
            self@.num != 0,
        ensures
            r.wf(),
            frac_eq(frac_mul(self@, r@), frac_int(1)),
            r@ == frac_recip(self@),
    {
        if self.num > 0 {
            let r = self.inv_pos();
            proof {
                lemma_mul_is_commutative(self@.num, self@.den);
            }
            r
        } else {
            let n = self.neg();
            let i = n.inv_pos();
            let r = i.neg();
            proof {
                lemma_mul_is_commutative(self@.num, self@.den);
                lemma_mul_unary_negation(self@.num, self@.den);
                lemma_mul_unary_negation(self@.den, self@.num);
            }
            r
        }
    }

    /// Reciprocal of a strictly positive rational; total.
    pub fn inv_pos(&self) -> (r: Rat)
        requires
            self.wf(),
            self@.num > 0,
        ensures
            r.wf(),
            r@ == frac_inv_pos(self@),
    {
        Rat { num: self.den, den: self.num }
    }
}

// ------------------------------------------------------------------
// Reduction to lowest terms.
// ------------------------------------------------------------------

/// Euclid's algorithm.  Only divisibility of the result is relied on,
/// which is all that reduction to lowest terms needs.
fn gcd_u128(a: u128, b: u128) -> (g: u128)
    requires
        a > 0 || b > 0,
    ensures
        g > 0,
        a as int % g as int == 0,
        b as int % g as int == 0,
        g as nat == gcd_rec(a as nat, b as nat),
{
    let mut x: u128 = a;
    let mut y: u128 = b;
    while y != 0
        invariant
            x > 0 || y > 0,
            gcd_rec(x as nat, y as nat) == gcd_rec(a as nat, b as nat),
            forall|w: int|
                1 <= w && #[trigger] (x as int % w) == 0 && y as int % w == 0 ==> a as int % w
                    == 0 && b as int % w == 0,
        decreases y,
    {
        let r: u128 = x % y;
        proof {
            let xi = x as int;
            let yi = y as int;
            let ri = r as int;
            lemma_mod_bound(xi, yi);
            lemma_fundamental_div_mod(xi, yi);
            assert(r as nat == (x as nat) % (y as nat));
            assert(gcd_rec(x as nat, y as nat) == gcd_rec(y as nat, r as nat));
            assert forall|w: int|
                1 <= w && #[trigger] (yi % w) == 0 && ri % w == 0 implies a as int % w == 0
                && b as int % w == 0 by {
                lemma_small_mod(0nat, w as nat);
                lemma_mul_mod_noop_left(yi, xi / yi, w);
                lemma_add_mod_noop(yi * (xi / yi), ri, w);
                assert(xi % w == 0);
            }
        }
        x = y;
        y = r;
    }
    proof {
        let xi = x as int;
        lemma_mod_self_0(xi);
        lemma_small_mod(0nat, xi as nat);
        assert(xi % xi == 0 && y as int % xi == 0);
    }
    x
}

/// Writes the exact value `n / d` in lowest terms; `None` exactly when
/// even the canonical representation leaves the `i64` range.
fn reduce(n: i128, d: i128) -> (r: Option<Rat>)
    requires
        d > 0,
        n > i128::MIN,
    ensures
        r matches Some(v) ==> v.wf() && frac_eq(v@, Frac { num: n as int, den: d as int }),
        frac_fits_i64(Frac { num: n as int, den: d as int }) ==> r is Some,
        r matches Some(v) ==> v@ == frac_canon(Frac { num: n as int, den: d as int }),
        r matches Some(v) ==> iabs(v@.num) <= iabs(n as int) && v@.den <= d,
        r is Some <==> canon_fits(Frac { num: n as int, den: d as int }),
{
    let neg: bool = n < 0;
    let m: u128 = if neg {
        (-n) as u128
    } else {
        n as u128
    };
    let du: u128 = d as u128;
    let g: u128 = gcd_u128(m, du);
    let mq: u128 = m / g;
    let dq: u128 = du / g;
    proof {
        let mi = m as int;
        let di = du as int;
        let gi = g as int;
        lemma_fundamental_div_mod(mi, gi);
        lemma_fundamental_div_mod(di, gi);
        lemma_div_nonincreasing(mi, gi);
        lemma_div_nonincreasing(di, gi);
        assert(mi == gi * (mi / gi));
        assert(di == gi * (di / gi));
        assert(di / gi >= 1) by {
            lemma_div_pos_is_pos(di, gi);
            if di / gi == 0 {
                assert(di == gi * 0);
            }
        }
        // the quotients are exactly the canonical components
        assert(mi == iabs(n as int));
        let q0 = Frac { num: n as int, den: d as int };
        assert(gi == gcd_rec(iabs(q0.num) as nat, q0.den as nat));
        assert(frac_canon(q0).den == dq);
        if neg {
            assert((n as int) == (-(mi / gi)) * gi + 0) by (nonlinear_arith)
                requires
                    mi == gi * (mi / gi),
                    n as int == -mi,
            ;
            lemma_fundamental_div_mod_converse(n as int, gi, -(mi / gi), 0);
            assert(frac_canon(q0).num == -(mq as int));
        } else {
            assert(frac_canon(q0).num == mq);
        }
    }
    if mq <= (i64::MAX as u128) && dq <= (i64::MAX as u128) {
        let den: i64 = dq as i64;
        let num: i64 = if neg {
            -(mq as i64)
        } else {
            mq as i64
        };
        let v = Rat { num, den };
        proof {
            let mi = m as int;
            let di = du as int;
            let gi = g as int;
            assert((mi / gi) * di == mi * (di / gi)) by (nonlinear_arith)
                requires
                    mi == gi * (mi / gi),
                    di == gi * (di / gi),
            ;
            if neg {
                assert(mi == -(n as int));
                lemma_mul_unary_negation(mi / gi, di);
                lemma_mul_unary_negation(mi, di / gi);
            }
            assert(v@.num * (d as int) == (n as int) * v@.den);
        }
        Some(v)
    } else {
        None
    }
}

// ------------------------------------------------------------------
// Helpers for exact machine arithmetic.
// ------------------------------------------------------------------

/// Bounds of a product of two `i64`-range integers.
pub proof fn lemma_i64_product_bounds(a: int, b: int)
    by (nonlinear_arith)
    requires
        -i64::MAX <= a <= i64::MAX,
        -i64::MAX <= b <= i64::MAX,
    ensures
        -0x3fff_ffff_ffff_ffff_ffff_ffff_ffff_ffff <= a * b,
        a * b <= 0x3fff_ffff_ffff_ffff_ffff_ffff_ffff_ffff,
{
}

/// Widening product of two `i64` values whose magnitudes stay below `i64::MAX`.
fn mul_i64(a: i64, b: i64) -> (r: i128)
    requires
        -i64::MAX <= a,
        -i64::MAX <= b,
    ensures
        r == a as int * b as int,
        -0x3fff_ffff_ffff_ffff_ffff_ffff_ffff_ffff <= r <= 0x3fff_ffff_ffff_ffff_ffff_ffff_ffff_ffff,
{
    proof {
        lemma_i64_product_bounds(a as int, b as int);
    }
    (a as i128) * (b as i128)
}

} // verus!
