//! Dense matrices and vectors of exact rationals.
//!
//! The mathematical model is `Seq<Frac>` for vectors and `Seq<Seq<Frac>>`
//! for matrices (row major), compared entrywise with `frac_eq`.  The
//! executable representation is `Vec<Rat>` and `Vec<Vec<Rat>>`.  This module
//! provides the algebraic toolkit (sums, products, identities, distributive
//! and associative laws) that the iteration engine's contracts are stated
//! and proved with.

use crate::rational::{
    canon_fits, frac_add, frac_canon, frac_eq, frac_int, frac_mul, frac_neg, frac_sub, frac_wf,
    lemma_frac_add_assoc,
    lemma_frac_add_comm, lemma_frac_add_congruence, lemma_frac_add_wf, lemma_frac_add_zero,
    lemma_frac_eq_symm, lemma_frac_eq_trans, lemma_frac_mul_assoc, lemma_frac_mul_comm,
    lemma_frac_mul_congruence, lemma_frac_add_sub_cancel, lemma_frac_mul_distrib, lemma_frac_mul_neg, lemma_frac_mul_units,
    lemma_frac_neg_add, lemma_frac_neg_congruence, lemma_frac_sub_sub, Frac, Rat,
};
use vstd::prelude::*;

verus! {

// ------------------------------------------------------------------
// Views of the executable representation.
// ------------------------------------------------------------------

/// The fractions denoted by a sequence of executable rationals.
pub open spec fn rview(r: Seq<Rat>) -> Seq<Frac> {
    Seq::new(r.len(), |i: int| r[i]@)
}

/// The fractions denoted by a row-major executable matrix.
pub open spec fn mview(m: Seq<Vec<Rat>>) -> Seq<Seq<Frac>> {
    Seq::new(m.len(), |i: int| rview(m[i]@))
}

/// Every executable rational of the row is well formed.
pub open spec fn rwf(r: Seq<Rat>) -> bool {
    forall|i: int| 0 <= i < r.len() ==> (#[trigger] r[i]).wf()
}

/// A rectangular, non-empty, well-formed executable matrix.
pub open spec fn mat_ok(m: Seq<Vec<Rat>>) -> bool {
    &&& m.len() >= 1
    &&& m[0]@.len() >= 1
    &&& forall|i: int| 0 <= i < m.len() ==> (#[trigger] m[i])@.len() == m[0]@.len()
    &&& forall|i: int| 0 <= i < m.len() ==> rwf((#[trigger] m[i])@)
}

/// The number of rows of an executable matrix.
pub open spec fn mrows(m: Seq<Vec<Rat>>) -> int {
    m.len() as int
}

/// The number of columns of an executable matrix.
pub open spec fn mcols_exec(m: Seq<Vec<Rat>>) -> int {
    m[0]@.len() as int
}

// ------------------------------------------------------------------
// The mathematical model.
// ------------------------------------------------------------------

/// Every fraction of the vector is well formed.
pub open spec fn vwf(v: Seq<Frac>) -> bool {
    forall|i: int| 0 <= i < v.len() ==> frac_wf(#[trigger] v[i])
}

/// Entrywise rational equality of vectors.
pub open spec fn veq(a: Seq<Frac>, b: Seq<Frac>) -> bool {
    &&& a.len() == b.len()
    &&& forall|i: int| 0 <= i < a.len() ==> frac_eq(#[trigger] a[i], #[trigger] b[i])
}

/// `m` is an `r` by `c` matrix of well-formed fractions.
pub open spec fn is_mat(m: Seq<Seq<Frac>>, r: int, c: int) -> bool {
    &&& m.len() == r
    &&& forall|i: int| 0 <= i < r ==> (#[trigger] m[i]).len() == c
    &&& forall|i: int| 0 <= i < r ==> vwf(#[trigger] m[i])
}

/// Entrywise rational equality of matrices.
pub open spec fn meq(a: Seq<Seq<Frac>>, b: Seq<Seq<Frac>>) -> bool {
    &&& a.len() == b.len()
    &&& forall|i: int| 0 <= i < a.len() ==> (#[trigger] a[i]).len() == b[i].len()
    &&& forall|i: int, j: int|
        0 <= i < a.len() && 0 <= j < a[i].len() ==> frac_eq(#[trigger] a[i][j], b[i][j])
}

/// Sum of a vector of fractions.
pub open spec fn vsum(s: Seq<Frac>) -> Frac
    decreases s.len(),
{
    if s.len() <= 0 {
        frac_int(0)
    } else {
        frac_add(vsum(s.drop_last()), s.last())
    }
}

/// Inner product of two vectors of the same length.
pub open spec fn vdot(a: Seq<Frac>, b: Seq<Frac>) -> Frac
    recommends
        a.len() == b.len(),
{
    vsum(Seq::new(a.len(), |k: int| frac_mul(a[k], b[k])))
}

/// The value the executable dot-product loop holds after its first `k`
/// terms: a fold of canonical-form products and sums.
pub open spec fn dot_acc(a: Seq<Frac>, b: Seq<Frac>, k: int) -> Frac
    decreases k,
{
    if k <= 0 {
        frac_int(0)
    } else {
        frac_canon(frac_add(dot_acc(a, b, k - 1), frac_canon(frac_mul(a[k - 1], b[k - 1]))))
    }
}

/// Every intermediate of the first `k` steps of the dot-product loop fits
/// the `i64` representation.
pub open spec fn dot_fits_to(a: Seq<Frac>, b: Seq<Frac>, k: int) -> bool
    decreases k,
{
    k <= 0 || {
        &&& dot_fits_to(a, b, k - 1)
        &&& canon_fits(frac_mul(a[k - 1], b[k - 1]))
        &&& canon_fits(frac_add(dot_acc(a, b, k - 1), frac_canon(frac_mul(a[k - 1], b[k - 1]))))
    }
}

/// The whole dot product stays within the `i64` representation: the exact
/// condition under which the executable inner product succeeds.
pub open spec fn dot_fits(a: Seq<Frac>, b: Seq<Frac>) -> bool {
    dot_fits_to(a, b, a.len() as int)
}

/// A prefix of a fitting dot product fits.
pub proof fn lemma_dot_fits_to_mono(a: Seq<Frac>, b: Seq<Frac>, j: int, k: int)
    requires
        j <= k,
        dot_fits_to(a, b, k),
    ensures
        dot_fits_to(a, b, j),
    decreases k,
{
    if j < k && k > 0 {
        lemma_dot_fits_to_mono(a, b, j, k - 1);
    }
}

/// The canonical-form matrix product: the exact representation that the
/// executable product returns on success.
pub open spec fn mmul_canon(a: Seq<Seq<Frac>>, b: Seq<Seq<Frac>>) -> Seq<Seq<Frac>> {
    Seq::new(
        a.len(),
        |i: int| Seq::new(mcols(b), |j: int| dot_acc(a[i], mcol(b, j), b.len() as int)),
    )
}

/// The canonical-form matrix-vector product: the exact representation that
/// the executable product returns on success.
pub open spec fn mvmul_canon(m: Seq<Seq<Frac>>, x: Seq<Frac>) -> Seq<Frac> {
    Seq::new(m.len(), |i: int| dot_acc(m[i], x, x.len() as int))
}

/// Every entry of a matrix product stays within the `i64` representation:
/// the exact condition under which the executable product succeeds.
pub open spec fn mmul_fits(a: Seq<Seq<Frac>>, b: Seq<Seq<Frac>>) -> bool {
    forall|i: int, j: int|
        0 <= i < a.len() && 0 <= j < mcols(b) ==> #[trigger] dot_fits(a[i], mcol(b, j))
}

/// Every row of a matrix-vector product stays within the `i64`
/// representation.
pub open spec fn mvmul_fits(m: Seq<Seq<Frac>>, x: Seq<Frac>) -> bool {
    forall|i: int| 0 <= i < m.len() ==> #[trigger] dot_fits(m[i], x)
}

/// The canonical-form entrywise sum: what the executable sum returns.
pub open spec fn madd_canon(a: Seq<Seq<Frac>>, b: Seq<Seq<Frac>>) -> Seq<Seq<Frac>> {
    Seq::new(
        a.len(),
        |i: int| Seq::new(a[i].len(), |j: int| frac_canon(frac_add(a[i][j], b[i][j]))),
    )
}

/// The canonical-form entrywise difference: what the executable
/// difference returns.
pub open spec fn msub_canon(a: Seq<Seq<Frac>>, b: Seq<Seq<Frac>>) -> Seq<Seq<Frac>> {
    Seq::new(
        a.len(),
        |i: int| Seq::new(a[i].len(), |j: int| frac_canon(frac_sub(a[i][j], b[i][j]))),
    )
}

/// The canonical-form scaled matrix: what the executable scaling returns.
pub open spec fn mscale_canon(c: Frac, m: Seq<Seq<Frac>>) -> Seq<Seq<Frac>> {
    Seq::new(
        m.len(),
        |i: int| Seq::new(m[i].len(), |j: int| frac_canon(frac_mul(c, m[i][j]))),
    )
}

/// Every entry of an entrywise sum stays within the `i64` representation.
pub open spec fn madd_fits(a: Seq<Seq<Frac>>, b: Seq<Seq<Frac>>) -> bool {
    forall|i: int, j: int|
        0 <= i < a.len() && 0 <= j < a[i].len() ==> canon_fits(
            #[trigger] frac_add(a[i][j], b[i][j]),
        )
}

/// Every entry of an entrywise difference stays within the `i64`
/// representation.
pub open spec fn msub_fits(a: Seq<Seq<Frac>>, b: Seq<Seq<Frac>>) -> bool {
    forall|i: int, j: int|
        0 <= i < a.len() && 0 <= j < a[i].len() ==> canon_fits(
            #[trigger] frac_sub(a[i][j], b[i][j]),
        )
}

/// Every entry of a scaled matrix stays within the `i64` representation.
pub open spec fn mscale_fits(c: Frac, m: Seq<Seq<Frac>>) -> bool {
    forall|i: int, j: int|
        0 <= i < m.len() && 0 <= j < m[i].len() ==> canon_fits(#[trigger] frac_mul(c, m[i][j]))
}

/// Column `j` of a matrix.
pub open spec fn mcol(m: Seq<Seq<Frac>>, j: int) -> Seq<Frac> {
    Seq::new(m.len(), |i: int| m[i][j])
}

/// The number of columns of a matrix (by its first row).
pub open spec fn mcols(m: Seq<Seq<Frac>>) -> nat {
    if m.len() == 0 {
        0
    } else {
        m[0].len()
    }
}

/// Matrix product.
pub open spec fn mmul(a: Seq<Seq<Frac>>, b: Seq<Seq<Frac>>) -> Seq<Seq<Frac>> {
    Seq::new(a.len(), |i: int| Seq::new(mcols(b), |j: int| vdot(a[i], mcol(b, j))))
}

/// Matrix-vector product.
pub open spec fn mvmul(m: Seq<Seq<Frac>>, x: Seq<Frac>) -> Seq<Frac> {
    Seq::new(m.len(), |i: int| vdot(m[i], x))
}

/// The `n` by `n` identity matrix.
pub open spec fn mid(n: nat) -> Seq<Seq<Frac>> {
    Seq::new(
        n,
        |i: int|
            Seq::new(
                n,
                |j: int|
                    if i == j {
                        frac_int(1)
                    } else {
                        frac_int(0)
                    },
            ),
    )
}

/// The `r` by `c` zero matrix.
pub open spec fn mzero(r: nat, c: nat) -> Seq<Seq<Frac>> {
    Seq::new(r, |i: int| Seq::new(c, |j: int| frac_int(0)))
}

/// Entrywise negation of a matrix.
pub open spec fn mneg(m: Seq<Seq<Frac>>) -> Seq<Seq<Frac>> {
    Seq::new(m.len(), |i: int| Seq::new(m[i].len(), |j: int| frac_neg(m[i][j])))
}

/// Entrywise sum of two matrices of equal shape.
pub open spec fn madd(a: Seq<Seq<Frac>>, b: Seq<Seq<Frac>>) -> Seq<Seq<Frac>> {
    Seq::new(a.len(), |i: int| Seq::new(a[i].len(), |j: int| frac_add(a[i][j], b[i][j])))
}

/// Entrywise difference of two matrices of equal shape.
pub open spec fn msub(a: Seq<Seq<Frac>>, b: Seq<Seq<Frac>>) -> Seq<Seq<Frac>> {
    madd(a, mneg(b))
}

/// A matrix scaled by a fraction.
pub open spec fn mscale(c: Frac, m: Seq<Seq<Frac>>) -> Seq<Seq<Frac>> {
    Seq::new(m.len(), |i: int| Seq::new(m[i].len(), |j: int| frac_mul(c, m[i][j])))
}

/// Transpose of a matrix.
pub open spec fn mtrans(m: Seq<Seq<Frac>>) -> Seq<Seq<Frac>> {
    Seq::new(mcols(m), |i: int| Seq::new(m.len(), |j: int| m[j][i]))
}

/// A vector as a single-column matrix.
pub open spec fn mcolumn(v: Seq<Frac>) -> Seq<Seq<Frac>> {
    Seq::new(v.len(), |i: int| Seq::new(1, |j: int| v[i]))
}

// ------------------------------------------------------------------
// Sums: well-formedness, congruence, linearity.
// ------------------------------------------------------------------

/// The sum of well-formed fractions is well formed.
pub proof fn lemma_vsum_wf(s: Seq<Frac>)
    requires
        vwf(s),
    ensures
        frac_wf(vsum(s)),
    decreases s.len(),
{
    if s.len() > 0 {
        lemma_vsum_wf(s.drop_last());
        lemma_frac_add_wf(vsum(s.drop_last()), s.last());
    }
}

/// Entrywise equal vectors have equal sums.
pub proof fn lemma_vsum_congruence(a: Seq<Frac>, b: Seq<Frac>)
    requires
        vwf(a),
        vwf(b),
        veq(a, b),
    ensures
        frac_eq(vsum(a), vsum(b)),
    decreases a.len(),
{
    if a.len() == 0 {
    } else {
        assert(veq(a.drop_last(), b.drop_last()));
        lemma_vsum_congruence(a.drop_last(), b.drop_last());
        lemma_vsum_wf(a.drop_last());
        lemma_vsum_wf(b.drop_last());
        lemma_frac_add_congruence(vsum(a.drop_last()), vsum(b.drop_last()), a.last(), b.last());
    }
}

/// A vector of fractions equal to zero sums to zero.
pub proof fn lemma_vsum_zero(s: Seq<Frac>)
    requires
        vwf(s),
        forall|i: int| 0 <= i < s.len() ==> frac_eq(#[trigger] s[i], frac_int(0)),
    ensures
        frac_eq(vsum(s), frac_int(0)),
    decreases s.len(),
{
    if s.len() > 0 {
        lemma_vsum_zero(s.drop_last());
        lemma_vsum_wf(s.drop_last());
        lemma_frac_add_congruence(vsum(s.drop_last()), frac_int(0), s.last(), frac_int(0));
        lemma_frac_add_zero(frac_int(0));
        lemma_frac_add_wf(vsum(s.drop_last()), s.last());
        lemma_frac_eq_trans(
            vsum(s),
            frac_add(frac_int(0), frac_int(0)),
            frac_int(0),
        );
    }
}

/// A vector whose entries all equal zero except at `k` sums to its `k`th entry.
pub proof fn lemma_vsum_single(s: Seq<Frac>, k: int)
    requires
        vwf(s),
        0 <= k < s.len(),
        forall|i: int| 0 <= i < s.len() && i != k ==> frac_eq(#[trigger] s[i], frac_int(0)),
    ensures
        frac_eq(vsum(s), s[k]),
    decreases s.len(),
{
    lemma_vsum_wf(s.drop_last());
    if k == s.len() - 1 {
        lemma_vsum_zero(s.drop_last());
        lemma_frac_add_congruence(vsum(s.drop_last()), frac_int(0), s.last(), s.last());
        lemma_frac_add_zero(s.last());
        lemma_frac_add_wf(vsum(s.drop_last()), s.last());
        lemma_frac_add_wf(frac_int(0), s.last());
        lemma_frac_eq_trans(vsum(s), frac_add(frac_int(0), s.last()), s.last());
    } else {
        lemma_vsum_single(s.drop_last(), k);
        lemma_frac_add_congruence(vsum(s.drop_last()), s[k], s.last(), frac_int(0));
        lemma_frac_add_zero(s[k]);
        lemma_frac_add_wf(vsum(s.drop_last()), s.last());
        lemma_frac_add_wf(s[k], frac_int(0));
        lemma_frac_eq_trans(vsum(s), frac_add(s[k], frac_int(0)), s[k]);
    }
}

/// Sums distribute over entrywise addition.
pub proof fn lemma_vsum_add(a: Seq<Frac>, b: Seq<Frac>)
    requires
        vwf(a),
        vwf(b),
        a.len() == b.len(),
    ensures
        frac_eq(
            vsum(Seq::new(a.len(), |i: int| frac_add(a[i], b[i]))),
            frac_add(vsum(a), vsum(b)),
        ),
    decreases a.len(),
{
    let z = Seq::new(a.len(), |i: int| frac_add(a[i], b[i]));
    if a.len() == 0 {
        lemma_frac_add_zero(frac_int(0));
    } else {
        let a1 = a.drop_last();
        let b1 = b.drop_last();
        let z1 = Seq::new(a1.len(), |i: int| frac_add(a1[i], b1[i]));
        lemma_vsum_add(a1, b1);
        assert(z.drop_last() =~= z1);
        // vsum(z) == vsum(z1) + (a.last() + b.last())
        //         ~~ (vsum(a1) + vsum(b1)) + (a.last() + b.last())      (IH, congruence)
        //         == ((vsum(a1) + a.last()) + (vsum(b1) + b.last()))    (regrouping)
        lemma_vsum_wf(a1);
        lemma_vsum_wf(b1);
        assert forall|i: int| 0 <= i < z1.len() implies frac_wf(#[trigger] z1[i]) by {
            lemma_frac_add_wf(a1[i], b1[i]);
        }
        lemma_vsum_wf(z1);
        let sa = vsum(a1);
        let sb = vsum(b1);
        let x = a.last();
        let y = b.last();
        lemma_frac_add_wf(x, y);
        lemma_frac_add_wf(sa, sb);
        lemma_frac_add_wf(sa, x);
        lemma_frac_add_wf(sb, y);
        lemma_frac_add_congruence(vsum(z1), frac_add(sa, sb), frac_add(x, y), frac_add(x, y));
        // regroup (sa + sb) + (x + y) into (sa + x) + (sb + y), all structural
        assert(frac_add(frac_add(sa, sb), frac_add(x, y)) == frac_add(
            frac_add(sa, x),
            frac_add(sb, y),
        )) by {
            lemma_frac_add_assoc(frac_add(sa, sb), x, y);
            lemma_frac_add_assoc(sa, sb, x);
            lemma_frac_add_comm(sb, x);
            lemma_frac_add_assoc(sa, x, sb);
            lemma_frac_add_assoc(frac_add(sa, x), sb, y);
        }
        lemma_frac_add_wf(vsum(z1), frac_add(x, y));
        lemma_frac_add_wf(frac_add(sa, sb), frac_add(x, y));
        lemma_frac_add_wf(frac_add(sa, x), frac_add(sb, y));
        lemma_frac_eq_trans(
            vsum(z),
            frac_add(frac_add(sa, sb), frac_add(x, y)),
            frac_add(frac_add(sa, x), frac_add(sb, y)),
        );
    }
}

/// A common factor moves out of a sum.
pub proof fn lemma_vsum_scale(c: Frac, s: Seq<Frac>)
    requires
        frac_wf(c),
        vwf(s),
    ensures
        frac_eq(vsum(Seq::new(s.len(), |i: int| frac_mul(c, s[i]))), frac_mul(c, vsum(s))),
    decreases s.len(),
{
    let z = Seq::new(s.len(), |i: int| frac_mul(c, s[i]));
    if s.len() == 0 {
        lemma_frac_mul_units(c);
        lemma_frac_mul_comm(c, frac_int(0));
    } else {
        let s1 = s.drop_last();
        let z1 = Seq::new(s1.len(), |i: int| frac_mul(c, s1[i]));
        lemma_vsum_scale(c, s1);
        assert(z.drop_last() =~= z1);
        lemma_vsum_wf(s1);
        assert forall|i: int| 0 <= i < z1.len() implies frac_wf(#[trigger] z1[i]) by {
            lemma_frac_add_wf(c, s1[i]);
        }
        lemma_vsum_wf(z1);
        let x = s.last();
        lemma_frac_add_wf(c, x);  // gives wf of frac_mul(c, x) too
        lemma_frac_add_wf(c, vsum(s1));
        lemma_frac_add_congruence(
            vsum(z1),
            frac_mul(c, vsum(s1)),
            frac_mul(c, x),
            frac_mul(c, x),
        );
        lemma_frac_mul_distrib(c, vsum(s1), x);
        lemma_frac_eq_symm(
            frac_mul(c, frac_add(vsum(s1), x)),
            frac_add(frac_mul(c, vsum(s1)), frac_mul(c, x)),
        );
        lemma_frac_add_wf(vsum(z1), frac_mul(c, x));
        lemma_frac_add_wf(frac_mul(c, vsum(s1)), frac_mul(c, x));
        lemma_frac_add_wf(vsum(s1), x);
        lemma_frac_add_wf(c, frac_add(vsum(s1), x));
        lemma_frac_eq_trans(
            vsum(z),
            frac_add(frac_mul(c, vsum(s1)), frac_mul(c, x)),
            frac_mul(c, frac_add(vsum(s1), x)),
        );
    }
}

/// Sums commute with entrywise negation.
pub proof fn lemma_vsum_neg(s: Seq<Frac>)
    requires
        vwf(s),
    ensures
        frac_eq(vsum(Seq::new(s.len(), |i: int| frac_neg(s[i]))), frac_neg(vsum(s))),
    decreases s.len(),
{
    let z = Seq::new(s.len(), |i: int| frac_neg(s[i]));
    if s.len() == 0 {
    } else {
        let s1 = s.drop_last();
        let z1 = Seq::new(s1.len(), |i: int| frac_neg(s1[i]));
        lemma_vsum_neg(s1);
        assert(z.drop_last() =~= z1);
        lemma_vsum_wf(s1);
        assert(vwf(z1));
        lemma_vsum_wf(z1);
        let x = s.last();
        lemma_frac_add_congruence(vsum(z1), frac_neg(vsum(s1)), frac_neg(x), frac_neg(x));
        lemma_frac_neg_add(vsum(s1), x);
        lemma_frac_add_wf(vsum(z1), frac_neg(x));
        lemma_frac_add_wf(frac_neg(vsum(s1)), frac_neg(x));
        lemma_frac_eq_trans(
            vsum(z),
            frac_add(frac_neg(vsum(s1)), frac_neg(x)),
            frac_neg(frac_add(vsum(s1), x)),
        );
    }
}

/// Exchanging the order of a double sum over a rectangular grid.
pub proof fn lemma_vsum_exchange(g: Seq<Seq<Frac>>, q: nat)
    requires
        forall|i: int| 0 <= i < g.len() ==> (#[trigger] g[i]).len() == q,
        forall|i: int| 0 <= i < g.len() ==> vwf(#[trigger] g[i]),
    ensures
        frac_eq(
            vsum(Seq::new(g.len(), |i: int| vsum(g[i]))),
            vsum(Seq::new(q, |j: int| vsum(mcol(g, j)))),
        ),
    decreases g.len(),
{
    let rowsums = Seq::new(g.len(), |i: int| vsum(g[i]));
    let colsums = Seq::new(q, |j: int| vsum(mcol(g, j)));
    assert forall|i: int| 0 <= i < rowsums.len() implies frac_wf(#[trigger] rowsums[i]) by {
        lemma_vsum_wf(g[i]);
    }
    if g.len() == 0 {
        assert forall|j: int| 0 <= j < q implies frac_eq(#[trigger] colsums[j], frac_int(0)) by {
            assert(mcol(g, j).len() == 0);
        }
        assert forall|j: int| 0 <= j < q implies frac_wf(#[trigger] colsums[j]) by {
            assert(mcol(g, j).len() == 0);
        }
        lemma_vsum_zero(colsums);
        lemma_vsum_wf(colsums);
        lemma_frac_eq_symm(vsum(colsums), frac_int(0));
    } else {
        let p = g.len() as int;
        let g1 = g.drop_last();
        let lastrow = g.last();
        let colsums1 = Seq::new(q, |j: int| vsum(mcol(g1, j)));
        let rowsums1 = Seq::new(g1.len(), |i: int| vsum(g1[i]));
        lemma_vsum_exchange(g1, q);
        assert(rowsums.drop_last() =~= rowsums1);
        // vsum(rowsums) == vsum(rowsums1) + vsum(lastrow)
        //               ~~ vsum(colsums1) + vsum(lastrow)               (IH)
        //               ~~ vsum(colsums1 +. lastrow') == vsum(colsums)  (vsum_add)
        assert forall|i: int| 0 <= i < rowsums1.len() implies frac_wf(#[trigger] rowsums1[i]) by {
            lemma_vsum_wf(g1[i]);
        }
        assert forall|j: int| 0 <= j < q implies frac_wf(#[trigger] colsums1[j]) by {
            assert(vwf(mcol(g1, j)));
            lemma_vsum_wf(mcol(g1, j));
        }
        lemma_vsum_wf(rowsums1);
        lemma_vsum_wf(colsums1);
        lemma_vsum_wf(lastrow);
        lemma_frac_add_congruence(
            vsum(rowsums1),
            vsum(colsums1),
            vsum(lastrow),
            vsum(lastrow),
        );
        // lastrow as a sequence over its q indices
        let lastq = Seq::new(q, |j: int| lastrow[j]);
        assert(lastq =~= lastrow);
        let zipped = Seq::new(q, |j: int| frac_add(colsums1[j], lastq[j]));
        assert(vwf(lastq));
        lemma_vsum_add(colsums1, lastq);
        // zipped is exactly colsums: each column of g is the column of g1 plus the last entry
        assert forall|j: int| 0 <= j < q implies #[trigger] colsums[j] == zipped[j] by {
            assert(mcol(g, j).drop_last() =~= mcol(g1, j));
            assert(mcol(g, j).last() == lastrow[j]);
            assert(vsum(mcol(g, j)) == frac_add(vsum(mcol(g1, j)), lastrow[j]));
        }
        assert(colsums =~= zipped);
        assert forall|j: int| 0 <= j < q implies frac_wf(#[trigger] zipped[j]) by {
            lemma_frac_add_wf(colsums1[j], lastq[j]);
        }
        lemma_vsum_wf(zipped);
        lemma_frac_add_wf(vsum(rowsums1), vsum(lastrow));
        lemma_frac_add_wf(vsum(colsums1), vsum(lastrow));
        lemma_frac_eq_trans(
            vsum(rowsums),
            frac_add(vsum(colsums1), vsum(lastrow)),
            vsum(colsums),
        );
    }
}

// ------------------------------------------------------------------
// Inner products.
// ------------------------------------------------------------------

/// Every row of the matrix is well formed.
pub open spec fn mwf(m: Seq<Seq<Frac>>) -> bool {
    forall|i: int| 0 <= i < m.len() ==> vwf(#[trigger] m[i])
}

/// The inner product of well-formed vectors is well formed.
pub proof fn lemma_vdot_wf(a: Seq<Frac>, b: Seq<Frac>)
    requires
        vwf(a),
        vwf(b),
        a.len() == b.len(),
    ensures
        frac_wf(vdot(a, b)),
{
    let t = Seq::new(a.len(), |k: int| frac_mul(a[k], b[k]));
    assert forall|k: int| 0 <= k < t.len() implies frac_wf(#[trigger] t[k]) by {
        lemma_frac_add_wf(a[k], b[k]);
    }
    lemma_vsum_wf(t);
}

/// Inner products of entrywise equal vectors are equal.
pub proof fn lemma_vdot_congruence(a1: Seq<Frac>, a2: Seq<Frac>, b1: Seq<Frac>, b2: Seq<Frac>)
    requires
        vwf(a1),
        vwf(a2),
        vwf(b1),
        vwf(b2),
        a1.len() == b1.len(),
        veq(a1, a2),
        veq(b1, b2),
    ensures
        frac_eq(vdot(a1, b1), vdot(a2, b2)),
{
    let t1 = Seq::new(a1.len(), |k: int| frac_mul(a1[k], b1[k]));
    let t2 = Seq::new(a2.len(), |k: int| frac_mul(a2[k], b2[k]));
    assert forall|k: int| 0 <= k < t1.len() implies frac_wf(#[trigger] t1[k]) by {
        lemma_frac_add_wf(a1[k], b1[k]);
    }
    assert forall|k: int| 0 <= k < t2.len() implies frac_wf(#[trigger] t2[k]) by {
        lemma_frac_add_wf(a2[k], b2[k]);
    }
    assert forall|k: int| 0 <= k < t1.len() implies frac_eq(#[trigger] t1[k], t2[k]) by {
        lemma_frac_mul_congruence(a1[k], a2[k], b1[k], b2[k]);
    }
    lemma_vsum_congruence(t1, t2);
}

// ------------------------------------------------------------------
// Shape and well-formedness of the matrix operations.
// ------------------------------------------------------------------

/// The identity matrix is square and well formed.
pub proof fn lemma_mid_is_mat(n: nat)
    ensures
        is_mat(mid(n as int as nat), n as int, n as int),
{
}

/// The zero matrix has its stated shape and is well formed.
pub proof fn lemma_mzero_is_mat(r: nat, c: nat)
    ensures
        is_mat(mzero(r, c), r as int, c as int),
{
}

/// Shape and well-formedness of a matrix product.
pub proof fn lemma_mmul_is_mat(a: Seq<Seq<Frac>>, b: Seq<Seq<Frac>>, p: int, q: int, r: int)
    requires
        is_mat(a, p, q),
        is_mat(b, q, r),
        p >= 1,
        q >= 1,
    ensures
        is_mat(mmul(a, b), p, r),
{
    let m = mmul(a, b);
    assert(mcols(b) == r);
    assert forall|i: int, j: int| 0 <= i < p && 0 <= j < r implies frac_wf(#[trigger] m[i][j]) by {
        assert(vwf(mcol(b, j)));
        lemma_vdot_wf(a[i], mcol(b, j));
    }
    assert forall|i: int| 0 <= i < p implies vwf(#[trigger] m[i]) by {
        assert(forall|j: int| 0 <= j < r ==> frac_wf(#[trigger] m[i][j]));
    }
}

/// Shape and well-formedness of sums, differences and scalings.
pub proof fn lemma_mlin_is_mat(a: Seq<Seq<Frac>>, b: Seq<Seq<Frac>>, c: Frac, p: int, q: int)
    requires
        is_mat(a, p, q),
        is_mat(b, p, q),
        frac_wf(c),
    ensures
        is_mat(madd(a, b), p, q),
        is_mat(mneg(b), p, q),
        is_mat(msub(a, b), p, q),
        is_mat(mscale(c, a), p, q),
{
    assert forall|i: int, j: int|
        0 <= i < p && 0 <= j < q implies frac_wf(#[trigger] madd(a, b)[i][j]) by {
        lemma_frac_add_wf(a[i][j], b[i][j]);
    }
    assert forall|i: int, j: int|
        0 <= i < p && 0 <= j < q implies frac_wf(#[trigger] mneg(b)[i][j]) by {
        assert(mneg(b)[i][j] == frac_neg(b[i][j]));
    }
    assert forall|i: int, j: int|
        0 <= i < p && 0 <= j < q implies frac_wf(#[trigger] msub(a, b)[i][j]) by {
        lemma_frac_add_wf(a[i][j], frac_neg(b[i][j]));
        assert(msub(a, b)[i][j] == frac_add(a[i][j], frac_neg(b[i][j])));
    }
    assert forall|i: int, j: int|
        0 <= i < p && 0 <= j < q implies frac_wf(#[trigger] mscale(c, a)[i][j]) by {
        lemma_frac_add_wf(c, a[i][j]);
    }
    assert forall|i: int| 0 <= i < p implies vwf(#[trigger] madd(a, b)[i]) by {
        assert(forall|j: int| 0 <= j < q ==> frac_wf(#[trigger] madd(a, b)[i][j]));
    }
    assert forall|i: int| 0 <= i < p implies vwf(#[trigger] mneg(b)[i]) by {
        assert(forall|j: int| 0 <= j < q ==> frac_wf(#[trigger] mneg(b)[i][j]));
    }
    assert forall|i: int| 0 <= i < p implies vwf(#[trigger] msub(a, b)[i]) by {
        assert(forall|j: int| 0 <= j < q ==> frac_wf(#[trigger] msub(a, b)[i][j]));
    }
    assert forall|i: int| 0 <= i < p implies vwf(#[trigger] mscale(c, a)[i]) by {
        assert(forall|j: int| 0 <= j < q ==> frac_wf(#[trigger] mscale(c, a)[i][j]));
    }
}

/// Shape and well-formedness of the transpose.
pub proof fn lemma_mtrans_is_mat(a: Seq<Seq<Frac>>, p: int, q: int)
    requires
        is_mat(a, p, q),
        p >= 1,
    ensures
        is_mat(mtrans(a), q, p),
{
}

/// `meq` is transitive on well-formed matrices.
pub proof fn lemma_meq_trans(a: Seq<Seq<Frac>>, b: Seq<Seq<Frac>>, c: Seq<Seq<Frac>>)
    requires
        mwf(a),
        mwf(b),
        mwf(c),
        meq(a, b),
        meq(b, c),
    ensures
        meq(a, c),
{
    assert forall|i: int, j: int|
        0 <= i < a.len() && 0 <= j < a[i].len() implies frac_eq(#[trigger] a[i][j], c[i][j]) by {
        lemma_frac_eq_trans(a[i][j], b[i][j], c[i][j]);
    }
}

// ------------------------------------------------------------------
// Algebraic laws of the matrix product.
// ------------------------------------------------------------------

/// Products of entrywise equal matrices are entrywise equal.
pub proof fn lemma_mmul_congruence(
    a1: Seq<Seq<Frac>>,
    a2: Seq<Seq<Frac>>,
    b1: Seq<Seq<Frac>>,
    b2: Seq<Seq<Frac>>,
    p: int,
    q: int,
    r: int,
)
    requires
        is_mat(a1, p, q),
        is_mat(a2, p, q),
        is_mat(b1, q, r),
        is_mat(b2, q, r),
        p >= 1,
        q >= 1,
        meq(a1, a2),
        meq(b1, b2),
    ensures
        meq(mmul(a1, b1), mmul(a2, b2)),
{
    lemma_mmul_is_mat(a1, b1, p, q, r);
    lemma_mmul_is_mat(a2, b2, p, q, r);
    assert forall|i: int, j: int|
        0 <= i < p && 0 <= j < r implies frac_eq(#[trigger] mmul(a1, b1)[i][j], mmul(a2, b2)[i][j]) by {
        assert(vwf(mcol(b1, j)));
        assert(vwf(mcol(b2, j)));
        assert(veq(a1[i], a2[i]));
        assert(veq(mcol(b1, j), mcol(b2, j)));
        lemma_vdot_congruence(a1[i], a2[i], mcol(b1, j), mcol(b2, j));
    }
}

/// The identity matrix is a left unit of the product.
pub proof fn lemma_mmul_id_left(a: Seq<Seq<Frac>>, p: int, q: int)
    requires
        is_mat(a, p, q),
        p >= 1,
        q >= 1,
    ensures
        meq(mmul(mid(p as nat), a), a),
{
    lemma_mid_is_mat(p as nat);
    lemma_mmul_is_mat(mid(p as nat), a, p, p, q);
    let idp = mid(p as nat);
    assert forall|i: int, j: int|
        0 <= i < p && 0 <= j < q implies frac_eq(#[trigger] mmul(idp, a)[i][j], a[i][j]) by {
        let t = Seq::new(idp[i].len(), |k: int| frac_mul(idp[i][k], mcol(a, j)[k]));
        assert forall|k: int| 0 <= k < p implies frac_wf(#[trigger] t[k]) by {
            lemma_frac_add_wf(idp[i][k], a[k][j]);
        }
        assert forall|k: int| 0 <= k < p && k != i implies frac_eq(#[trigger] t[k], frac_int(0)) by {
            lemma_frac_mul_units(a[k][j]);
        }
        lemma_vsum_single(t, i);
        lemma_vsum_wf(t);
        lemma_frac_mul_units(a[i][j]);
        lemma_frac_eq_trans(vsum(t), t[i], a[i][j]);
    }
}

/// The identity matrix is a right unit of the product.
pub proof fn lemma_mmul_id_right(a: Seq<Seq<Frac>>, p: int, q: int)
    requires
        is_mat(a, p, q),
        p >= 1,
        q >= 1,
    ensures
        meq(mmul(a, mid(q as nat)), a),
{
    lemma_mid_is_mat(q as nat);
    lemma_mmul_is_mat(a, mid(q as nat), p, q, q);
    let idq = mid(q as nat);
    assert forall|i: int, j: int|
        0 <= i < p && 0 <= j < q implies frac_eq(#[trigger] mmul(a, idq)[i][j], a[i][j]) by {
        let t = Seq::new(a[i].len(), |k: int| frac_mul(a[i][k], mcol(idq, j)[k]));
        assert forall|k: int| 0 <= k < q implies frac_wf(#[trigger] t[k]) by {
            lemma_frac_add_wf(a[i][k], idq[k][j]);
        }
        assert forall|k: int| 0 <= k < q && k != j implies frac_eq(#[trigger] t[k], frac_int(0)) by {
            lemma_frac_mul_units(a[i][k]);
        }
        lemma_vsum_single(t, j);
        lemma_vsum_wf(t);
        lemma_frac_mul_units(a[i][j]);
        lemma_frac_eq_trans(vsum(t), t[j], a[i][j]);
    }
}

/// Multiplying into a zero matrix yields a zero matrix.
pub proof fn lemma_mmul_zero_right(a: Seq<Seq<Frac>>, p: int, q: int, r: nat)
    requires
        is_mat(a, p, q),
        p >= 1,
        q >= 1,
        r >= 1,
    ensures
        meq(mmul(a, mzero(q as nat, r)), mzero(p as nat, r)),
{
    let z = mzero(q as nat, r);
    lemma_mzero_is_mat(q as nat, r);
    lemma_mmul_is_mat(a, z, p, q, r as int);
    assert forall|i: int, j: int|
        0 <= i < p && 0 <= j < r implies frac_eq(#[trigger] mmul(a, z)[i][j], frac_int(0)) by {
        let t = Seq::new(a[i].len(), |k: int| frac_mul(a[i][k], mcol(z, j)[k]));
        assert forall|k: int| 0 <= k < q implies frac_wf(#[trigger] t[k]) by {
            lemma_frac_add_wf(a[i][k], frac_int(0));
        }
        assert forall|k: int| 0 <= k < q implies frac_eq(#[trigger] t[k], frac_int(0)) by {
            lemma_frac_mul_units(a[i][k]);
        }
        lemma_vsum_zero(t);
    }
}

/// A sum with its entries multiplied by `c` on the right.
pub proof fn lemma_vsum_scale_right(c: Frac, s: Seq<Frac>)
    requires
        frac_wf(c),
        vwf(s),
    ensures
        frac_eq(vsum(Seq::new(s.len(), |i: int| frac_mul(s[i], c))), frac_mul(vsum(s), c)),
{
    let zl = Seq::new(s.len(), |i: int| frac_mul(c, s[i]));
    let zr = Seq::new(s.len(), |i: int| frac_mul(s[i], c));
    assert forall|i: int| 0 <= i < s.len() implies #[trigger] zl[i] == zr[i] by {
        lemma_frac_mul_comm(c, s[i]);
    }
    assert(zl =~= zr);
    lemma_vsum_scale(c, s);
    lemma_frac_mul_comm(c, vsum(s));
}

/// One entry of the associativity law: both groupings of a triple product
/// agree at position `(i, l)`.
proof fn lemma_mmul_assoc_entry(
    a: Seq<Seq<Frac>>,
    b: Seq<Seq<Frac>>,
    c: Seq<Seq<Frac>>,
    p: int,
    q: int,
    r: int,
    w: int,
    i: int,
    l: int,
)
    requires
        is_mat(a, p, q),
        is_mat(b, q, r),
        is_mat(c, r, w),
        p >= 1,
        q >= 1,
        r >= 1,
        w >= 1,
        0 <= i < p,
        0 <= l < w,
    ensures
        frac_eq(mmul(mmul(a, b), c)[i][l], mmul(a, mmul(b, c))[i][l]),
{
    let ab = mmul(a, b);
    let bc = mmul(b, c);
    lemma_mmul_is_mat(a, b, p, q, r);
    lemma_mmul_is_mat(b, c, q, r, w);
    // the grid of all triple products (a[i][j] * b[j][k]) * c[k][l]
    let g = Seq::new(
        r as nat,
        |k: int| Seq::new(q as nat, |j: int| frac_mul(frac_mul(a[i][j], b[j][k]), c[k][l])),
    );
    assert forall|k: int, j: int| 0 <= k < r && 0 <= j < q implies frac_wf(#[trigger] g[k][j]) by {
        lemma_frac_add_wf(a[i][j], b[j][k]);
        lemma_frac_add_wf(frac_mul(a[i][j], b[j][k]), c[k][l]);
    }
    assert forall|k: int| 0 <= k < r implies vwf(#[trigger] g[k]) by {
        assert(forall|j: int| 0 <= j < q ==> frac_wf(#[trigger] g[k][j]));
    }
    // the left-hand entry is the sum over k of ab[i][k] * c[k][l]
    let t1 = Seq::new(r as nat, |k: int| frac_mul(ab[i][k], mcol(c, l)[k]));
    assert(t1 =~= Seq::new(ab[i].len(), |k: int| frac_mul(ab[i][k], mcol(c, l)[k])));
    assert(mmul(ab, c)[i][l] == vsum(t1));
    // each term of t1 is the sum of a row of the grid
    let u1 = Seq::new(r as nat, |k: int| vsum(g[k]));
    assert forall|k: int| 0 <= k < r implies frac_eq(#[trigger] t1[k], u1[k]) by {
        let inner = Seq::new(q as nat, |j: int| frac_mul(a[i][j], mcol(b, k)[j]));
        assert(inner =~= Seq::new(a[i].len(), |j: int| frac_mul(a[i][j], mcol(b, k)[j])));
        assert(ab[i][k] == vsum(inner));
        assert forall|j: int| 0 <= j < q implies frac_wf(#[trigger] inner[j]) by {
            lemma_frac_add_wf(a[i][j], b[j][k]);
        }
        lemma_vsum_scale_right(c[k][l], inner);
        let mapped = Seq::new(inner.len(), |j: int| frac_mul(inner[j], c[k][l]));
        assert(mapped =~= g[k]);
    }
    assert forall|k: int| 0 <= k < r implies frac_wf(#[trigger] t1[k]) by {
        lemma_frac_add_wf(ab[i][k], c[k][l]);
    }
    assert forall|k: int| 0 <= k < r implies frac_wf(#[trigger] u1[k]) by {
        lemma_vsum_wf(g[k]);
    }
    assert(veq(t1, u1));
    lemma_vsum_congruence(t1, u1);
    // exchange the double sum
    lemma_vsum_exchange(g, q as nat);
    let rowsums = Seq::new(g.len(), |k: int| vsum(g[k]));
    assert(u1 =~= rowsums);
    let colsums = Seq::new(q as nat, |j: int| vsum(mcol(g, j)));
    assert(colsums =~= Seq::new(q as nat, |j: int| vsum(mcol(g, j))));
    // the right-hand entry is the sum over j of a[i][j] * bc[j][l],
    // and each of its terms is the sum of a column of the grid
    let t2 = Seq::new(q as nat, |j: int| frac_mul(a[i][j], mcol(bc, l)[j]));
    assert(t2 =~= Seq::new(a[i].len(), |j: int| frac_mul(a[i][j], mcol(bc, l)[j])));
    assert(mmul(a, bc)[i][l] == vsum(t2));
    assert forall|j: int| 0 <= j < q implies frac_eq(#[trigger] colsums[j], t2[j]) by {
        let inner2 = Seq::new(b[j].len(), |k: int| frac_mul(b[j][k], mcol(c, l)[k]));
        assert(bc[j][l] == vsum(inner2));
        assert forall|k: int| 0 <= k < r implies frac_wf(#[trigger] inner2[k]) by {
            lemma_frac_add_wf(b[j][k], c[k][l]);
        }
        lemma_vsum_scale(a[i][j], inner2);
        let mapped2 = Seq::new(inner2.len(), |k: int| frac_mul(a[i][j], inner2[k]));
        assert forall|k: int| 0 <= k < r implies #[trigger] mapped2[k] == mcol(g, j)[k] by {
            lemma_frac_mul_assoc(a[i][j], b[j][k], c[k][l]);
        }
        assert(mapped2 =~= mcol(g, j));
    }
    assert forall|j: int| 0 <= j < q implies frac_wf(#[trigger] t2[j]) by {
        lemma_frac_add_wf(a[i][j], bc[j][l]);
    }
    assert forall|j: int| 0 <= j < q implies frac_wf(#[trigger] colsums[j]) by {
        assert(vwf(mcol(g, j)));
        lemma_vsum_wf(mcol(g, j));
    }
    assert(veq(colsums, t2));
    lemma_vsum_congruence(colsums, t2);
    // chain: lhs ~ sum of rows ~ sum of columns ~ rhs
    lemma_vsum_wf(t1);
    lemma_vsum_wf(u1);
    lemma_vsum_wf(colsums);
    lemma_vsum_wf(t2);
    lemma_frac_eq_trans(vsum(t1), vsum(u1), vsum(colsums));
    lemma_frac_eq_trans(vsum(t1), vsum(colsums), vsum(t2));
}

/// The matrix product is associative (up to entrywise rational equality).
pub proof fn lemma_mmul_assoc(
    a: Seq<Seq<Frac>>,
    b: Seq<Seq<Frac>>,
    c: Seq<Seq<Frac>>,
    p: int,
    q: int,
    r: int,
    w: int,
)
    requires
        is_mat(a, p, q),
        is_mat(b, q, r),
        is_mat(c, r, w),
        p >= 1,
        q >= 1,
        r >= 1,
        w >= 1,
    ensures
        meq(mmul(mmul(a, b), c), mmul(a, mmul(b, c))),
{
    let ab = mmul(a, b);
    let bc = mmul(b, c);
    lemma_mmul_is_mat(a, b, p, q, r);
    lemma_mmul_is_mat(b, c, q, r, w);
    lemma_mmul_is_mat(ab, c, p, r, w);
    lemma_mmul_is_mat(a, bc, p, q, w);
    assert forall|i: int, l: int|
        0 <= i < p && 0 <= l < w implies frac_eq(#[trigger] mmul(ab, c)[i][l], mmul(a, bc)[i][l]) by {
        lemma_mmul_assoc_entry(a, b, c, p, q, r, w, i, l);
    }
}

/// The matrix product distributes over subtraction on the left factor.
pub proof fn lemma_mmul_sub_right(
    x: Seq<Seq<Frac>>,
    y: Seq<Seq<Frac>>,
    z: Seq<Seq<Frac>>,
    p: int,
    q: int,
    r: int,
)
    requires
        is_mat(x, p, q),
        is_mat(y, p, q),
        is_mat(z, q, r),
        p >= 1,
        q >= 1,
        r >= 1,
    ensures
        meq(mmul(msub(x, y), z), msub(mmul(x, z), mmul(y, z))),
{
    let d = msub(x, y);
    lemma_mlin_is_mat(x, y, frac_int(1), p, q);
    lemma_mmul_is_mat(d, z, p, q, r);
    lemma_mmul_is_mat(x, z, p, q, r);
    lemma_mmul_is_mat(y, z, p, q, r);
    lemma_mlin_is_mat(mmul(x, z), mmul(y, z), frac_int(1), p, r);
    assert forall|i: int, j: int|
        0 <= i < p && 0 <= j < r implies frac_eq(
        #[trigger] mmul(d, z)[i][j],
        msub(mmul(x, z), mmul(y, z))[i][j],
    ) by {
        let ts = Seq::new(d[i].len(), |k: int| frac_mul(d[i][k], mcol(z, j)[k]));
        assert(mmul(d, z)[i][j] == vsum(ts));
        let px = Seq::new(x[i].len(), |k: int| frac_mul(x[i][k], mcol(z, j)[k]));
        let py = Seq::new(y[i].len(), |k: int| frac_mul(y[i][k], mcol(z, j)[k]));
        assert(mmul(x, z)[i][j] == vsum(px));
        assert(mmul(y, z)[i][j] == vsum(py));
        let ny = Seq::new(py.len(), |k: int| frac_neg(py[k]));
        let zip = Seq::new(px.len(), |k: int| frac_add(px[k], ny[k]));
        assert forall|k: int| 0 <= k < q implies frac_eq(#[trigger] ts[k], zip[k]) by {
            let u = x[i][k];
            let v = y[i][k];
            let wz = z[k][j];
            lemma_frac_mul_comm(frac_add(u, frac_neg(v)), wz);
            lemma_frac_mul_distrib(wz, u, frac_neg(v));
            lemma_frac_mul_comm(wz, u);
            lemma_frac_mul_neg(wz, v);
            lemma_frac_mul_comm(wz, v);
        }
        assert forall|k: int| 0 <= k < q implies frac_wf(#[trigger] ts[k]) by {
            lemma_frac_add_wf(x[i][k], frac_neg(y[i][k]));
            lemma_frac_add_wf(d[i][k], z[k][j]);
        }
        assert forall|k: int| 0 <= k < q implies frac_wf(#[trigger] px[k]) by {
            lemma_frac_add_wf(x[i][k], z[k][j]);
        }
        assert forall|k: int| 0 <= k < q implies frac_wf(#[trigger] py[k]) by {
            lemma_frac_add_wf(y[i][k], z[k][j]);
        }
        assert forall|k: int| 0 <= k < q implies frac_wf(#[trigger] ny[k]) by {
            assert(frac_wf(py[k]));
        }
        assert forall|k: int| 0 <= k < q implies frac_wf(#[trigger] zip[k]) by {
            lemma_frac_add_wf(px[k], ny[k]);
        }
        assert(veq(ts, zip));
        lemma_vsum_congruence(ts, zip);
        lemma_vsum_add(px, ny);
        lemma_vsum_neg(py);
        lemma_vsum_wf(px);
        lemma_vsum_wf(py);
        lemma_vsum_wf(ny);
        lemma_vsum_wf(zip);
        lemma_vsum_wf(ts);
        lemma_frac_add_congruence(vsum(px), vsum(px), vsum(ny), frac_neg(vsum(py)));
        lemma_frac_add_wf(vsum(px), vsum(ny));
        lemma_frac_add_wf(vsum(px), frac_neg(vsum(py)));
        lemma_frac_eq_trans(vsum(ts), vsum(zip), frac_add(vsum(px), vsum(ny)));
        lemma_frac_eq_trans(
            vsum(ts),
            frac_add(vsum(px), vsum(ny)),
            frac_add(vsum(px), frac_neg(vsum(py))),
        );
    }
}

/// The matrix product distributes over subtraction on the right factor.
pub proof fn lemma_mmul_sub_left(
    x: Seq<Seq<Frac>>,
    y: Seq<Seq<Frac>>,
    z: Seq<Seq<Frac>>,
    p: int,
    q: int,
    r: int,
)
    requires
        is_mat(x, p, q),
        is_mat(y, q, r),
        is_mat(z, q, r),
        p >= 1,
        q >= 1,
        r >= 1,
    ensures
        meq(mmul(x, msub(y, z)), msub(mmul(x, y), mmul(x, z))),
{
    let d = msub(y, z);
    lemma_mlin_is_mat(y, z, frac_int(1), q, r);
    lemma_mmul_is_mat(x, d, p, q, r);
    lemma_mmul_is_mat(x, y, p, q, r);
    lemma_mmul_is_mat(x, z, p, q, r);
    lemma_mlin_is_mat(mmul(x, y), mmul(x, z), frac_int(1), p, r);
    assert forall|i: int, j: int|
        0 <= i < p && 0 <= j < r implies frac_eq(
        #[trigger] mmul(x, d)[i][j],
        msub(mmul(x, y), mmul(x, z))[i][j],
    ) by {
        let ts = Seq::new(x[i].len(), |k: int| frac_mul(x[i][k], mcol(d, j)[k]));
        assert(mmul(x, d)[i][j] == vsum(ts));
        let py = Seq::new(x[i].len(), |k: int| frac_mul(x[i][k], mcol(y, j)[k]));
        let pz = Seq::new(x[i].len(), |k: int| frac_mul(x[i][k], mcol(z, j)[k]));
        assert(mmul(x, y)[i][j] == vsum(py));
        assert(mmul(x, z)[i][j] == vsum(pz));
        let nz = Seq::new(pz.len(), |k: int| frac_neg(pz[k]));
        let zip = Seq::new(py.len(), |k: int| frac_add(py[k], nz[k]));
        assert forall|k: int| 0 <= k < q implies frac_eq(#[trigger] ts[k], zip[k]) by {
            let u = x[i][k];
            let v = y[k][j];
            let wz = z[k][j];
            lemma_frac_mul_distrib(u, v, frac_neg(wz));
            lemma_frac_mul_neg(u, wz);
        }
        assert forall|k: int| 0 <= k < q implies frac_wf(#[trigger] ts[k]) by {
            lemma_frac_add_wf(y[k][j], frac_neg(z[k][j]));
            lemma_frac_add_wf(x[i][k], d[k][j]);
        }
        assert forall|k: int| 0 <= k < q implies frac_wf(#[trigger] py[k]) by {
            lemma_frac_add_wf(x[i][k], y[k][j]);
        }
        assert forall|k: int| 0 <= k < q implies frac_wf(#[trigger] pz[k]) by {
            lemma_frac_add_wf(x[i][k], z[k][j]);
        }
        assert forall|k: int| 0 <= k < q implies frac_wf(#[trigger] nz[k]) by {
            assert(frac_wf(pz[k]));
        }
        assert forall|k: int| 0 <= k < q implies frac_wf(#[trigger] zip[k]) by {
            lemma_frac_add_wf(py[k], nz[k]);
        }
        assert(veq(ts, zip));
        lemma_vsum_congruence(ts, zip);
        lemma_vsum_add(py, nz);
        lemma_vsum_neg(pz);
        lemma_vsum_wf(py);
        lemma_vsum_wf(pz);
        lemma_vsum_wf(nz);
        lemma_vsum_wf(zip);
        lemma_vsum_wf(ts);
        lemma_frac_add_congruence(vsum(py), vsum(py), vsum(nz), frac_neg(vsum(pz)));
        lemma_frac_add_wf(vsum(py), vsum(nz));
        lemma_frac_add_wf(vsum(py), frac_neg(vsum(pz)));
        lemma_frac_eq_trans(vsum(ts), vsum(zip), frac_add(vsum(py), vsum(nz)));
        lemma_frac_eq_trans(
            vsum(ts),
            frac_add(vsum(py), vsum(nz)),
            frac_add(vsum(py), frac_neg(vsum(pz))),
        );
    }
}

/// A scalar factor moves out of the right factor of a product.
pub proof fn lemma_mmul_scale_right(
    e: Frac,
    a: Seq<Seq<Frac>>,
    b: Seq<Seq<Frac>>,
    p: int,
    q: int,
    r: int,
)
    requires
        frac_wf(e),
        is_mat(a, p, q),
        is_mat(b, q, r),
        p >= 1,
        q >= 1,
        r >= 1,
    ensures
        meq(mmul(a, mscale(e, b)), mscale(e, mmul(a, b))),
{
    let sb = mscale(e, b);
    lemma_mlin_is_mat(b, b, e, q, r);
    lemma_mmul_is_mat(a, sb, p, q, r);
    lemma_mmul_is_mat(a, b, p, q, r);
    lemma_mlin_is_mat(mmul(a, b), mmul(a, b), e, p, r);
    assert forall|i: int, j: int|
        0 <= i < p && 0 <= j < r implies frac_eq(
        #[trigger] mmul(a, sb)[i][j],
        mscale(e, mmul(a, b))[i][j],
    ) by {
        let ts = Seq::new(a[i].len(), |k: int| frac_mul(a[i][k], mcol(sb, j)[k]));
        assert(mmul(a, sb)[i][j] == vsum(ts));
        let pb = Seq::new(a[i].len(), |k: int| frac_mul(a[i][k], mcol(b, j)[k]));
        assert(mmul(a, b)[i][j] == vsum(pb));
        assert forall|k: int| 0 <= k < q implies frac_wf(#[trigger] pb[k]) by {
            lemma_frac_add_wf(a[i][k], b[k][j]);
        }
        let mapped = Seq::new(pb.len(), |k: int| frac_mul(e, pb[k]));
        assert forall|k: int| 0 <= k < q implies #[trigger] ts[k] == mapped[k] by {
            let u = a[i][k];
            let v = b[k][j];
            lemma_frac_mul_assoc(u, e, v);
            lemma_frac_mul_comm(u, e);
            lemma_frac_mul_assoc(e, u, v);
        }
        assert(ts =~= mapped);
        lemma_vsum_scale(e, pb);
    }
}

/// Entrywise linear operations respect entrywise equality.
pub proof fn lemma_mlin_congruence(
    a1: Seq<Seq<Frac>>,
    a2: Seq<Seq<Frac>>,
    b1: Seq<Seq<Frac>>,
    b2: Seq<Seq<Frac>>,
    c: Frac,
    p: int,
    q: int,
)
    requires
        is_mat(a1, p, q),
        is_mat(a2, p, q),
        is_mat(b1, p, q),
        is_mat(b2, p, q),
        frac_wf(c),
        meq(a1, a2),
        meq(b1, b2),
    ensures
        meq(madd(a1, b1), madd(a2, b2)),
        meq(msub(a1, b1), msub(a2, b2)),
        meq(mscale(c, a1), mscale(c, a2)),
{
    assert forall|i: int, j: int|
        0 <= i < p && 0 <= j < q implies frac_eq(
        #[trigger] madd(a1, b1)[i][j],
        madd(a2, b2)[i][j],
    ) by {
        lemma_frac_add_congruence(a1[i][j], a2[i][j], b1[i][j], b2[i][j]);
    }
    assert forall|i: int, j: int|
        0 <= i < p && 0 <= j < q implies frac_eq(
        #[trigger] msub(a1, b1)[i][j],
        msub(a2, b2)[i][j],
    ) by {
        lemma_frac_neg_congruence(b1[i][j], b2[i][j]);
        lemma_frac_add_congruence(a1[i][j], a2[i][j], frac_neg(b1[i][j]), frac_neg(b2[i][j]));
    }
    assert forall|i: int, j: int|
        0 <= i < p && 0 <= j < q implies frac_eq(
        #[trigger] mscale(c, a1)[i][j],
        mscale(c, a2)[i][j],
    ) by {
        lemma_frac_mul_congruence(c, c, a1[i][j], a2[i][j]);
    }
}

/// `meq` is symmetric.
pub proof fn lemma_meq_symm(a: Seq<Seq<Frac>>, b: Seq<Seq<Frac>>)
    requires
        meq(a, b),
    ensures
        meq(b, a),
{
    assert forall|i: int| 0 <= i < b.len() implies (#[trigger] b[i]).len() == a[i].len() by {
        assert(a[i].len() == b[i].len());
    }
    assert forall|i: int, j: int|
        0 <= i < b.len() && 0 <= j < b[i].len() implies frac_eq(#[trigger] b[i][j], a[i][j]) by {
        assert(frac_eq(a[i][j], b[i][j]));
    }
}

/// A matrix-vector product seen as a product with a one-column matrix.
pub proof fn lemma_mvmul_column(m: Seq<Seq<Frac>>, v: Seq<Frac>, p: int, q: int)
    requires
        is_mat(m, p, q),
        v.len() == q,
        p >= 1,
        q >= 1,
    ensures
        mmul(m, mcolumn(v)).len() == p,
        forall|i: int| 0 <= i < p ==> (#[trigger] mmul(m, mcolumn(v))[i]).len() == 1,
        forall|i: int| 0 <= i < p ==> #[trigger] mmul(m, mcolumn(v))[i][0] == mvmul(m, v)[i],
{
    let col = mcolumn(v);
    assert(mcols(col) == 1);
    assert(mcol(col, 0) =~= v);
    assert forall|i: int| 0 <= i < p implies #[trigger] mmul(m, col)[i][0] == mvmul(m, v)[i] by {
        assert(mmul(m, col)[i][0] == vdot(m[i], mcol(col, 0)));
        assert(mvmul(m, v)[i] == vdot(m[i], v));
    }
}

/// A nonzero vector annihilated by `m` rules out any left inverse of `m`.
pub proof fn lemma_no_left_inverse(m: Seq<Seq<Frac>>, v: Seq<Frac>, n: int, k: int)
    requires
        is_mat(m, n, n),
        n >= 1,
        v.len() == n,
        vwf(v),
        forall|i: int| 0 <= i < n ==> frac_eq(#[trigger] mvmul(m, v)[i], frac_int(0)),
        0 <= k < n,
        !frac_eq(v[k], frac_int(0)),
    ensures
        forall|x: Seq<Seq<Frac>>| is_mat(x, n, n) ==> !meq(#[trigger] mmul(x, m), mid(n as nat)),
{
    let col = mcolumn(v);
    assert(is_mat(col, n, 1)) by {
        assert forall|i: int| 0 <= i < n implies vwf(#[trigger] col[i]) by {
            assert(frac_wf(v[i]));
            assert(forall|j: int| 0 <= j < 1 ==> #[trigger] col[i][j] == v[i]);
        }
    }
    lemma_mvmul_column(m, v, n, n);
    assert(meq(mmul(m, col), mzero(n as nat, 1)));
    assert forall|x: Seq<Seq<Frac>>| is_mat(x, n, n) implies !meq(
        #[trigger] mmul(x, m),
        mid(n as nat),
    ) by {
        if meq(mmul(x, m), mid(n as nat)) {
            lemma_mmul_is_mat(x, m, n, n, n);
            lemma_mid_is_mat(n as nat);
            lemma_mzero_is_mat(n as nat, 1);
            lemma_mmul_is_mat(mmul(x, m), col, n, n, 1);
            lemma_mmul_is_mat(m, col, n, n, 1);
            lemma_mmul_is_mat(x, mmul(m, col), n, n, 1);
            lemma_mmul_is_mat(mid(n as nat), col, n, n, 1);
            lemma_mmul_is_mat(x, mzero(n as nat, 1), n, n, 1);
            // (x m) v ~ I v ~ v
            lemma_mmul_congruence(mmul(x, m), mid(n as nat), col, col, n, n, 1);
            lemma_mmul_id_left(col, n, 1);
            // (x m) v ~ x (m v) ~ x 0 ~ 0
            lemma_mmul_assoc(x, m, col, n, n, n, 1);
            lemma_mmul_congruence(x, x, mmul(m, col), mzero(n as nat, 1), n, n, 1);
            lemma_mmul_zero_right(x, n, n, 1);
            // so v ~ 0, contradicting the nonzero entry
            assert(mwf(mmul(mmul(x, m), col)));
            assert(mwf(mmul(mid(n as nat), col)));
            assert(mwf(col));
            assert(mwf(mmul(x, mmul(m, col))));
            assert(mwf(mmul(x, mzero(n as nat, 1))));
            assert(mwf(mzero(n as nat, 1)));
            lemma_meq_trans(mmul(mmul(x, m), col), mmul(mid(n as nat), col), col);
            lemma_meq_trans(mmul(mmul(x, m), col), mmul(x, mmul(m, col)), mmul(x, mzero(n as nat, 1)));
            lemma_meq_trans(mmul(mmul(x, m), col), mmul(x, mzero(n as nat, 1)), mzero(n as nat, 1));
            lemma_meq_symm(mmul(mmul(x, m), col), col);
            lemma_meq_trans(col, mmul(mmul(x, m), col), mzero(n as nat, 1));
            assert(frac_eq(col[k][0], frac_int(0)));
            assert(false);
        }
    }
}

/// A scalar factor moves out of the left factor of a product.
pub proof fn lemma_mmul_scale_left(
    e: Frac,
    a: Seq<Seq<Frac>>,
    b: Seq<Seq<Frac>>,
    p: int,
    q: int,
    r: int,
)
    requires
        frac_wf(e),
        is_mat(a, p, q),
        is_mat(b, q, r),
        p >= 1,
        q >= 1,
        r >= 1,
    ensures
        meq(mmul(mscale(e, a), b), mscale(e, mmul(a, b))),
{
    let sa = mscale(e, a);
    lemma_mlin_is_mat(a, a, e, p, q);
    lemma_mmul_is_mat(sa, b, p, q, r);
    lemma_mmul_is_mat(a, b, p, q, r);
    lemma_mlin_is_mat(mmul(a, b), mmul(a, b), e, p, r);
    assert forall|i: int, j: int|
        0 <= i < p && 0 <= j < r implies frac_eq(
        #[trigger] mmul(sa, b)[i][j],
        mscale(e, mmul(a, b))[i][j],
    ) by {
        let ts = Seq::new(sa[i].len(), |k: int| frac_mul(sa[i][k], mcol(b, j)[k]));
        assert(mmul(sa, b)[i][j] == vsum(ts));
        let pb = Seq::new(a[i].len(), |k: int| frac_mul(a[i][k], mcol(b, j)[k]));
        assert(mmul(a, b)[i][j] == vsum(pb));
        assert forall|k: int| 0 <= k < q implies frac_wf(#[trigger] pb[k]) by {
            lemma_frac_add_wf(a[i][k], b[k][j]);
        }
        let mapped = Seq::new(pb.len(), |k: int| frac_mul(e, pb[k]));
        assert forall|k: int| 0 <= k < q implies #[trigger] ts[k] == mapped[k] by {
            lemma_frac_mul_assoc(e, a[i][k], b[k][j]);
        }
        assert(ts =~= mapped);
        lemma_vsum_scale(e, pb);
    }
}

/// Scaling by equal scalars gives entrywise equal matrices.
pub proof fn lemma_mscale_scalar_congruence(
    c1: Frac,
    c2: Frac,
    a: Seq<Seq<Frac>>,
    p: int,
    q: int,
)
    requires
        frac_wf(c1),
        frac_wf(c2),
        frac_eq(c1, c2),
        is_mat(a, p, q),
    ensures
        meq(mscale(c1, a), mscale(c2, a)),
{
    assert forall|i: int, j: int|
        0 <= i < p && 0 <= j < q implies frac_eq(
        #[trigger] mscale(c1, a)[i][j],
        mscale(c2, a)[i][j],
    ) by {
        lemma_frac_mul_congruence(c1, c2, a[i][j], a[i][j]);
    }
}

/// Adding and then subtracting the same matrix is the identity.
pub proof fn lemma_madd_sub_cancel(a: Seq<Seq<Frac>>, c: Seq<Seq<Frac>>, p: int, q: int)
    requires
        is_mat(a, p, q),
        is_mat(c, p, q),
    ensures
        meq(msub(madd(a, c), c), a),
{
    assert forall|i: int, j: int|
        0 <= i < p && 0 <= j < q implies frac_eq(#[trigger] msub(madd(a, c), c)[i][j], a[i][j]) by {
        assert(msub(madd(a, c), c)[i][j] == frac_sub(frac_add(a[i][j], c[i][j]), c[i][j]));
        lemma_frac_add_sub_cancel(a[i][j], c[i][j]);
    }
}

/// Subtracting a difference from its minuend leaves the subtrahend.
pub proof fn lemma_msub_sub_cancel(a: Seq<Seq<Frac>>, b: Seq<Seq<Frac>>, p: int, q: int)
    requires
        is_mat(a, p, q),
        is_mat(b, p, q),
    ensures
        meq(msub(a, msub(a, b)), b),
{
    assert forall|i: int, j: int|
        0 <= i < p && 0 <= j < q implies frac_eq(#[trigger] msub(a, msub(a, b))[i][j], b[i][j]) by {
        assert(msub(a, msub(a, b))[i][j] == frac_sub(a[i][j], frac_sub(a[i][j], b[i][j])));
        lemma_frac_sub_sub(a[i][j], b[i][j]);
    }
}

// ------------------------------------------------------------------
// Executable matrix operations.
// ------------------------------------------------------------------

/// A well-formed executable matrix denotes a well-formed model matrix.
pub proof fn lemma_mat_ok_view(m: Seq<Vec<Rat>>)
    requires
        mat_ok(m),
    ensures
        is_mat(mview(m), m.len() as int, m[0]@.len() as int),
        mwf(mview(m)),
{
    assert forall|i: int| 0 <= i < m.len() implies vwf(#[trigger] mview(m)[i]) by {
        assert(rwf(m[i]@));
        assert forall|j: int| 0 <= j < mview(m)[i].len() implies frac_wf(
            #[trigger] mview(m)[i][j],
        ) by {
            assert(m[i]@[j].wf());
        }
    }
}

/// A well-formed executable row denotes a well-formed model vector.
pub proof fn lemma_rwf_view(r: Seq<Rat>)
    requires
        rwf(r),
    ensures
        vwf(rview(r)),
{
    assert forall|i: int| 0 <= i < rview(r).len() implies frac_wf(#[trigger] rview(r)[i]) by {
        assert(r[i].wf());
    }
}

/// A copy of an executable vector of rationals.
pub fn vec_copy(row: &Vec<Rat>) -> (r: Vec<Rat>)
    ensures
        r@ == row@,
{
    let mut out: Vec<Rat> = Vec::new();
    let mut j: usize = 0;
    while j < row.len()
        invariant
            j <= row@.len(),
            out@.len() == j,
            forall|y: int| 0 <= y < j ==> #[trigger] out@[y] == row@[y],
        decreases row@.len() - j,
    {
        out.push(row[j]);
        j = j + 1;
    }
    proof {
        assert(out@ =~= row@);
    }
    out
}

/// One entry of a matrix product: the inner product of row `i` of `a`
/// with column `j` of `b`.  `None` on arithmetic overflow.
fn dot_entry(a: &Vec<Vec<Rat>>, b: &Vec<Vec<Rat>>, i: usize, j: usize) -> (r: Option<Rat>)
    requires
        mat_ok(a@),
        mat_ok(b@),
        mcols_exec(a@) == mrows(b@),
        i < a@.len(),
        j < b@[0]@.len(),
    ensures
        r matches Some(v) ==> v.wf() && frac_eq(
            v@,
            mmul(mview(a@), mview(b@))[i as int][j as int],
        ),
        r is Some <==> dot_fits(mview(a@)[i as int], mcol(mview(b@), j as int)),
        r matches Some(v) ==> v@ == dot_acc(
            mview(a@)[i as int],
            mcol(mview(b@), j as int),
            b@.len() as int,
        ),
{
    let n: usize = b.len();
    let mut acc: Rat = Rat::zero();
    let mut k: usize = 0;
    while k < n
        invariant
            mat_ok(a@),
            mat_ok(b@),
            mcols_exec(a@) == mrows(b@),
            i < a@.len(),
            j < b@[0]@.len(),
            k <= n,
            n == b@.len(),
            acc.wf(),
            frac_eq(
                acc@,
                vsum(Seq::new(k as nat, |t: int| frac_mul(a@[i as int]@[t]@, b@[t]@[j as int]@))),
            ),
            acc@ == dot_acc(mview(a@)[i as int], mcol(mview(b@), j as int), k as int),
            dot_fits_to(mview(a@)[i as int], mcol(mview(b@), j as int), k as int),
        decreases n - k,
    {
        proof {
            assert(rwf(a@[i as int]@));
            assert(a@[i as int]@[k as int].wf());
            assert(rwf(b@[k as int]@));
            assert(b@[k as int]@[j as int].wf());
        }
        let ae: Rat = a[i][k];
        let be: Rat = b[k][j];
        proof {
            assert(ae@ == mview(a@)[i as int][k as int]);
            assert(be@ == mcol(mview(b@), j as int)[k as int]);
        }
        let p: Rat = match ae.checked_mul(&be) {
            Some(v) => v,
            None => {
                proof {
                    let ar = mview(a@)[i as int];
                    let bc = mcol(mview(b@), j as int);
                    if dot_fits(ar, bc) {
                        lemma_dot_fits_to_mono(ar, bc, k as int + 1, ar.len() as int);
                        assert(canon_fits(frac_mul(ar[k as int], bc[k as int])));
                        assert(false);
                    }
                }
                return None;
            },
        };
        let acc2: Rat = match acc.checked_add(&p) {
            Some(v) => v,
            None => {
                proof {
                    let ar = mview(a@)[i as int];
                    let bc = mcol(mview(b@), j as int);
                    assert(p@ == frac_canon(frac_mul(ar[k as int], bc[k as int])));
                    if dot_fits(ar, bc) {
                        lemma_dot_fits_to_mono(ar, bc, k as int + 1, ar.len() as int);
                        assert(canon_fits(
                            frac_add(
                                dot_acc(ar, bc, k as int),
                                frac_canon(frac_mul(ar[k as int], bc[k as int])),
                            ),
                        ));
                        assert(false);
                    }
                }
                return None;
            },
        };
        proof {
            let ar = mview(a@)[i as int];
            let bc = mcol(mview(b@), j as int);
            assert(p@ == frac_canon(frac_mul(ar[k as int], bc[k as int])));
            assert(acc2@ == dot_acc(ar, bc, k as int + 1));
            assert(dot_fits_to(ar, bc, k as int + 1));
        }
        proof {
            let ki = k as int;
            let t_old = Seq::new(ki as nat, |t: int| frac_mul(a@[i as int]@[t]@, b@[t]@[j as int]@));
            let t_new = Seq::new(
                (ki + 1) as nat,
                |t: int| frac_mul(a@[i as int]@[t]@, b@[t]@[j as int]@),
            );
            assert(t_new.drop_last() =~= t_old);
            assert forall|t: int| 0 <= t < ki implies frac_wf(#[trigger] t_old[t]) by {
                assert(a@[i as int]@[t].wf());
                assert(b@[t]@[j as int].wf());
                lemma_frac_add_wf(a@[i as int]@[t]@, b@[t]@[j as int]@);
            }
            lemma_vsum_wf(t_old);
            lemma_frac_add_wf(a@[i as int]@[ki]@, b@[ki]@[j as int]@);
            lemma_frac_add_congruence(acc@, vsum(t_old), p@, t_new.last());
            lemma_frac_add_wf(acc@, p@);
            lemma_frac_add_wf(vsum(t_old), t_new.last());
            lemma_frac_eq_trans(acc2@, frac_add(acc@, p@), vsum(t_new));
        }
        acc = acc2;
        k = k + 1;
    }
    proof {
        let av = mview(a@);
        let bv = mview(b@);
        let full = Seq::new(n as nat, |t: int| frac_mul(a@[i as int]@[t]@, b@[t]@[j as int]@));
        let dotseq = Seq::new(
            av[i as int].len(),
            |t: int| frac_mul(av[i as int][t], mcol(bv, j as int)[t]),
        );
        assert(full =~= dotseq);
        assert(mmul(av, bv)[i as int][j as int] == vdot(av[i as int], mcol(bv, j as int)));
        assert(av[i as int].len() == n);
        assert(dot_fits(av[i as int], mcol(bv, j as int)));
    }
    Some(acc)
}

/// Exact matrix product.  `None` on arithmetic overflow.
pub fn mat_mul(a: &Vec<Vec<Rat>>, b: &Vec<Vec<Rat>>) -> (r: Option<Vec<Vec<Rat>>>)
    requires
        mat_ok(a@),
        mat_ok(b@),
        mcols_exec(a@) == mrows(b@),
    ensures
        r matches Some(m) ==> {
            &&& mat_ok(m@)
            &&& mrows(m@) == mrows(a@)
            &&& mcols_exec(m@) == mcols_exec(b@)
            &&& meq(mview(m@), mmul(mview(a@), mview(b@)))
        },
        r is Some <==> mmul_fits(mview(a@), mview(b@)),
        r matches Some(m) ==> mview(m@) == mmul_canon(mview(a@), mview(b@)),
{
    let rows_n: usize = a.len();
    let cols_n: usize = b[0].len();
    proof {
        assert(mcols(mview(b@)) == cols_n);
    }
    let mut out: Vec<Vec<Rat>> = Vec::new();
    let mut i: usize = 0;
    while i < rows_n
        invariant
            mat_ok(a@),
            mat_ok(b@),
            mcols_exec(a@) == mrows(b@),
            rows_n == a@.len(),
            cols_n == b@[0]@.len(),
            i <= rows_n,
            out@.len() == i,
            forall|x: int| 0 <= x < i ==> (#[trigger] out@[x])@.len() == cols_n,
            forall|x: int| 0 <= x < i ==> rwf((#[trigger] out@[x])@),
            forall|x: int, y: int|
                0 <= x < i && 0 <= y < cols_n ==> frac_eq(
                    #[trigger] out@[x]@[y]@,
                    mmul(mview(a@), mview(b@))[x][y],
                ),
            forall|x: int, y: int|
                0 <= x < i && 0 <= y < cols_n ==> #[trigger] dot_fits(
                    mview(a@)[x],
                    mcol(mview(b@), y),
                ),
            forall|x: int, y: int|
                0 <= x < i && 0 <= y < cols_n ==> (#[trigger] out@[x]@[y])@ == dot_acc(
                    mview(a@)[x],
                    mcol(mview(b@), y),
                    b@.len() as int,
                ),
        decreases rows_n - i,
    {
        let mut row: Vec<Rat> = Vec::new();
        let mut j: usize = 0;
        while j < cols_n
            invariant
                mat_ok(a@),
                mat_ok(b@),
                mcols_exec(a@) == mrows(b@),
                rows_n == a@.len(),
                cols_n == b@[0]@.len(),
                i < rows_n,
                j <= cols_n,
                row@.len() == j,
                forall|y: int| 0 <= y < j ==> (#[trigger] row@[y]).wf(),
                forall|y: int|
                    0 <= y < j ==> frac_eq(
                        (#[trigger] row@[y])@,
                        mmul(mview(a@), mview(b@))[i as int][y],
                    ),
                forall|x: int, y: int|
                    0 <= x < i && 0 <= y < cols_n ==> #[trigger] dot_fits(
                        mview(a@)[x],
                        mcol(mview(b@), y),
                    ),
                forall|y: int|
                    0 <= y < j ==> #[trigger] dot_fits(mview(a@)[i as int], mcol(mview(b@), y)),
                forall|y: int|
                    0 <= y < j ==> (#[trigger] row@[y])@ == dot_acc(
                        mview(a@)[i as int],
                        mcol(mview(b@), y),
                        b@.len() as int,
                    ),
            decreases cols_n - j,
        {
            let e: Rat = match dot_entry(a, b, i, j) {
                Some(v) => v,
                None => {
                    proof {
                        assert(!dot_fits(mview(a@)[i as int], mcol(mview(b@), j as int)));
                        assert(mcols(mview(b@)) == cols_n);
                        assert(!mmul_fits(mview(a@), mview(b@)));
                    }
                    return None;
                },
            };
            row.push(e);
            j = j + 1;
        }
        out.push(row);
        i = i + 1;
    }
    proof {
        assert(meq(mview(out@), mmul(mview(a@), mview(b@)))) by {
            let lhs = mview(out@);
            let rhs = mmul(mview(a@), mview(b@));
            assert forall|x: int| 0 <= x < lhs.len() implies (#[trigger] lhs[x]).len()
                == rhs[x].len() by {
                assert(out@[x]@.len() == cols_n);
            }
            assert forall|x: int, y: int|
                0 <= x < lhs.len() && 0 <= y < lhs[x].len() implies frac_eq(
                #[trigger] lhs[x][y],
                rhs[x][y],
            ) by {
                assert(frac_eq(out@[x]@[y]@, rhs[x][y]));
            }
        }
        assert(mcols(mview(b@)) == cols_n);
        assert(mmul_fits(mview(a@), mview(b@)));
        assert(mview(out@) =~~= mmul_canon(mview(a@), mview(b@)));
    }
    Some(out)
}

/// The `n` by `n` executable identity matrix.
pub fn mat_identity(n: usize) -> (r: Vec<Vec<Rat>>)
    requires
        n >= 1,
    ensures
        mat_ok(r@),
        mrows(r@) == n,
        mcols_exec(r@) == n,
        mview(r@) == mid(n as nat),
{
    let mut out: Vec<Vec<Rat>> = Vec::new();
    let mut i: usize = 0;
    while i < n
        invariant
            i <= n,
            out@.len() == i,
            forall|x: int| 0 <= x < i ==> (#[trigger] out@[x])@.len() == n,
            forall|x: int| 0 <= x < i ==> rwf((#[trigger] out@[x])@),
            forall|x: int, y: int|
                0 <= x < i && 0 <= y < n ==> (#[trigger] out@[x]@[y])@ == (if x == y {
                    frac_int(1)
                } else {
                    frac_int(0)
                }),
        decreases n - i,
    {
        let mut row: Vec<Rat> = Vec::new();
        let mut j: usize = 0;
        while j < n
            invariant
                i < n,
                j <= n,
                row@.len() == j,
                forall|y: int| 0 <= y < j ==> (#[trigger] row@[y]).wf(),
                forall|y: int|
                    0 <= y < j ==> (#[trigger] row@[y])@ == (if i == y {
                        frac_int(1)
                    } else {
                        frac_int(0)
                    }),
            decreases n - j,
        {
            if i == j {
                row.push(Rat::one());
            } else {
                row.push(Rat::zero());
            }
            j = j + 1;
        }
        out.push(row);
        i = i + 1;
    }
    proof {
        assert(mview(out@) =~~= mid(n as nat));
    }
    out
}

/// Transpose of an executable matrix; total.
pub fn mat_transpose(m: &Vec<Vec<Rat>>) -> (r: Vec<Vec<Rat>>)
    requires
        mat_ok(m@),
    ensures
        mat_ok(r@),
        mrows(r@) == mcols_exec(m@),
        mcols_exec(r@) == mrows(m@),
        mview(r@) == mtrans(mview(m@)),
{
    let rows_n: usize = m.len();
    let cols_n: usize = m[0].len();
    let mut out: Vec<Vec<Rat>> = Vec::new();
    let mut i: usize = 0;
    while i < cols_n
        invariant
            mat_ok(m@),
            rows_n == m@.len(),
            cols_n == m@[0]@.len(),
            i <= cols_n,
            out@.len() == i,
            forall|x: int| 0 <= x < i ==> (#[trigger] out@[x])@.len() == rows_n,
            forall|x: int| 0 <= x < i ==> rwf((#[trigger] out@[x])@),
            forall|x: int, y: int|
                0 <= x < i && 0 <= y < rows_n ==> (#[trigger] out@[x]@[y]) == m@[y]@[x],
        decreases cols_n - i,
    {
        let mut row: Vec<Rat> = Vec::new();
        let mut j: usize = 0;
        while j < rows_n
            invariant
                mat_ok(m@),
                rows_n == m@.len(),
                cols_n == m@[0]@.len(),
                i < cols_n,
                j <= rows_n,
                row@.len() == j,
                forall|y: int| 0 <= y < j ==> (#[trigger] row@[y]) == m@[y]@[i as int],
            decreases rows_n - j,
        {
            proof {
                assert(rwf(m@[j as int]@));
            }
            row.push(m[j][i]);
            j = j + 1;
        }
        proof {
            assert forall|y: int| 0 <= y < rows_n implies (#[trigger] row@[y]).wf() by {
                assert(rwf(m@[y]@));
            }
        }
        out.push(row);
        i = i + 1;
    }
    proof {
        assert forall|x: int| 0 <= x < i implies rwf((#[trigger] out@[x])@) by {}
        assert(mview(out@) =~~= mtrans(mview(m@)));
    }
    out
}

/// Exact entrywise sum.  `None` on arithmetic overflow.
pub fn mat_add(a: &Vec<Vec<Rat>>, b: &Vec<Vec<Rat>>) -> (r: Option<Vec<Vec<Rat>>>)
    requires
        mat_ok(a@),
        mat_ok(b@),
        mrows(a@) == mrows(b@),
        mcols_exec(a@) == mcols_exec(b@),
    ensures
        r matches Some(m) ==> {
            &&& mat_ok(m@)
            &&& mrows(m@) == mrows(a@)
            &&& mcols_exec(m@) == mcols_exec(a@)
            &&& meq(mview(m@), madd(mview(a@), mview(b@)))
        },
        r is Some <==> madd_fits(mview(a@), mview(b@)),
        r matches Some(m) ==> mview(m@) == madd_canon(mview(a@), mview(b@)),
{
    let rows_n: usize = a.len();
    let cols_n: usize = a[0].len();
    let mut out: Vec<Vec<Rat>> = Vec::new();
    let mut i: usize = 0;
    while i < rows_n
        invariant
            mat_ok(a@),
            mat_ok(b@),
            mrows(a@) == mrows(b@),
            mcols_exec(a@) == mcols_exec(b@),
            rows_n == a@.len(),
            cols_n == a@[0]@.len(),
            i <= rows_n,
            out@.len() == i,
            forall|x: int| 0 <= x < i ==> (#[trigger] out@[x])@.len() == cols_n,
            forall|x: int| 0 <= x < i ==> rwf((#[trigger] out@[x])@),
            forall|x: int, y: int|
                0 <= x < i && 0 <= y < cols_n ==> frac_eq(
                    #[trigger] out@[x]@[y]@,
                    frac_add(a@[x]@[y]@, b@[x]@[y]@),
                ),
            forall|x: int, y: int|
                0 <= x < i && 0 <= y < cols_n ==> canon_fits(
                    #[trigger] frac_add(mview(a@)[x][y], mview(b@)[x][y]),
                ),
            forall|x: int, y: int|
                0 <= x < i && 0 <= y < cols_n ==> (#[trigger] out@[x]@[y])@ == frac_canon(
                    frac_add(mview(a@)[x][y], mview(b@)[x][y]),
                ),
        decreases rows_n - i,
    {
        let mut row: Vec<Rat> = Vec::new();
        let mut j: usize = 0;
        while j < cols_n
            invariant
                mat_ok(a@),
                mat_ok(b@),
                mrows(a@) == mrows(b@),
                mcols_exec(a@) == mcols_exec(b@),
                rows_n == a@.len(),
                cols_n == a@[0]@.len(),
                i < rows_n,
                j <= cols_n,
                row@.len() == j,
                forall|y: int| 0 <= y < j ==> (#[trigger] row@[y]).wf(),
                forall|y: int|
                    0 <= y < j ==> frac_eq((#[trigger] row@[y])@, frac_add(a@[i as int]@[y]@, b@[i as int]@[y]@)),
                forall|x: int, y: int|
                    0 <= x < i && 0 <= y < cols_n ==> canon_fits(
                        #[trigger] frac_add(mview(a@)[x][y], mview(b@)[x][y]),
                    ),
                forall|y: int|
                    0 <= y < j ==> canon_fits(
                        #[trigger] frac_add(mview(a@)[i as int][y], mview(b@)[i as int][y]),
                    ),
                forall|y: int|
                    0 <= y < j ==> (#[trigger] row@[y])@ == frac_canon(
                        frac_add(mview(a@)[i as int][y], mview(b@)[i as int][y]),
                    ),
            decreases cols_n - j,
        {
            proof {
                assert(rwf(a@[i as int]@));
                assert(rwf(b@[i as int]@));
                assert(a@[i as int]@[j as int]@ == mview(a@)[i as int][j as int]);
                assert(b@[i as int]@[j as int]@ == mview(b@)[i as int][j as int]);
            }
            let e: Rat = match a[i][j].checked_add(&b[i][j]) {
                Some(v) => v,
                None => {
                    proof {
                        assert(!canon_fits(frac_add(
                            mview(a@)[i as int][j as int],
                            mview(b@)[i as int][j as int],
                        )));
                        assert(mview(a@)[i as int].len() == cols_n);
                        assert(!madd_fits(mview(a@), mview(b@)));
                    }
                    return None;
                },
            };
            row.push(e);
            j = j + 1;
        }
        out.push(row);
        i = i + 1;
    }
    proof {
        let lhs = mview(out@);
        let rhs = madd(mview(a@), mview(b@));
        assert forall|x: int| 0 <= x < lhs.len() implies (#[trigger] lhs[x]).len()
            == rhs[x].len() by {
            assert(out@[x]@.len() == cols_n);
        }
        assert forall|x: int, y: int|
            0 <= x < lhs.len() && 0 <= y < lhs[x].len() implies frac_eq(
            #[trigger] lhs[x][y],
            rhs[x][y],
        ) by {
            assert(frac_eq(out@[x]@[y]@, frac_add(a@[x]@[y]@, b@[x]@[y]@)));
        }
        assert forall|x: int, y: int|
            0 <= x < mview(a@).len() && 0 <= y < mview(a@)[x].len() implies canon_fits(
            #[trigger] frac_add(mview(a@)[x][y], mview(b@)[x][y]),
        ) by {
            assert(a@[x]@.len() == cols_n);
        }
        assert(madd_fits(mview(a@), mview(b@)));
        assert(mview(out@) =~~= madd_canon(mview(a@), mview(b@)));
    }
    Some(out)
}

/// Exact entrywise difference.  `None` on arithmetic overflow.
pub fn mat_sub(a: &Vec<Vec<Rat>>, b: &Vec<Vec<Rat>>) -> (r: Option<Vec<Vec<Rat>>>)
    requires
        mat_ok(a@),
        mat_ok(b@),
        mrows(a@) == mrows(b@),
        mcols_exec(a@) == mcols_exec(b@),
    ensures
        r matches Some(m) ==> {
            &&& mat_ok(m@)
            &&& mrows(m@) == mrows(a@)
            &&& mcols_exec(m@) == mcols_exec(a@)
            &&& meq(mview(m@), msub(mview(a@), mview(b@)))
        },
        r is Some <==> msub_fits(mview(a@), mview(b@)),
        r matches Some(m) ==> mview(m@) == msub_canon(mview(a@), mview(b@)),
{
    let rows_n: usize = a.len();
    let cols_n: usize = a[0].len();
    let mut out: Vec<Vec<Rat>> = Vec::new();
    let mut i: usize = 0;
    while i < rows_n
        invariant
            mat_ok(a@),
            mat_ok(b@),
            mrows(a@) == mrows(b@),
            mcols_exec(a@) == mcols_exec(b@),
            rows_n == a@.len(),
            cols_n == a@[0]@.len(),
            i <= rows_n,
            out@.len() == i,
            forall|x: int| 0 <= x < i ==> (#[trigger] out@[x])@.len() == cols_n,
            forall|x: int| 0 <= x < i ==> rwf((#[trigger] out@[x])@),
            forall|x: int, y: int|
                0 <= x < i && 0 <= y < cols_n ==> frac_eq(
                    #[trigger] out@[x]@[y]@,
                    frac_sub(a@[x]@[y]@, b@[x]@[y]@),
                ),
            forall|x: int, y: int|
                0 <= x < i && 0 <= y < cols_n ==> canon_fits(
                    #[trigger] frac_sub(mview(a@)[x][y], mview(b@)[x][y]),
                ),
            forall|x: int, y: int|
                0 <= x < i && 0 <= y < cols_n ==> (#[trigger] out@[x]@[y])@ == frac_canon(
                    frac_sub(mview(a@)[x][y], mview(b@)[x][y]),
                ),
        decreases rows_n - i,
    {
        let mut row: Vec<Rat> = Vec::new();
        let mut j: usize = 0;
        while j < cols_n
            invariant
                mat_ok(a@),
                mat_ok(b@),
                mrows(a@) == mrows(b@),
                mcols_exec(a@) == mcols_exec(b@),
                rows_n == a@.len(),
                cols_n == a@[0]@.len(),
                i < rows_n,
                j <= cols_n,
                row@.len() == j,
                forall|y: int| 0 <= y < j ==> (#[trigger] row@[y]).wf(),
                forall|y: int|
                    0 <= y < j ==> frac_eq((#[trigger] row@[y])@, frac_sub(a@[i as int]@[y]@, b@[i as int]@[y]@)),
                forall|x: int, y: int|
                    0 <= x < i && 0 <= y < cols_n ==> canon_fits(
                        #[trigger] frac_sub(mview(a@)[x][y], mview(b@)[x][y]),
                    ),
                forall|y: int|
                    0 <= y < j ==> canon_fits(
                        #[trigger] frac_sub(mview(a@)[i as int][y], mview(b@)[i as int][y]),
                    ),
                forall|y: int|
                    0 <= y < j ==> (#[trigger] row@[y])@ == frac_canon(
                        frac_sub(mview(a@)[i as int][y], mview(b@)[i as int][y]),
                    ),
            decreases cols_n - j,
        {
            proof {
                assert(rwf(a@[i as int]@));
                assert(rwf(b@[i as int]@));
                assert(a@[i as int]@[j as int]@ == mview(a@)[i as int][j as int]);
                assert(b@[i as int]@[j as int]@ == mview(b@)[i as int][j as int]);
            }
            let e: Rat = match a[i][j].checked_sub(&b[i][j]) {
                Some(v) => v,
                None => {
                    proof {
                        assert(!canon_fits(frac_sub(
                            mview(a@)[i as int][j as int],
                            mview(b@)[i as int][j as int],
                        )));
                        assert(mview(a@)[i as int].len() == cols_n);
                        assert(!msub_fits(mview(a@), mview(b@)));
                    }
                    return None;
                },
            };
            row.push(e);
            j = j + 1;
        }
        out.push(row);
        i = i + 1;
    }
    proof {
        let lhs = mview(out@);
        let rhs = msub(mview(a@), mview(b@));
        assert forall|x: int| 0 <= x < lhs.len() implies (#[trigger] lhs[x]).len()
            == rhs[x].len() by {
            assert(out@[x]@.len() == cols_n);
        }
        assert forall|x: int, y: int|
            0 <= x < lhs.len() && 0 <= y < lhs[x].len() implies frac_eq(
            #[trigger] lhs[x][y],
            rhs[x][y],
        ) by {
            assert(frac_eq(out@[x]@[y]@, frac_sub(a@[x]@[y]@, b@[x]@[y]@)));
            assert(rhs[x][y] == frac_add(mview(a@)[x][y], frac_neg(mview(b@)[x][y])));
        }
        assert forall|x: int, y: int|
            0 <= x < mview(a@).len() && 0 <= y < mview(a@)[x].len() implies canon_fits(
            #[trigger] frac_sub(mview(a@)[x][y], mview(b@)[x][y]),
        ) by {
            assert(a@[x]@.len() == cols_n);
        }
        assert(msub_fits(mview(a@), mview(b@)));
        assert(mview(out@) =~~= msub_canon(mview(a@), mview(b@)));
    }
    Some(out)
}

/// Exact scaling of every entry by `c`.  `None` on arithmetic overflow.
pub fn mat_scale(c: &Rat, m: &Vec<Vec<Rat>>) -> (r: Option<Vec<Vec<Rat>>>)
    requires
        c.wf(),
        mat_ok(m@),
    ensures
        r matches Some(s) ==> {
            &&& mat_ok(s@)
            &&& mrows(s@) == mrows(m@)
            &&& mcols_exec(s@) == mcols_exec(m@)
            &&& meq(mview(s@), mscale(c@, mview(m@)))
        },
        r is Some <==> mscale_fits(c@, mview(m@)),
        r matches Some(s) ==> mview(s@) == mscale_canon(c@, mview(m@)),
{
    let rows_n: usize = m.len();
    let cols_n: usize = m[0].len();
    let mut out: Vec<Vec<Rat>> = Vec::new();
    let mut i: usize = 0;
    while i < rows_n
        invariant
            c.wf(),
            mat_ok(m@),
            rows_n == m@.len(),
            cols_n == m@[0]@.len(),
            i <= rows_n,
            out@.len() == i,
            forall|x: int| 0 <= x < i ==> (#[trigger] out@[x])@.len() == cols_n,
            forall|x: int| 0 <= x < i ==> rwf((#[trigger] out@[x])@),
            forall|x: int, y: int|
                0 <= x < i && 0 <= y < cols_n ==> frac_eq(
                    #[trigger] out@[x]@[y]@,
                    frac_mul(c@, m@[x]@[y]@),
                ),
            forall|x: int, y: int|
                0 <= x < i && 0 <= y < cols_n ==> canon_fits(
                    #[trigger] frac_mul(c@, mview(m@)[x][y]),
                ),
            forall|x: int, y: int|
                0 <= x < i && 0 <= y < cols_n ==> (#[trigger] out@[x]@[y])@ == frac_canon(
                    frac_mul(c@, mview(m@)[x][y]),
                ),
        decreases rows_n - i,
    {
        let mut row: Vec<Rat> = Vec::new();
        let mut j: usize = 0;
        while j < cols_n
            invariant
                c.wf(),
                mat_ok(m@),
                rows_n == m@.len(),
                cols_n == m@[0]@.len(),
                i < rows_n,
                j <= cols_n,
                row@.len() == j,
                forall|y: int| 0 <= y < j ==> (#[trigger] row@[y]).wf(),
                forall|y: int|
                    0 <= y < j ==> frac_eq((#[trigger] row@[y])@, frac_mul(c@, m@[i as int]@[y]@)),
                forall|x: int, y: int|
                    0 <= x < i && 0 <= y < cols_n ==> canon_fits(
                        #[trigger] frac_mul(c@, mview(m@)[x][y]),
                    ),
                forall|y: int|
                    0 <= y < j ==> canon_fits(#[trigger] frac_mul(c@, mview(m@)[i as int][y])),
                forall|y: int|
                    0 <= y < j ==> (#[trigger] row@[y])@ == frac_canon(
                        frac_mul(c@, mview(m@)[i as int][y]),
                    ),
            decreases cols_n - j,
        {
            proof {
                assert(rwf(m@[i as int]@));
                assert(m@[i as int]@[j as int]@ == mview(m@)[i as int][j as int]);
            }
            let e: Rat = match c.checked_mul(&m[i][j]) {
                Some(v) => v,
                None => {
                    proof {
                        assert(!canon_fits(frac_mul(c@, mview(m@)[i as int][j as int])));
                        assert(mview(m@)[i as int].len() == cols_n);
                        assert(!mscale_fits(c@, mview(m@)));
                    }
                    return None;
                },
            };
            row.push(e);
            j = j + 1;
        }
        out.push(row);
        i = i + 1;
    }
    proof {
        let lhs = mview(out@);
        let rhs = mscale(c@, mview(m@));
        assert forall|x: int| 0 <= x < lhs.len() implies (#[trigger] lhs[x]).len()
            == rhs[x].len() by {
            assert(out@[x]@.len() == cols_n);
        }
        assert forall|x: int, y: int|
            0 <= x < lhs.len() && 0 <= y < lhs[x].len() implies frac_eq(
            #[trigger] lhs[x][y],
            rhs[x][y],
        ) by {
            assert(frac_eq(out@[x]@[y]@, frac_mul(c@, m@[x]@[y]@)));
        }
        assert forall|x: int, y: int|
            0 <= x < mview(m@).len() && 0 <= y < mview(m@)[x].len() implies canon_fits(
            #[trigger] frac_mul(c@, mview(m@)[x][y]),
        ) by {
            assert(m@[x]@.len() == cols_n);
        }
        assert(mscale_fits(c@, mview(m@)));
        assert(mview(out@) =~~= mscale_canon(c@, mview(m@)));
    }
    Some(out)
}

/// Inner product of two executable rows of the same length.  `None` on
/// arithmetic overflow.
pub fn dot_vec(row: &Vec<Rat>, x: &Vec<Rat>) -> (r: Option<Rat>)
    requires
        rwf(row@),
        rwf(x@),
        row@.len() == x@.len(),
    ensures
        r matches Some(v) ==> v.wf() && frac_eq(v@, vdot(rview(row@), rview(x@))),
        r is Some <==> dot_fits(rview(row@), rview(x@)),
        r matches Some(v) ==> v@ == dot_acc(rview(row@), rview(x@), row@.len() as int),
{
    let n: usize = row.len();
    let mut acc: Rat = Rat::zero();
    let mut k: usize = 0;
    while k < n
        invariant
            rwf(row@),
            rwf(x@),
            row@.len() == x@.len(),
            n == row@.len(),
            k <= n,
            acc.wf(),
            frac_eq(acc@, vsum(Seq::new(k as nat, |t: int| frac_mul(row@[t]@, x@[t]@)))),
            acc@ == dot_acc(rview(row@), rview(x@), k as int),
            dot_fits_to(rview(row@), rview(x@), k as int),
        decreases n - k,
    {
        proof {
            assert(row@[k as int].wf());
            assert(x@[k as int].wf());
            assert(row@[k as int]@ == rview(row@)[k as int]);
            assert(x@[k as int]@ == rview(x@)[k as int]);
        }
        let p: Rat = match row[k].checked_mul(&x[k]) {
            Some(v) => v,
            None => {
                proof {
                    let ar = rview(row@);
                    let bc = rview(x@);
                    if dot_fits(ar, bc) {
                        lemma_dot_fits_to_mono(ar, bc, k as int + 1, ar.len() as int);
                        assert(canon_fits(frac_mul(ar[k as int], bc[k as int])));
                        assert(false);
                    }
                }
                return None;
            },
        };
        let acc2: Rat = match acc.checked_add(&p) {
            Some(v) => v,
            None => {
                proof {
                    let ar = rview(row@);
                    let bc = rview(x@);
                    assert(p@ == frac_canon(frac_mul(ar[k as int], bc[k as int])));
                    if dot_fits(ar, bc) {
                        lemma_dot_fits_to_mono(ar, bc, k as int + 1, ar.len() as int);
                        assert(canon_fits(
                            frac_add(
                                dot_acc(ar, bc, k as int),
                                frac_canon(frac_mul(ar[k as int], bc[k as int])),
                            ),
                        ));
                        assert(false);
                    }
                }
                return None;
            },
        };
        proof {
            let ar = rview(row@);
            let bc = rview(x@);
            assert(p@ == frac_canon(frac_mul(ar[k as int], bc[k as int])));
            assert(acc2@ == dot_acc(ar, bc, k as int + 1));
            assert(dot_fits_to(ar, bc, k as int + 1));
        }
        proof {
            let ki = k as int;
            let t_old = Seq::new(ki as nat, |t: int| frac_mul(row@[t]@, x@[t]@));
            let t_new = Seq::new((ki + 1) as nat, |t: int| frac_mul(row@[t]@, x@[t]@));
            assert(t_new.drop_last() =~= t_old);
            assert forall|t: int| 0 <= t < ki implies frac_wf(#[trigger] t_old[t]) by {
                assert(row@[t].wf());
                assert(x@[t].wf());
                lemma_frac_add_wf(row@[t]@, x@[t]@);
            }
            lemma_vsum_wf(t_old);
            lemma_frac_add_wf(row@[ki]@, x@[ki]@);
            lemma_frac_add_congruence(acc@, vsum(t_old), p@, t_new.last());
            lemma_frac_add_wf(acc@, p@);
            lemma_frac_add_wf(vsum(t_old), t_new.last());
            lemma_frac_eq_trans(acc2@, frac_add(acc@, p@), vsum(t_new));
        }
        acc = acc2;
        k = k + 1;
    }
    proof {
        let full = Seq::new(n as nat, |t: int| frac_mul(row@[t]@, x@[t]@));
        let dotseq = Seq::new(
            rview(row@).len(),
            |t: int| frac_mul(rview(row@)[t], rview(x@)[t]),
        );
        assert(full =~= dotseq);
        assert(rview(row@).len() == n);
        assert(dot_fits(rview(row@), rview(x@)));
    }
    Some(acc)
}

/// Exact matrix-vector product.  `None` on arithmetic overflow.
pub fn mat_vec_mul(m: &Vec<Vec<Rat>>, x: &Vec<Rat>) -> (r: Option<Vec<Rat>>)
    requires
        mat_ok(m@),
        rwf(x@),
        mcols_exec(m@) == x@.len(),
    ensures
        r matches Some(v) ==> rwf(v@) && veq(rview(v@), mvmul(mview(m@), rview(x@))),
        r is Some <==> mvmul_fits(mview(m@), rview(x@)),
        r matches Some(v) ==> rview(v@) == mvmul_canon(mview(m@), rview(x@)),
{
    let rows_n: usize = m.len();
    let mut out: Vec<Rat> = Vec::new();
    let mut i: usize = 0;
    while i < rows_n
        invariant
            mat_ok(m@),
            rwf(x@),
            mcols_exec(m@) == x@.len(),
            rows_n == m@.len(),
            i <= rows_n,
            out@.len() == i,
            forall|y: int| 0 <= y < i ==> (#[trigger] out@[y]).wf(),
            forall|y: int|
                0 <= y < i ==> frac_eq((#[trigger] out@[y])@, mvmul(mview(m@), rview(x@))[y]),
            forall|y: int| 0 <= y < i ==> #[trigger] dot_fits(mview(m@)[y], rview(x@)),
            forall|y: int|
                0 <= y < i ==> (#[trigger] out@[y])@ == dot_acc(
                    mview(m@)[y],
                    rview(x@),
                    x@.len() as int,
                ),
        decreases rows_n - i,
    {
        proof {
            assert(rwf(m@[i as int]@));
            assert(rview(m@[i as int]@) =~= mview(m@)[i as int]);
        }
        let e: Rat = match dot_vec(&m[i], x) {
            Some(v) => v,
            None => {
                proof {
                    assert(!dot_fits(mview(m@)[i as int], rview(x@)));
                    assert(!mvmul_fits(mview(m@), rview(x@)));
                }
                return None;
            },
        };
        proof {
            assert(mvmul(mview(m@), rview(x@))[i as int] == vdot(mview(m@)[i as int], rview(x@)));
            assert(dot_fits(mview(m@)[i as int], rview(x@)));
        }
        out.push(e);
        i = i + 1;
    }
    proof {
        assert forall|y: int| 0 <= y < rview(out@).len() implies frac_eq(
            #[trigger] rview(out@)[y],
            mvmul(mview(m@), rview(x@))[y],
        ) by {
            assert(frac_eq(out@[y]@, mvmul(mview(m@), rview(x@))[y]));
        }
        assert(mvmul_fits(mview(m@), rview(x@)));
        assert(rview(out@) =~= mvmul_canon(mview(m@), rview(x@)));
    }
    Some(out)
}

} // verus!
