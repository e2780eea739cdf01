//! Left inverses of square rational matrices.
//!
//! `left_inverse` runs a Gauss-Jordan elimination and then checks its own
//! result: a candidate inverse is accepted only after multiplying it back
//! against the input and comparing with the identity, and a candidate
//! null-space vector is accepted only after multiplying it through the
//! input and comparing with zero.  The certificates rest on those checks;
//! in addition, a specification-level mirror of the elimination
//! (`elim_spec`, `elim_fits`) pins when the bounded arithmetic completes,
//! so `OutOfRange` comes exactly when the computation leaves the `i64`
//! range.

use crate::matrix::{
    is_mat, lemma_mat_ok_view, lemma_meq_symm, lemma_meq_trans, lemma_mid_is_mat,
    lemma_mmul_is_mat, lemma_no_left_inverse, lemma_rwf_view, lemma_vdot_wf, mat_identity,
    mat_mul, mat_ok, mat_vec_mul, mcols_exec, meq, mid, mmul, mmul_fits, mrows, mview, mvmul,
    mvmul_fits, rview, rwf, vdot,
};
use crate::rational::{
    canon_fits, frac_canon, frac_eq, frac_int, frac_mul, frac_neg, frac_recip, frac_sub, frac_wf,
    lemma_frac_eq_symm, lemma_frac_eq_trans, Frac, Rat,
};
use vstd::pervasive::VecAdditionalExecFns;
use vstd::prelude::*;

verus! {

/// What an attempt to invert a square matrix can end in.
pub enum InverseOutcome {
    /// A left inverse: multiplying it by the input gives the identity.
    Inverse(Vec<Vec<Rat>>),
    /// A nonzero vector that the input sends to zero, so no left
    /// inverse exists.
    Singular(Vec<Rat>),
    /// The exact arithmetic left the machine range before either of the
    /// two certificates could be established.
    OutOfRange,
}

/// A row with every entry multiplied by `f`, in canonical form: what
/// `row_scaled` returns on success.
pub open spec fn row_scaled_canon(f: Frac, row: Seq<Frac>) -> Seq<Frac> {
    Seq::new(row.len(), |j: int| frac_canon(frac_mul(f, row[j])))
}

/// Every scaled entry fits the `i64` representation.
pub open spec fn row_scale_fits(f: Frac, row: Seq<Frac>) -> bool {
    forall|j: int| 0 <= j < row.len() ==> canon_fits(#[trigger] frac_mul(f, row[j]))
}

/// A row minus `f` times a base row, in canonical form: what
/// `row_sub_scaled` returns on success.
pub open spec fn row_sub_scaled_canon(row: Seq<Frac>, base: Seq<Frac>, f: Frac) -> Seq<Frac> {
    Seq::new(row.len(), |j: int| frac_canon(frac_sub(row[j], frac_canon(frac_mul(f, base[j])))))
}

/// Every intermediate of the combined row operation fits the `i64`
/// representation.
pub open spec fn row_sub_scale_fits(row: Seq<Frac>, base: Seq<Frac>, f: Frac) -> bool {
    forall|j: int|
        0 <= j < row.len() ==> canon_fits(#[trigger] frac_mul(f, base[j])) && canon_fits(
            frac_sub(row[j], frac_canon(frac_mul(f, base[j]))),
        )
}

/// The first row at or after `i` whose entry in column `col` is nonzero.
pub open spec fn pivot_from(t: Seq<Seq<Frac>>, col: int, i: int) -> Option<int>
    decreases t.len() as int - i,
{
    if i < 0 || i >= t.len() {
        None
    } else if !frac_eq(t[i][col], frac_int(0)) {
        Some(i)
    } else {
        pivot_from(t, col, i + 1)
    }
}

/// A found pivot lies in range and is nonzero.
pub proof fn lemma_pivot_from_sound(t: Seq<Seq<Frac>>, col: int, i: int, p: int)
    requires
        pivot_from(t, col, i) == Some(p),
    ensures
        i <= p < t.len(),
        !frac_eq(t[p][col], frac_int(0)),
    decreases t.len() as int - i,
{
    if 0 <= i < t.len() && frac_eq(t[i][col], frac_int(0)) {
        lemma_pivot_from_sound(t, col, i + 1, p);
    }
}

/// The elimination mirror's state after some number of columns: still
/// reducing, with the work matrix and the transform, or stopped at a
/// column without pivot, with that column's null-vector candidate.
pub ghost enum ElimState {
    /// still reducing
    Running { t: Seq<Seq<Frac>>, s: Seq<Seq<Frac>> },
    /// a pivotless column was found
    NullCandidate { v: Seq<Frac> },
}

/// The null-vector candidate of a pivotless column: one at the column,
/// the negated upper entries of the column before it, zeros after.
pub open spec fn null_candidate(t: Seq<Seq<Frac>>, col: int, n: int) -> Seq<Frac> {
    Seq::new(
        n as nat,
        |j: int|
            if j < col {
                frac_neg(t[j][col])
            } else if j == col {
                frac_int(1)
            } else {
                frac_int(0)
            },
    )
}

/// One column of the elimination, on the mirror state: find the pivot,
/// swap it up, scale its row to a unit pivot, and clear the column from
/// every other row.
pub open spec fn elim_step(t: Seq<Seq<Frac>>, s: Seq<Seq<Frac>>, col: int, n: int) -> ElimState {
    match pivot_from(t, col, col) {
        Option::None => ElimState::NullCandidate { v: null_candidate(t, col, n) },
        Option::Some(p) => {
            let t1 = t.update(p, t[col]).update(col, t[p]);
            let s1 = s.update(p, s[col]).update(col, s[p]);
            let f = frac_recip(t1[col][col]);
            let t2 = t1.update(col, row_scaled_canon(f, t1[col]));
            let s2 = s1.update(col, row_scaled_canon(f, s1[col]));
            let t3 = Seq::new(
                t2.len(),
                |ri: int|
                    if ri == col {
                        t2[ri]
                    } else {
                        row_sub_scaled_canon(t2[ri], t2[col], t2[ri][col])
                    },
            );
            let s3 = Seq::new(
                s2.len(),
                |ri: int|
                    if ri == col {
                        s2[ri]
                    } else {
                        row_sub_scaled_canon(s2[ri], s2[col], t2[ri][col])
                    },
            );
            ElimState::Running { t: t3, s: s3 }
        },
    }
}

/// The elimination mirror after the first `col` columns.
pub open spec fn elim_spec(m: Seq<Seq<Frac>>, n: int, col: int) -> ElimState
    decreases col,
{
    if col <= 0 {
        ElimState::Running { t: m, s: mid(n as nat) }
    } else {
        match elim_spec(m, n, col - 1) {
            ElimState::Running { t, s } => elim_step(t, s, col - 1, n),
            ElimState::NullCandidate { v } => ElimState::NullCandidate { v },
        }
    }
}

/// Every arithmetic intermediate of one elimination column fits the
/// `i64` representation.
pub open spec fn elim_step_fits(t: Seq<Seq<Frac>>, s: Seq<Seq<Frac>>, col: int, n: int) -> bool {
    match pivot_from(t, col, col) {
        Option::None => true,
        Option::Some(p) => {
            let t1 = t.update(p, t[col]).update(col, t[p]);
            let s1 = s.update(p, s[col]).update(col, s[p]);
            let f = frac_recip(t1[col][col]);
            let t2 = t1.update(col, row_scaled_canon(f, t1[col]));
            let s2 = s1.update(col, row_scaled_canon(f, s1[col]));
            &&& row_scale_fits(f, t1[col])
            &&& row_scale_fits(f, s1[col])
            &&& forall|ri: int|
                0 <= ri < n && ri != col ==> row_sub_scale_fits(
                    #[trigger] t2[ri],
                    t2[col],
                    t2[ri][col],
                ) && row_sub_scale_fits(s2[ri], s2[col], t2[ri][col])
        },
    }
}

/// Every arithmetic intermediate of the first `col` columns fits.
pub open spec fn elim_fits_to(m: Seq<Seq<Frac>>, n: int, col: int) -> bool
    decreases col,
{
    col <= 0 || {
        &&& elim_fits_to(m, n, col - 1)
        &&& match elim_spec(m, n, col - 1) {
            ElimState::Running { t, s } => elim_step_fits(t, s, col - 1, n),
            ElimState::NullCandidate { v } => true,
        }
    }
}

/// The whole elimination stays within the `i64` representation: the exact
/// condition under which `eliminate` reaches one of its two candidates.
pub open spec fn elim_fits(m: Seq<Seq<Frac>>, n: int) -> bool {
    elim_fits_to(m, n, n)
}

/// The shape of one pivoting elimination step, spelled out: what
/// `elim_step` reduces to when a pivot exists.
proof fn lemma_elim_step_unfold(t: Seq<Seq<Frac>>, s: Seq<Seq<Frac>>, col: int, n: int, p: int)
    requires
        pivot_from(t, col, col) == Some(p),
    ensures
        elim_step(t, s, col, n) is Running,
        ({
            let t1 = t.update(p, t[col]).update(col, t[p]);
            let s1 = s.update(p, s[col]).update(col, s[p]);
            let f = frac_recip(t1[col][col]);
            let t2 = t1.update(col, row_scaled_canon(f, t1[col]));
            let s2 = s1.update(col, row_scaled_canon(f, s1[col]));
            let ta = elim_step(t, s, col, n)->Running_t;
            let sa = elim_step(t, s, col, n)->Running_s;
            &&& ta.len() == t2.len()
            &&& sa.len() == s2.len()
            &&& forall|ri: int|
                0 <= ri < t2.len() ==> #[trigger] ta[ri] == (if ri == col {
                    t2[ri]
                } else {
                    row_sub_scaled_canon(t2[ri], t2[col], t2[ri][col])
                })
            &&& forall|ri: int|
                0 <= ri < s2.len() ==> #[trigger] sa[ri] == (if ri == col {
                    s2[ri]
                } else {
                    row_sub_scaled_canon(s2[ri], s2[col], t2[ri][col])
                })
        }),
{
}

/// What a fitting pivoting step guarantees, spelled out over the same
/// intermediate matrices.
proof fn lemma_step_fits_parts(t: Seq<Seq<Frac>>, s: Seq<Seq<Frac>>, col: int, n: int, p: int)
    requires
        pivot_from(t, col, col) == Some(p),
        elim_step_fits(t, s, col, n),
    ensures
        ({
            let t1 = t.update(p, t[col]).update(col, t[p]);
            let s1 = s.update(p, s[col]).update(col, s[p]);
            let f = frac_recip(t1[col][col]);
            let t2 = t1.update(col, row_scaled_canon(f, t1[col]));
            let s2 = s1.update(col, row_scaled_canon(f, s1[col]));
            &&& row_scale_fits(f, t1[col])
            &&& row_scale_fits(f, s1[col])
            &&& forall|ri: int|
                0 <= ri < n && ri != col ==> row_sub_scale_fits(
                    #[trigger] t2[ri],
                    t2[col],
                    t2[ri][col],
                ) && row_sub_scale_fits(s2[ri], s2[col], t2[ri][col])
        }),
{
}

/// The converse: those guarantees make the step fit.
proof fn lemma_step_fits_intro(t: Seq<Seq<Frac>>, s: Seq<Seq<Frac>>, col: int, n: int, p: int)
    requires
        pivot_from(t, col, col) == Some(p),
        ({
            let t1 = t.update(p, t[col]).update(col, t[p]);
            let s1 = s.update(p, s[col]).update(col, s[p]);
            let f = frac_recip(t1[col][col]);
            let t2 = t1.update(col, row_scaled_canon(f, t1[col]));
            let s2 = s1.update(col, row_scaled_canon(f, s1[col]));
            &&& row_scale_fits(f, t1[col])
            &&& row_scale_fits(f, s1[col])
            &&& forall|ri: int|
                0 <= ri < n && ri != col ==> row_sub_scale_fits(
                    #[trigger] t2[ri],
                    t2[col],
                    t2[ri][col],
                ) && row_sub_scale_fits(s2[ri], s2[col], t2[ri][col])
        }),
    ensures
        elim_step_fits(t, s, col, n),
{
}

/// A prefix of a fitting elimination fits.
pub proof fn lemma_elim_fits_to_mono(m: Seq<Seq<Frac>>, n: int, j: int, k: int)
    requires
        j <= k,
        elim_fits_to(m, n, k),
    ensures
        elim_fits_to(m, n, j),
    decreases k,
{
    if j < k && k > 0 {
        lemma_elim_fits_to_mono(m, n, j, k - 1);
    }
}

/// Once a null-vector candidate is found, no further arithmetic runs, so
/// a fitting prefix makes the whole elimination fit.
pub proof fn lemma_elim_fits_after_null(m: Seq<Seq<Frac>>, n: int, j: int, k: int)
    requires
        j <= k,
        elim_spec(m, n, j) is NullCandidate,
        elim_fits_to(m, n, j),
    ensures
        elim_fits_to(m, n, k),
    decreases k,
{
    if j < k {
        lemma_elim_fits_after_null(m, n, j, k - 1);
        lemma_elim_null_absorbs(m, n, j, k - 1);
    }
}

/// A null-vector candidate, once found, is the final state.
pub proof fn lemma_elim_null_absorbs(m: Seq<Seq<Frac>>, n: int, j: int, k: int)
    requires
        j <= k,
        elim_spec(m, n, j) is NullCandidate,
    ensures
        elim_spec(m, n, k) == elim_spec(m, n, j),
    decreases k,
{
    if j < k {
        lemma_elim_null_absorbs(m, n, j, k - 1);
    }
}

/// A copy of an executable row.
fn copy_row(row: &Vec<Rat>) -> (r: Vec<Rat>)
    ensures
        r@ == row@,
{
    let mut out: Vec<Rat> = Vec::new();
    let mut j: usize = 0;
    while j < row.len()
        invariant
            j <= row@.len(),
            out@.len() == j,
            forall|y: int| 0 <= y < j ==> #[trigger] out@[y] == row@[y],
        decreases row@.len() - j,
    {
        out.push(row[j]);
        j = j + 1;
    }
    proof {
        assert(out@ =~= row@);
    }
    out
}

/// Swaps two rows of a matrix in place.
fn swap_rows(t: &mut Vec<Vec<Rat>>, a: usize, b: usize)
    requires
        a < old(t)@.len(),
        b < old(t)@.len(),
    ensures
        final(t)@.len() == old(t)@.len(),
        (final(t)@[a as int])@ == (old(t)@[b as int])@,
        (final(t)@[b as int])@ == (old(t)@[a as int])@,
        forall|i: int|
            0 <= i < old(t)@.len() && i != a && i != b ==> #[trigger] final(t)@[i] == old(t)@[i],
{
    let ra: Vec<Rat> = copy_row(&t[a]);
    let rb: Vec<Rat> = copy_row(&t[b]);
    t.set(a, rb);
    t.set(b, ra);
}

/// A row with every entry multiplied by `f`.  `None` on overflow.
fn row_scaled(row: &Vec<Rat>, f: &Rat) -> (r: Option<Vec<Rat>>)
    requires
        rwf(row@),
        f.wf(),
    ensures
        r matches Some(v) ==> v@.len() == row@.len() && rwf(v@),
        r is Some <==> row_scale_fits(f@, rview(row@)),
        r matches Some(v) ==> rview(v@) == row_scaled_canon(f@, rview(row@)),
{
    let mut out: Vec<Rat> = Vec::new();
    let mut j: usize = 0;
    while j < row.len()
        invariant
            rwf(row@),
            f.wf(),
            j <= row@.len(),
            out@.len() == j,
            forall|y: int| 0 <= y < j ==> (#[trigger] out@[y]).wf(),
            forall|y: int|
                0 <= y < j ==> canon_fits(#[trigger] frac_mul(f@, rview(row@)[y])),
            forall|y: int|
                0 <= y < j ==> (#[trigger] out@[y])@ == frac_canon(frac_mul(f@, rview(row@)[y])),
        decreases row@.len() - j,
    {
        proof {
            assert(row@[j as int].wf());
            assert(row@[j as int]@ == rview(row@)[j as int]);
        }
        let e: Rat = match f.checked_mul(&row[j]) {
            Some(v) => v,
            None => {
                proof {
                    assert(!canon_fits(frac_mul(f@, rview(row@)[j as int])));
                }
                return None;
            },
        };
        out.push(e);
        j = j + 1;
    }
    proof {
        assert(rview(out@) =~= row_scaled_canon(f@, rview(row@)));
    }
    Some(out)
}

/// A row minus `f` times a base row, entrywise.  `None` on overflow.
fn row_sub_scaled(row: &Vec<Rat>, base: &Vec<Rat>, f: &Rat) -> (r: Option<Vec<Rat>>)
    requires
        rwf(row@),
        rwf(base@),
        row@.len() == base@.len(),
        f.wf(),
    ensures
        r matches Some(v) ==> v@.len() == row@.len() && rwf(v@),
        r is Some <==> row_sub_scale_fits(rview(row@), rview(base@), f@),
        r matches Some(v) ==> rview(v@) == row_sub_scaled_canon(rview(row@), rview(base@), f@),
{
    let mut out: Vec<Rat> = Vec::new();
    let mut j: usize = 0;
    while j < row.len()
        invariant
            rwf(row@),
            rwf(base@),
            row@.len() == base@.len(),
            f.wf(),
            j <= row@.len(),
            out@.len() == j,
            forall|y: int| 0 <= y < j ==> (#[trigger] out@[y]).wf(),
            forall|y: int|
                0 <= y < j ==> canon_fits(#[trigger] frac_mul(f@, rview(base@)[y])) && canon_fits(
                    frac_sub(rview(row@)[y], frac_canon(frac_mul(f@, rview(base@)[y]))),
                ),
            forall|y: int|
                0 <= y < j ==> (#[trigger] out@[y])@ == frac_canon(
                    frac_sub(rview(row@)[y], frac_canon(frac_mul(f@, rview(base@)[y]))),
                ),
        decreases row@.len() - j,
    {
        proof {
            assert(row@[j as int].wf());
            assert(base@[j as int].wf());
            assert(row@[j as int]@ == rview(row@)[j as int]);
            assert(base@[j as int]@ == rview(base@)[j as int]);
        }
        let p: Rat = match f.checked_mul(&base[j]) {
            Some(v) => v,
            None => {
                proof {
                    assert(!canon_fits(frac_mul(f@, rview(base@)[j as int])));
                }
                return None;
            },
        };
        let e: Rat = match row[j].checked_sub(&p) {
            Some(v) => v,
            None => {
                proof {
                    assert(p@ == frac_canon(frac_mul(f@, rview(base@)[j as int])));
                    assert(!canon_fits(
                        frac_sub(rview(row@)[j as int], frac_canon(frac_mul(f@, rview(base@)[j as int]))),
                    ));
                }
                return None;
            },
        };
        out.push(e);
        j = j + 1;
    }
    proof {
        assert(rview(out@) =~= row_sub_scaled_canon(rview(row@), rview(base@), f@));
    }
    Some(out)
}

/// The first row at or after `start` whose entry in `col` is nonzero.
fn find_pivot(t: &Vec<Vec<Rat>>, col: usize, start: usize) -> (r: Option<usize>)
    requires
        mat_ok(t@),
        col < mcols_exec(t@),
        start <= t@.len(),
    ensures
        r matches Some(p) ==> start <= p < t@.len(),
        r matches Some(p) ==> pivot_from(mview(t@), col as int, start as int) == Some(p as int),
        r is None ==> pivot_from(mview(t@), col as int, start as int) is None,
{
    let n: usize = t.len();
    let mut i: usize = start;
    while i < n
        invariant
            mat_ok(t@),
            col < mcols_exec(t@),
            start <= i,
            i <= n,
            n == t@.len(),
            pivot_from(mview(t@), col as int, start as int) == pivot_from(
                mview(t@),
                col as int,
                i as int,
            ),
        decreases n - i,
    {
        proof {
            assert(rwf(t@[i as int]@));
            assert(t@[i as int]@[col as int]@ == mview(t@)[i as int][col as int]);
        }
        if !t[i][col].is_zero() {
            return Some(i);
        }
        i = i + 1;
    }
    None
}

/// Gauss-Jordan elimination.  Produces an unchecked candidate: either a
/// matrix that should be a left inverse or a vector that should span the
/// null space at the failing column.  `left_inverse` checks either claim.
/// A column whose step does not fit dooms the whole elimination.
proof fn lemma_unfit_step(
    m0: Seq<Seq<Frac>>,
    n: int,
    col: int,
    tv: Seq<Seq<Frac>>,
    sv: Seq<Seq<Frac>>,
)
    requires
        0 <= col < n,
        elim_spec(m0, n, col) == (ElimState::Running { t: tv, s: sv }),
        !elim_step_fits(tv, sv, col, n),
    ensures
        !elim_fits(m0, n),
{
    if elim_fits(m0, n) {
        lemma_elim_fits_to_mono(m0, n, col + 1, n);
        assert(elim_fits_to(m0, n, col + 1));
        assert(false);
    }
}

fn eliminate(m: &Vec<Vec<Rat>>, n: usize) -> (r: InverseOutcome)
    requires
        mat_ok(m@),
        m@.len() == n,
        m@[0]@.len() == n,
    ensures
        r matches InverseOutcome::Inverse(s) ==> mat_ok(s@) && s@.len() == n && s@[0]@.len() == n,
        r matches InverseOutcome::Singular(v) ==> rwf(v@) && v@.len() == n,
        r is OutOfRange <==> !elim_fits(mview(m@), n as int),
        elim_fits(mview(m@), n as int) ==> match elim_spec(mview(m@), n as int, n as int) {
            ElimState::Running { t, s } => r matches InverseOutcome::Inverse(sv) && mview(sv@)
                == s,
            ElimState::NullCandidate { v } => r matches InverseOutcome::Singular(vv) && rview(
                vv@,
            ) == v,
        },
{
    let ghost m0 = mview(m@);
    let mut t: Vec<Vec<Rat>> = Vec::new();
    let mut ci: usize = 0;
    while ci < n
        invariant
            mat_ok(m@),
            m@.len() == n,
            m@[0]@.len() == n,
            ci <= n,
            t@.len() == ci,
            forall|x: int| 0 <= x < ci ==> (#[trigger] t@[x])@.len() == n,
            forall|x: int| 0 <= x < ci ==> rwf((#[trigger] t@[x])@),
            forall|x: int| 0 <= x < ci ==> rview((#[trigger] t@[x])@) == mview(m@)[x],
        decreases n - ci,
    {
        proof {
            assert(rwf(m@[ci as int]@));
        }
        let row: Vec<Rat> = copy_row(&m[ci]);
        t.push(row);
        ci = ci + 1;
    }
    let mut s: Vec<Vec<Rat>> = mat_identity(n);
    proof {
        assert(mview(t@) =~~= m0);
        assert(elim_spec(m0, n as int, 0) == (ElimState::Running {
            t: mview(t@),
            s: mview(s@),
        }));
    }
    let mut col: usize = 0;
    while col < n
        invariant
            n >= 1,
            col <= n,
            m0 == mview(m@),
            t@.len() == n,
            forall|x: int| 0 <= x < n ==> (#[trigger] t@[x])@.len() == n,
            forall|x: int| 0 <= x < n ==> rwf((#[trigger] t@[x])@),
            s@.len() == n,
            forall|x: int| 0 <= x < n ==> (#[trigger] s@[x])@.len() == n,
            forall|x: int| 0 <= x < n ==> rwf((#[trigger] s@[x])@),
            elim_spec(m0, n as int, col as int) == (ElimState::Running {
                t: mview(t@),
                s: mview(s@),
            }),
            elim_fits_to(m0, n as int, col as int),
        decreases n - col,
    {
        let ghost tv0 = mview(t@);
        let ghost sv0 = mview(s@);
        proof {
            assert(mat_ok(t@));
        }
        let piv: Option<usize> = find_pivot(&t, col, col);
        match piv {
            None => {
                // no pivot: rows col.. of this column are all zero, and the
                // columns before it have been reduced to unit columns, so
                // the vector below is (in exact arithmetic) in the null
                // space; the caller checks that claim.
                let mut v: Vec<Rat> = Vec::new();
                let mut j: usize = 0;
                while j < n
                    invariant
                        col < n,
                        t@.len() == n,
                        tv0 == mview(t@),
                        forall|x: int| 0 <= x < n ==> (#[trigger] t@[x])@.len() == n,
                        forall|x: int| 0 <= x < n ==> rwf((#[trigger] t@[x])@),
                        j <= n,
                        v@.len() == j,
                        forall|y: int| 0 <= y < j ==> (#[trigger] v@[y]).wf(),
                        forall|y: int|
                            0 <= y < j ==> (#[trigger] v@[y])@ == (if y < col {
                                frac_neg(tv0[y][col as int])
                            } else if y == col {
                                frac_int(1)
                            } else {
                                frac_int(0)
                            }),
                    decreases n - j,
                {
                    if j < col {
                        proof {
                            assert(rwf(t@[j as int]@));
                            assert(t@[j as int]@[col as int]@ == tv0[j as int][col as int]);
                        }
                        v.push(t[j][col].neg());
                    } else if j == col {
                        v.push(Rat::one());
                    } else {
                        v.push(Rat::zero());
                    }
                    j = j + 1;
                }
                proof {
                    assert(rwf(v@));
                    assert(rview(v@) =~= null_candidate(tv0, col as int, n as int));
                    assert(elim_spec(m0, n as int, col as int + 1) == (ElimState::NullCandidate {
                        v: null_candidate(tv0, col as int, n as int),
                    }));
                    lemma_elim_null_absorbs(m0, n as int, col as int + 1, n as int);
                    assert(elim_fits_to(m0, n as int, col as int + 1));
                    lemma_elim_fits_after_null(m0, n as int, col as int + 1, n as int);
                }
                return InverseOutcome::Singular(v);
            },
            Some(p) => {
                proof {
                    lemma_pivot_from_sound(tv0, col as int, col as int, p as int);
                }
                if p != col {
                    swap_rows(&mut t, p, col);
                    swap_rows(&mut s, p, col);
                }
                let ghost t1 = tv0.update(p as int, tv0[col as int]).update(
                    col as int,
                    tv0[p as int],
                );
                let ghost s1 = sv0.update(p as int, sv0[col as int]).update(
                    col as int,
                    sv0[p as int],
                );
                proof {
                    assert(mview(t@) =~~= t1);
                    assert(mview(s@) =~~= s1);
                }
                let pv: Rat = t[col][col];
                proof {
                    assert(rwf(t@[col as int]@));
                    assert(pv@ == t1[col as int][col as int]);
                    assert(t1[col as int][col as int] == tv0[p as int][col as int]);
                    assert(!frac_eq(pv@, frac_int(0)));
                }
                if pv.is_zero() {
                    proof {
                        assert(false);
                    }
                    return InverseOutcome::OutOfRange;
                }
                proof {
                    assert(pv@.num != 0) by (nonlinear_arith)
                        requires
                            !(pv@.num * 1 == 0 * pv@.den),
                    ;
                }
                let f: Rat = pv.recip();
                let newt: Vec<Rat> = match row_scaled(&t[col], &f) {
                    Some(v) => v,
                    None => {
                        proof {
                            assert(rview(t@[col as int]@) == t1[col as int]);
                            assert(!row_scale_fits(frac_recip(t1[col as int][col as int]), t1[col as int]));
                            assert(!elim_step_fits(tv0, sv0, col as int, n as int));
                            lemma_unfit_step(m0, n as int, col as int, tv0, sv0);
                        }
                        return InverseOutcome::OutOfRange;
                    },
                };
                let news: Vec<Rat> = match row_scaled(&s[col], &f) {
                    Some(v) => v,
                    None => {
                        proof {
                            assert(rview(s@[col as int]@) == s1[col as int]);
                            assert(!row_scale_fits(frac_recip(t1[col as int][col as int]), s1[col as int]));
                            assert(!elim_step_fits(tv0, sv0, col as int, n as int));
                            lemma_unfit_step(m0, n as int, col as int, tv0, sv0);
                        }
                        return InverseOutcome::OutOfRange;
                    },
                };
                t.set(col, newt);
                s.set(col, news);
                let ghost t2 = t1.update(col as int, row_scaled_canon(frac_recip(t1[col as int][col as int]), t1[col as int]));
                let ghost s2 = s1.update(col as int, row_scaled_canon(frac_recip(t1[col as int][col as int]), s1[col as int]));
                proof {
                    assert(mview(t@) =~~= t2);
                    assert(mview(s@) =~~= s2);
                }
                let mut ri: usize = 0;
                while ri < n
                    invariant
                        n >= 1,
                        col < n,
                        p < n,
                        ri <= n,
                        m0 == mview(m@),
                        pivot_from(tv0, col as int, col as int) == Some(p as int),
                        elim_spec(m0, n as int, col as int) == (ElimState::Running {
                            t: tv0,
                            s: sv0,
                        }),
                        elim_fits_to(m0, n as int, col as int),
                        t1 == tv0.update(p as int, tv0[col as int]).update(
                            col as int,
                            tv0[p as int],
                        ),
                        s1 == sv0.update(p as int, sv0[col as int]).update(
                            col as int,
                            sv0[p as int],
                        ),
                        t2 == t1.update(
                            col as int,
                            row_scaled_canon(frac_recip(t1[col as int][col as int]), t1[col as int]),
                        ),
                        s2 == s1.update(
                            col as int,
                            row_scaled_canon(frac_recip(t1[col as int][col as int]), s1[col as int]),
                        ),
                        row_scale_fits(frac_recip(t1[col as int][col as int]), t1[col as int]),
                        row_scale_fits(frac_recip(t1[col as int][col as int]), s1[col as int]),
                        t@.len() == n,
                        forall|x: int| 0 <= x < n ==> (#[trigger] t@[x])@.len() == n,
                        forall|x: int| 0 <= x < n ==> rwf((#[trigger] t@[x])@),
                        s@.len() == n,
                        forall|x: int| 0 <= x < n ==> (#[trigger] s@[x])@.len() == n,
                        forall|x: int| 0 <= x < n ==> rwf((#[trigger] s@[x])@),
                        t2.len() == n,
                        s2.len() == n,
                        forall|x: int| 0 <= x < n ==> (#[trigger] t2[x]).len() == n,
                        forall|x: int|
                            0 <= x < n && (x == col || ri <= x) ==> rview((#[trigger] t@[x])@)
                                == t2[x],
                        forall|x: int|
                            0 <= x < n && (x == col || ri <= x) ==> rview((#[trigger] s@[x])@)
                                == s2[x],
                        forall|x: int|
                            0 <= x < ri && x != col ==> rview((#[trigger] t@[x])@)
                                == row_sub_scaled_canon(t2[x], t2[col as int], t2[x][col as int]),
                        forall|x: int|
                            0 <= x < ri && x != col ==> rview((#[trigger] s@[x])@)
                                == row_sub_scaled_canon(s2[x], s2[col as int], t2[x][col as int]),
                        forall|x: int|
                            0 <= x < ri && x != col ==> row_sub_scale_fits(
                                #[trigger] t2[x],
                                t2[col as int],
                                t2[x][col as int],
                            ) && row_sub_scale_fits(s2[x], s2[col as int], t2[x][col as int]),
                    decreases n - ri,
                {
                    if ri != col {
                        proof {
                            assert(rwf(t@[ri as int]@));
                            assert(t@[ri as int]@[col as int]@ == t2[ri as int][col as int]);
                            assert(rview(t@[ri as int]@) == t2[ri as int]);
                            assert(rview(t@[col as int]@) == t2[col as int]);
                            assert(rview(s@[ri as int]@) == s2[ri as int]);
                            assert(rview(s@[col as int]@) == s2[col as int]);
                        }
                        let factor: Rat = t[ri][col];
                        let newrow: Vec<Rat> = match row_sub_scaled(&t[ri], &t[col], &factor) {
                            Some(v) => v,
                            None => {
                                proof {
                                    assert(!row_sub_scale_fits(
                                        t2[ri as int],
                                        t2[col as int],
                                        t2[ri as int][col as int],
                                    ));
                                    if elim_step_fits(tv0, sv0, col as int, n as int) {
                                        lemma_step_fits_parts(
                                            tv0,
                                            sv0,
                                            col as int,
                                            n as int,
                                            p as int,
                                        );
                                        assert(false);
                                    }
                                    lemma_unfit_step(m0, n as int, col as int, tv0, sv0);
                                }
                                return InverseOutcome::OutOfRange;
                            },
                        };
                        let newsrow: Vec<Rat> = match row_sub_scaled(&s[ri], &s[col], &factor) {
                            Some(v) => v,
                            None => {
                                proof {
                                    assert(!row_sub_scale_fits(
                                        s2[ri as int],
                                        s2[col as int],
                                        t2[ri as int][col as int],
                                    ));
                                    if elim_step_fits(tv0, sv0, col as int, n as int) {
                                        lemma_step_fits_parts(
                                            tv0,
                                            sv0,
                                            col as int,
                                            n as int,
                                            p as int,
                                        );
                                        assert(false);
                                    }
                                    lemma_unfit_step(m0, n as int, col as int, tv0, sv0);
                                }
                                return InverseOutcome::OutOfRange;
                            },
                        };
                        t.set(ri, newrow);
                        s.set(ri, newsrow);
                    }
                    ri = ri + 1;
                }
                proof {
                    lemma_step_fits_intro(tv0, sv0, col as int, n as int, p as int);
                    lemma_elim_step_unfold(tv0, sv0, col as int, n as int, p as int);
                    let st = elim_step(tv0, sv0, col as int, n as int);
                    assert(mview(t@) =~~= st->Running_t);
                    assert(mview(s@) =~~= st->Running_s);
                    assert(st == (ElimState::Running { t: mview(t@), s: mview(s@) }));
                    assert(elim_spec(m0, n as int, col as int + 1) == st);
                    assert(elim_fits_to(m0, n as int, col as int + 1));
                }
            },
        }
        col = col + 1;
    }
    InverseOutcome::Inverse(s)
}

/// Whether a square matrix denotes the identity.
fn is_identity(p: &Vec<Vec<Rat>>) -> (r: bool)
    requires
        mat_ok(p@),
        mrows(p@) == mcols_exec(p@),
    ensures
        r == meq(mview(p@), mid(p@.len() as nat)),
{
    let n: usize = p.len();
    let mut i: usize = 0;
    while i < n
        invariant
            mat_ok(p@),
            mrows(p@) == mcols_exec(p@),
            n == p@.len(),
            i <= n,
            forall|x: int, y: int|
                0 <= x < i && 0 <= y < n ==> frac_eq(
                    #[trigger] mview(p@)[x][y],
                    mid(n as nat)[x][y],
                ),
        decreases n - i,
    {
        let mut j: usize = 0;
        while j < n
            invariant
                mat_ok(p@),
                mrows(p@) == mcols_exec(p@),
                n == p@.len(),
                i < n,
                j <= n,
                forall|x: int, y: int|
                    0 <= x < i && 0 <= y < n ==> frac_eq(
                        #[trigger] mview(p@)[x][y],
                        mid(n as nat)[x][y],
                    ),
                forall|y: int|
                    0 <= y < j ==> frac_eq(
                        #[trigger] mview(p@)[i as int][y],
                        mid(n as nat)[i as int][y],
                    ),
            decreases n - j,
        {
            proof {
                assert(rwf(p@[i as int]@));
            }
            let ok: bool = if i == j {
                let one = Rat::one();
                p[i][j].equals(&one)
            } else {
                let zero = Rat::zero();
                p[i][j].equals(&zero)
            };
            if !ok {
                proof {
                    assert(!frac_eq(mview(p@)[i as int][j as int], mid(n as nat)[i as int][j as int]));
                }
                return false;
            }
            j = j + 1;
        }
        i = i + 1;
    }
    true
}

/// Whether every denoted entry of a row is zero.
fn all_zero(v: &Vec<Rat>) -> (r: bool)
    requires
        rwf(v@),
    ensures
        r == (forall|i: int| 0 <= i < v@.len() ==> frac_eq(#[trigger] rview(v@)[i], frac_int(0))),
{
    let n: usize = v.len();
    let mut i: usize = 0;
    while i < n
        invariant
            rwf(v@),
            n == v@.len(),
            i <= n,
            forall|y: int| 0 <= y < i ==> frac_eq(#[trigger] rview(v@)[y], frac_int(0)),
        decreases n - i,
    {
        proof {
            assert(v@[i as int].wf());
        }
        if !v[i].is_zero() {
            proof {
                assert(!frac_eq(rview(v@)[i as int], frac_int(0)));
            }
            return false;
        }
        i = i + 1;
    }
    true
}

/// The index of some entry whose denoted value is nonzero.
fn find_nonzero(v: &Vec<Rat>) -> (r: Option<usize>)
    requires
        rwf(v@),
    ensures
        r matches Some(k) ==> k < v@.len() && !frac_eq(rview(v@)[k as int], frac_int(0)),
        r is None ==> forall|i: int|
            0 <= i < v@.len() ==> frac_eq(#[trigger] rview(v@)[i], frac_int(0)),
{
    let n: usize = v.len();
    let mut i: usize = 0;
    while i < n
        invariant
            rwf(v@),
            n == v@.len(),
            i <= n,
            forall|y: int| 0 <= y < i ==> frac_eq(#[trigger] rview(v@)[y], frac_int(0)),
        decreases n - i,
    {
        proof {
            assert(v@[i as int].wf());
        }
        if !v[i].is_zero() {
            proof {
                assert(!frac_eq(rview(v@)[i as int], frac_int(0)));
            }
            return Some(i);
        }
        i = i + 1;
    }
    None
}

/// Attempts to invert a square matrix of exact rationals.
///
/// On `Inverse(s)`, `s` is a proved left inverse of `m`.  On
/// `Singular(v)`, `v` is a proved nonzero null-space vector of `m`, and no
/// matrix multiplies `m` to the identity.  `OutOfRange` comes exactly when
/// `inversion_supported` fails, and on every supported input the outcome
/// is the one the elimination mirror prescribes.
/// The exact condition under which `left_inverse` reaches a certified
/// outcome: the elimination stays within the `i64` representation, and the
/// check of the candidate it produces also stays in range and passes.
pub open spec fn inversion_supported(m: Seq<Seq<Frac>>, n: int) -> bool {
    &&& elim_fits(m, n)
    &&& match elim_spec(m, n, n) {
        ElimState::Running { t, s } => mmul_fits(s, m) && meq(mmul(s, m), mid(n as nat)),
        ElimState::NullCandidate { v } => {
            &&& mvmul_fits(m, v)
            &&& forall|i: int| 0 <= i < n ==> frac_eq(#[trigger] mvmul(m, v)[i], frac_int(0))
            &&& exists|k: int| 0 <= k < n && !frac_eq(#[trigger] v[k], frac_int(0))
        },
    }
}

pub fn left_inverse(m: &Vec<Vec<Rat>>) -> (r: InverseOutcome)
    requires
        mat_ok(m@),
        mrows(m@) == mcols_exec(m@),
    ensures
        r matches InverseOutcome::Inverse(s) ==> {
            &&& mat_ok(s@)
            &&& mrows(s@) == mrows(m@)
            &&& mcols_exec(s@) == mrows(m@)
            &&& meq(mmul(mview(s@), mview(m@)), mid(m@.len() as nat))
        },
        r matches InverseOutcome::Singular(v) ==> {
            &&& rwf(v@)
            &&& v@.len() == mrows(m@)
            &&& forall|i: int|
                0 <= i < mrows(m@) ==> frac_eq(
                    #[trigger] mvmul(mview(m@), rview(v@))[i],
                    frac_int(0),
                )
            &&& exists|k: int|
                0 <= k < mrows(m@) && !frac_eq(#[trigger] rview(v@)[k], frac_int(0))
            &&& forall|x: Seq<Seq<Frac>>|
                is_mat(x, mrows(m@), mrows(m@)) ==> !meq(
                    #[trigger] mmul(x, mview(m@)),
                    mid(m@.len() as nat),
                )
        },
        r is OutOfRange <==> !inversion_supported(mview(m@), m@.len() as int),
        inversion_supported(mview(m@), m@.len() as int) ==> match elim_spec(
            mview(m@),
            m@.len() as int,
            m@.len() as int,
        ) {
            ElimState::Running { t, s } => r matches InverseOutcome::Inverse(sv) && mview(sv@)
                == s,
            ElimState::NullCandidate { v } => r matches InverseOutcome::Singular(vv) && rview(
                vv@,
            ) == v,
        },
{
    let n: usize = m.len();
    let cand: InverseOutcome = eliminate(m, n);
    match cand {
        InverseOutcome::Inverse(s) => {
            let prod: Option<Vec<Vec<Rat>>> = mat_mul(&s, m);
            match prod {
                Some(p) => {
                    if is_identity(&p) {
                        proof {
                            lemma_mat_ok_view(m@);
                            lemma_mat_ok_view(s@);
                            lemma_mat_ok_view(p@);
                            lemma_mid_is_mat(n as nat);
                            lemma_mmul_is_mat(
                                mview(s@),
                                mview(m@),
                                n as int,
                                n as int,
                                n as int,
                            );
                            lemma_meq_symm(mview(p@), mmul(mview(s@), mview(m@)));
                            lemma_meq_trans(
                                mmul(mview(s@), mview(m@)),
                                mview(p@),
                                mid(n as nat),
                            );
                            assert(inversion_supported(mview(m@), n as int));
                        }
                        InverseOutcome::Inverse(s)
                    } else {
                        proof {
                            if inversion_supported(mview(m@), n as int) {
                                lemma_mat_ok_view(m@);
                                lemma_mat_ok_view(s@);
                                lemma_mat_ok_view(p@);
                                lemma_mid_is_mat(n as nat);
                                lemma_mmul_is_mat(
                                    mview(s@),
                                    mview(m@),
                                    n as int,
                                    n as int,
                                    n as int,
                                );
                                lemma_meq_trans(
                                    mview(p@),
                                    mmul(mview(s@), mview(m@)),
                                    mid(n as nat),
                                );
                                assert(false);
                            }
                        }
                        InverseOutcome::OutOfRange
                    }
                },
                None => {
                    proof {
                        assert(!mmul_fits(mview(s@), mview(m@)));
                        assert(!inversion_supported(mview(m@), n as int));
                    }
                    InverseOutcome::OutOfRange
                },
            }
        },
        InverseOutcome::Singular(v) => {
            let image: Option<Vec<Rat>> = mat_vec_mul(m, &v);
            match image {
                Some(w) => {
                    let zero_image: bool = all_zero(&w);
                    let witness: Option<usize> = find_nonzero(&v);
                    match witness {
                        Some(k) => {
                            if zero_image {
                                proof {
                                    lemma_mat_ok_view(m@);
                                    lemma_rwf_view(v@);
                                    lemma_rwf_view(w@);
                                    let mv = mview(m@);
                                    let xv = rview(v@);
                                    assert forall|i: int| 0 <= i < n implies frac_eq(
                                        #[trigger] mvmul(mv, xv)[i],
                                        frac_int(0),
                                    ) by {
                                        assert(frac_eq(rview(w@)[i], mvmul(mv, xv)[i]));
                                        assert(frac_eq(rview(w@)[i], frac_int(0)));
                                        assert(mvmul(mv, xv)[i] == vdot(mv[i], xv));
                                        lemma_vdot_wf(mv[i], xv);
                                        assert(frac_wf(rview(w@)[i]));
                                        lemma_frac_eq_symm(rview(w@)[i], mvmul(mv, xv)[i]);
                                        lemma_frac_eq_trans(
                                            mvmul(mv, xv)[i],
                                            rview(w@)[i],
                                            frac_int(0),
                                        );
                                    }
                                    lemma_no_left_inverse(mv, xv, n as int, k as int);
                                    assert(inversion_supported(mview(m@), n as int));
                                }
                                InverseOutcome::Singular(v)
                            } else {
                                proof {
                                    if inversion_supported(mview(m@), n as int) {
                                        lemma_mat_ok_view(m@);
                                        lemma_rwf_view(v@);
                                        lemma_rwf_view(w@);
                                        let mv = mview(m@);
                                        let xv = rview(v@);
                                        assert forall|i: int| 0 <= i < n implies frac_eq(
                                            #[trigger] rview(w@)[i],
                                            frac_int(0),
                                        ) by {
                                            assert(frac_eq(rview(w@)[i], mvmul(mv, xv)[i]));
                                            assert(frac_eq(mvmul(mv, xv)[i], frac_int(0)));
                                            assert(mvmul(mv, xv)[i] == vdot(mv[i], xv));
                                            lemma_vdot_wf(mv[i], xv);
                                            lemma_frac_eq_trans(
                                                rview(w@)[i],
                                                mvmul(mv, xv)[i],
                                                frac_int(0),
                                            );
                                        }
                                        assert(false);
                                    }
                                }
                                InverseOutcome::OutOfRange
                            }
                        },
                        None => {
                            proof {
                                if inversion_supported(mview(m@), n as int) {
                                    let xv = rview(v@);
                                    let k = choose|k: int|
                                        0 <= k < n && !frac_eq(#[trigger] xv[k], frac_int(0));
                                    assert(frac_eq(xv[k], frac_int(0)));
                                    assert(false);
                                }
                            }
                            InverseOutcome::OutOfRange
                        },
                    }
                },
                None => {
                    proof {
                        assert(!mvmul_fits(mview(m@), rview(v@)));
                        assert(!inversion_supported(mview(m@), n as int));
                    }
                    InverseOutcome::OutOfRange
                },
            }
        },
        InverseOutcome::OutOfRange => {
            proof {
                assert(!elim_fits(mview(m@), n as int));
            }
            InverseOutcome::OutOfRange
        },
    }
}

} // verus!
