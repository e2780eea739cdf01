//! One step of the affine-scaling interior-point iteration, in exact
//! rational arithmetic.
//!
//! The engine takes a linear program in standard form (minimize `c^T x`
//! subject to `A x = b`, `x > 0`) together with a current interior iterate
//! `x`, and computes the classical affine-scaling update: the scaling
//! matrix `D = diag(max(x_i, eps))`, the scaled system `A~ = A D` and
//! `c~ = D c`, the regularized null-space projector `P`, the projected
//! cost `cp = P c~`, and the damped step to the next iterate.  Every
//! returned quantity is characterized exactly by the contracts below.

use crate::inverse::{elim_spec, inversion_supported, left_inverse, ElimState, InverseOutcome};
use crate::matrix::{
    is_mat, lemma_mat_ok_view, lemma_meq_symm, lemma_meq_trans, lemma_mid_is_mat,
    lemma_mlin_congruence, lemma_mlin_is_mat, lemma_mmul_congruence, lemma_mmul_is_mat,
    lemma_mscale_scalar_congruence, lemma_vsum_single, lemma_vsum_wf, madd, madd_canon,
    madd_fits, mat_add, mat_identity, mat_mul, mat_ok, mat_scale, mat_sub, mat_transpose,
    mat_vec_mul, mcol, mcols, mcols_exec, meq, mid, mmul, mmul_canon, mmul_fits, mrows, mscale,
    mscale_canon, mscale_fits, msub, msub_canon, msub_fits, mtrans, mview, mvmul, mvmul_canon,
    mvmul_fits, rview, rwf, veq, vsum, vwf,
};
use crate::projection::{
    lemma_projector_annihilates, lemma_projector_idempotent_defect, null_space_projector,
    projector_setting, reg_normal_matrix,
};
use crate::rational::{
    canon_fits, frac_add, frac_canon, frac_eq, frac_int, frac_inv_pos, frac_le, frac_lt,
    frac_max, frac_min, frac_mul, frac_neg, frac_wf, lemma_frac_add_wf, lemma_frac_eq_trans,
    lemma_frac_le_congruence, lemma_frac_le_lt_trans, lemma_frac_mul_units, Frac, Rat,
};
use vstd::prelude::*;

verus! {

// ------------------------------------------------------------------
// Data model.
// ------------------------------------------------------------------

/// A linear program in standard form together with the current iterate.
pub struct InteriorPointProblem {
    /// Constraint coefficients, `m` rows by `n` columns.
    pub a_matrix: Vec<Vec<Rat>>,
    /// Right-hand side, length `m`.
    pub b_vector: Vec<Rat>,
    /// Cost coefficients (minimization orientation), length `n`.
    pub c_vector: Vec<Rat>,
    /// Current iterate, length `n`; kept strictly positive by callers.
    pub x_vector: Vec<Rat>,
    /// Step-size damping parameter, expected in `(0, 1)`.
    pub alpha: Rat,
}

/// Every intermediate quantity of one accepted iteration.
#[derive(Clone, Debug)]
pub struct InteriorPointIteration {
    /// The scaling matrix `D`.
    pub d_matrix: Vec<Vec<Rat>>,
    /// The scaled constraints `A~ = A D`.
    pub a_tilde_matrix: Vec<Vec<Rat>>,
    /// The scaled cost `c~ = D c`.
    pub c_tilde_vector: Vec<Rat>,
    /// The regularized null-space projector `P`.
    pub p_matrix: Vec<Vec<Rat>>,
    /// The projected cost `cp = P c~`.
    pub cp_vector: Vec<Rat>,
    /// The next iterate.
    pub current_x: Vec<Rat>,
}

/// How an iteration can end without producing a new iterate.
#[derive(Debug)]
pub enum InteriorPointError {
    /// No projected-cost component is negative enough: the iteration has
    /// no improving direction.  This is the expected terminal signal.
    NoImprovement,
    /// Reserved for callers that check feasibility of the starting point;
    /// the engine itself never raises it.
    NotFeasible,
    /// The regularized normal matrix has no (left) inverse.
    SingularMatrix(String),
    /// The exact rational arithmetic left the machine range.
    ArithmeticOverflow,
}

impl InteriorPointProblem {
    /// Consistent shapes and well-formed entries.
    pub open spec fn wf(&self) -> bool {
        &&& mat_ok(self.a_matrix@)
        &&& rwf(self.b_vector@)
        &&& self.b_vector@.len() == self.a_matrix@.len()
        &&& rwf(self.c_vector@)
        &&& self.c_vector@.len() == self.a_matrix@[0]@.len()
        &&& rwf(self.x_vector@)
        &&& self.x_vector@.len() == self.a_matrix@[0]@.len()
        &&& self.alpha.wf()
    }
}

// ------------------------------------------------------------------
// The mathematical model of one step.
// ------------------------------------------------------------------

/// The numerical floor `1 / 100000000`: scaling clamp, regularization
/// weight, and improvement threshold alike.
pub open spec fn eps_frac() -> Frac {
    Frac { num: 1, den: 100000000 }
}

/// The lower clamp `1 / 1000` of the step factor.
pub open spec fn step_floor() -> Frac {
    Frac { num: 1, den: 1000 }
}

/// The upper clamp `1 / 2` of the step factor.
pub open spec fn step_cap() -> Frac {
    Frac { num: 1, den: 2 }
}

/// The clamped diagonal of the scaling matrix: `max(x_i, eps)`.
pub open spec fn scaling_diag(x: Seq<Frac>) -> Seq<Frac> {
    Seq::new(x.len(), |i: int| frac_max(x[i], eps_frac()))
}

/// The diagonal matrix with diagonal `d`.
pub open spec fn diag_matrix(d: Seq<Frac>) -> Seq<Seq<Frac>> {
    Seq::new(
        d.len(),
        |i: int|
            Seq::new(
                d.len(),
                |j: int|
                    if i == j {
                        d[i]
                    } else {
                        frac_int(0)
                    },
            ),
    )
}

/// The diagonal of a square matrix.
pub open spec fn mdiag(m: Seq<Seq<Frac>>) -> Seq<Frac> {
    Seq::new(m.len(), |i: int| m[i][i])
}

/// The magnitude of the most negative component: the fold that the
/// direction-selection loop computes.
pub open spec fn vmax_neg(cp: Seq<Frac>) -> Frac
    decreases cp.len(),
{
    if cp.len() == 0 {
        frac_int(0)
    } else {
        let acc = vmax_neg(cp.drop_last());
        let last = cp.last();
        if frac_lt(last, frac_int(0)) && frac_lt(acc, frac_neg(last)) {
            frac_neg(last)
        } else {
            acc
        }
    }
}

/// The damped step factor `clamp(alpha / v, 1/1000, 1/2)`.
pub open spec fn step_factor(alpha: Frac, v: Frac) -> Frac {
    frac_max(frac_min(frac_mul(alpha, frac_inv_pos(v)), step_cap()), step_floor())
}

/// The next iterate: `x_new_i = d_i * (1 + factor * cp_i)`.
pub open spec fn next_iterate(dd: Seq<Frac>, cp: Seq<Frac>, alpha: Frac) -> Seq<Frac> {
    Seq::new(
        cp.len(),
        |i: int|
            frac_mul(
                dd[i],
                frac_add(frac_int(1), frac_mul(step_factor(alpha, vmax_neg(cp)), cp[i])),
            ),
    )
}

/// The canonical step factor, exactly as the engine stores it: the damped
/// ratio in lowest terms, clamped.
pub open spec fn step_factor_canon(alpha: Frac, vm: Frac) -> Frac {
    frac_max(frac_min(frac_canon(frac_mul(alpha, frac_inv_pos(vm))), step_cap()), step_floor())
}

/// Every arithmetic intermediate of the update step stays within the
/// `i64` representation: the ratio `alpha / v`, and for every component
/// the scaled direction, the shifted scaled direction, and the rescaled
/// new coordinate.
pub open spec fn update_fits(dd: Seq<Frac>, cpv: Seq<Frac>, alpha: Frac) -> bool {
    &&& canon_fits(frac_mul(alpha, frac_inv_pos(vmax_neg(cpv))))
    &&& forall|i: int|
        0 <= i < cpv.len() ==> canon_fits(
            #[trigger] frac_mul(step_factor_canon(alpha, vmax_neg(cpv)), cpv[i]),
        ) && canon_fits(
            frac_add(
                frac_int(1),
                frac_canon(frac_mul(step_factor_canon(alpha, vmax_neg(cpv)), cpv[i])),
            ),
        ) && canon_fits(
            frac_mul(
                dd[i],
                frac_canon(
                    frac_add(
                        frac_int(1),
                        frac_canon(frac_mul(step_factor_canon(alpha, vmax_neg(cpv)), cpv[i])),
                    ),
                ),
            ),
        )
}

/// The exact condition under which one whole iteration reaches a
/// certified outcome: every stage's arithmetic stays within the `i64`
/// representation (the update stage only where an improving direction
/// makes it run), and the inversion's result check passes.
pub open spec fn iteration_supported(prob: InteriorPointProblem) -> bool {
    let av = mview(prob.a_matrix@);
    let xv = rview(prob.x_vector@);
    let cv = rview(prob.c_vector@);
    let dv = diag_matrix(scaling_diag(xv));
    let m = av.len() as int;
    &&& mmul_fits(av, dv)
    &&& mvmul_fits(dv, cv)
    &&& projector_supported(mmul_canon(av, dv))
    &&& match elim_spec(reg_normal_canon(mmul_canon(av, dv)), m, m) {
        ElimState::Running { t, s } => {
            let pv = projector_canon(mmul_canon(av, dv), s);
            let ctv = mvmul_canon(dv, cv);
            &&& mvmul_fits(pv, ctv)
            &&& (frac_le(eps_frac(), vmax_neg(mvmul_canon(pv, ctv))) ==> update_fits(
                scaling_diag(xv),
                mvmul_canon(pv, ctv),
                prob.alpha@,
            ))
        },
        ElimState::NullCandidate { v } => true,
    }
}

/// On a supported problem the outcome is fully determined: a normal
/// matrix without pivot fails as singular, a projected cost below the
/// noise floor converges, and an improving direction steps.
pub open spec fn outcome_determined(
    prob: InteriorPointProblem,
    r: Result<InteriorPointIteration, InteriorPointError>,
) -> bool {
    let av = mview(prob.a_matrix@);
    let xv = rview(prob.x_vector@);
    let cv = rview(prob.c_vector@);
    let dv = diag_matrix(scaling_diag(xv));
    let m = av.len() as int;
    match elim_spec(reg_normal_canon(mmul_canon(av, dv)), m, m) {
        ElimState::Running { t, s } => {
            let cpv = mvmul_canon(projector_canon(mmul_canon(av, dv), s), mvmul_canon(dv, cv));
            if frac_le(eps_frac(), vmax_neg(cpv)) {
                r is Ok
            } else {
                r matches Err(e) && e is NoImprovement
            }
        },
        ElimState::NullCandidate { v } => r matches Err(e) && e is SingularMatrix,
    }
}

/// A left inverse `s` of the regularized normal matrix of `bv`, and `pv`
/// the projector built from it.
pub open spec fn projector_ok(bv: Seq<Seq<Frac>>, s: Seq<Seq<Frac>>, pv: Seq<Seq<Frac>>) -> bool {
    let m = bv.len() as int;
    let n = mcols(bv) as int;
    &&& is_mat(s, m, m)
    &&& projector_setting(bv, mtrans(bv), s, eps_frac(), m, n)
    &&& meq(pv, null_space_projector(mtrans(bv), s, bv, n as nat))
}

/// The canonical regularized normal matrix, exactly as the engine
/// assembles it: `A~ A~^T + eps I` with every entry in lowest terms.
pub open spec fn reg_normal_canon(bv: Seq<Seq<Frac>>) -> Seq<Seq<Frac>> {
    madd_canon(mmul_canon(bv, mtrans(bv)), mscale_canon(eps_frac(), mid(bv.len() as nat)))
}

/// The canonical projector built from a left inverse `s`, exactly as the
/// engine assembles it: `I - A~^T (s A~)` with every entry in lowest terms.
pub open spec fn projector_canon(bv: Seq<Seq<Frac>>, s: Seq<Seq<Frac>>) -> Seq<Seq<Frac>> {
    msub_canon(mid(mcols(bv)), mmul_canon(mtrans(bv), mmul_canon(s, bv)))
}

/// The exact condition under which the projector computation reaches a
/// certified outcome: every stage of its arithmetic stays within the
/// `i64` representation and the inversion's result check passes.
pub open spec fn projector_supported(bv: Seq<Seq<Frac>>) -> bool {
    let m = bv.len() as int;
    &&& mmul_fits(bv, mtrans(bv))
    &&& mscale_fits(eps_frac(), mid(m as nat))
    &&& madd_fits(mmul_canon(bv, mtrans(bv)), mscale_canon(eps_frac(), mid(m as nat)))
    &&& inversion_supported(reg_normal_canon(bv), m)
    &&& match elim_spec(reg_normal_canon(bv), m, m) {
        ElimState::Running { t, s } => {
            &&& mmul_fits(s, bv)
            &&& mmul_fits(mtrans(bv), mmul_canon(s, bv))
            &&& msub_fits(mid(mcols(bv)), mmul_canon(mtrans(bv), mmul_canon(s, bv)))
        },
        ElimState::NullCandidate { v } => true,
    }
}

/// The projector laws, applied to a projector exactly as the engine
/// returns it: it annihilates the scaled constraints up to the
/// regularization weight, and its idempotence defect is exactly the
/// scaled residual.
pub proof fn lemma_projector_laws_apply(
    bv: Seq<Seq<Frac>>,
    s: Seq<Seq<Frac>>,
    pv: Seq<Seq<Frac>>,
)
    requires
        projector_ok(bv, s, pv),
        is_mat(pv, mcols(bv) as int, mcols(bv) as int),
    ensures
        meq(mmul(pv, mtrans(bv)), mscale(eps_frac(), mmul(mtrans(bv), s))),
        meq(
            mmul(pv, pv),
            msub(pv, mscale(eps_frac(), mmul(mtrans(bv), mmul(s, mmul(s, bv))))),
        ),
{
    let m = bv.len() as int;
    let n = mcols(bv) as int;
    let t = mtrans(bv);
    let p0 = null_space_projector(t, s, bv, n as nat);
    lemma_projector_annihilates(bv, t, s, eps_frac(), m, n);
    lemma_projector_idempotent_defect(bv, t, s, eps_frac(), m, n);
    // shapes
    crate::matrix::lemma_mtrans_is_mat(bv, m, n);
    lemma_mid_is_mat(n as nat);
    lemma_mmul_is_mat(s, bv, m, m, n);
    lemma_mmul_is_mat(t, mmul(s, bv), n, m, n);
    lemma_mlin_is_mat(mid(n as nat), mmul(t, mmul(s, bv)), eps_frac(), n, n);
    lemma_mmul_is_mat(t, s, n, m, m);
    lemma_mlin_is_mat(mmul(t, s), mmul(t, s), eps_frac(), n, m);
    lemma_mmul_is_mat(s, mmul(s, bv), m, m, n);
    lemma_mmul_is_mat(t, mmul(s, mmul(s, bv)), n, m, n);
    lemma_mlin_is_mat(
        mmul(t, mmul(s, mmul(s, bv))),
        mmul(t, mmul(s, mmul(s, bv))),
        eps_frac(),
        n,
        n,
    );
    // transfer the annihilation law from the specified projector to pv
    lemma_mmul_congruence(pv, p0, t, t, n, n, m);
    lemma_mmul_is_mat(pv, t, n, n, m);
    lemma_mmul_is_mat(p0, t, n, n, m);
    lemma_meq_trans(mmul(pv, t), mmul(p0, t), mscale(eps_frac(), mmul(t, s)));
    // transfer the idempotence law
    lemma_mmul_congruence(pv, p0, pv, p0, n, n, n);
    lemma_mmul_is_mat(pv, pv, n, n, n);
    lemma_mmul_is_mat(p0, p0, n, n, n);
    let ez = mscale(eps_frac(), mmul(t, mmul(s, mmul(s, bv))));
    lemma_meq_symm(pv, p0);
    lemma_mlin_congruence(p0, pv, ez, ez, eps_frac(), n, n);
    lemma_mlin_is_mat(p0, ez, eps_frac(), n, n);
    lemma_mlin_is_mat(pv, ez, eps_frac(), n, n);
    lemma_meq_trans(mmul(pv, pv), mmul(p0, p0), msub(p0, ez));
    lemma_meq_trans(mmul(pv, pv), msub(p0, ez), msub(pv, ez));
}

// ------------------------------------------------------------------
// Scaling matrix.
// ------------------------------------------------------------------

/// The scaling matrix `D` with `D[i][i] = max(x_i, eps)` and zeros
/// elsewhere.  Always succeeds.
pub fn create_d_matrix(x: &Vec<Rat>) -> (d: Vec<Vec<Rat>>)
    requires
        rwf(x@),
        x@.len() >= 1,
    ensures
        mat_ok(d@),
        mrows(d@) == x@.len(),
        mcols_exec(d@) == x@.len(),
        mview(d@) == diag_matrix(scaling_diag(rview(x@))),
{
    let n: usize = x.len();
    let eps: Rat = eps_rat();
    let mut out: Vec<Vec<Rat>> = Vec::new();
    let mut i: usize = 0;
    while i < n
        invariant
            rwf(x@),
            n == x@.len(),
            n >= 1,
            eps.wf(),
            eps@ == eps_frac(),
            i <= n,
            out@.len() == i,
            forall|a: int| 0 <= a < i ==> (#[trigger] out@[a])@.len() == n,
            forall|a: int| 0 <= a < i ==> rwf((#[trigger] out@[a])@),
            forall|a: int, b: int|
                0 <= a < i && 0 <= b < n && a != b ==> (#[trigger] out@[a]@[b])@ == frac_int(0),
            forall|a: int|
                0 <= a < i ==> (#[trigger] out@[a]@[a])@ == frac_max(x@[a]@, eps_frac()),
        decreases n - i,
    {
        let mut row: Vec<Rat> = Vec::new();
        let mut j: usize = 0;
        while j < n
            invariant
                rwf(x@),
                n == x@.len(),
                eps.wf(),
                eps@ == eps_frac(),
                i < n,
                j <= n,
                row@.len() == j,
                forall|b: int| 0 <= b < j ==> (#[trigger] row@[b]).wf(),
                forall|b: int|
                    0 <= b < j && b != i ==> (#[trigger] row@[b])@ == frac_int(0),
                forall|b: int|
                    0 <= b < j && b == i ==> (#[trigger] row@[b])@ == frac_max(x@[b]@, eps_frac()),
            decreases n - j,
        {
            if i == j {
                proof {
                    assert(x@[i as int].wf());
                }
                let xi: Rat = x[i];
                let e: Rat = xi.max_of(&eps);
                row.push(e);
            } else {
                row.push(Rat::zero());
            }
            j = j + 1;
        }
        out.push(row);
        i = i + 1;
    }
    proof {
        assert(mview(out@) =~~= diag_matrix(scaling_diag(rview(x@))));
    }
    out
}

/// Where the clamp acts, exactly: components at or above the floor are
/// kept unchanged, and nonpositive components become exactly the floor.
pub proof fn lemma_scaling_diag_exact(x: Seq<Frac>, i: int)
    requires
        vwf(x),
        0 <= i < x.len(),
    ensures
        frac_le(eps_frac(), x[i]) ==> scaling_diag(x)[i] == x[i],
        frac_le(x[i], frac_int(0)) ==> scaling_diag(x)[i] == eps_frac(),
{
    if frac_le(x[i], frac_int(0)) {
        assert(frac_lt(frac_int(0), eps_frac()));
        lemma_frac_le_lt_trans(x[i], frac_int(0), eps_frac());
    }
}

/// Multiplying by a diagonal matrix scales each column by the matching
/// diagonal entry: `(A diag(dd))[i][j] = A[i][j] * dd[j]`.
pub proof fn lemma_scaled_columns(a: Seq<Seq<Frac>>, dd: Seq<Frac>, p: int, q: int)
    requires
        is_mat(a, p, q),
        vwf(dd),
        dd.len() == q,
        p >= 1,
        q >= 1,
    ensures
        forall|i: int, j: int|
            0 <= i < p && 0 <= j < q ==> frac_eq(
                #[trigger] mmul(a, diag_matrix(dd))[i][j],
                frac_mul(a[i][j], dd[j]),
            ),
{
    let dm = diag_matrix(dd);
    assert(mcols(dm) == q);
    assert forall|i: int, j: int|
        0 <= i < p && 0 <= j < q implies frac_eq(
        #[trigger] mmul(a, dm)[i][j],
        frac_mul(a[i][j], dd[j]),
    ) by {
        let t = Seq::new(a[i].len(), |k: int| frac_mul(a[i][k], mcol(dm, j)[k]));
        assert(mmul(a, dm)[i][j] == vsum(t));
        assert forall|k: int| 0 <= k < q implies frac_wf(#[trigger] t[k]) by {
            assert(frac_wf(dm[k][j]));
            lemma_frac_add_wf(a[i][k], dm[k][j]);
        }
        assert forall|k: int| 0 <= k < q && k != j implies frac_eq(#[trigger] t[k], frac_int(0)) by {
            lemma_frac_mul_units(a[i][k]);
        }
        lemma_vsum_single(t, j);
        lemma_vsum_wf(t);
        lemma_frac_eq_trans(vsum(t), t[j], frac_mul(a[i][j], dd[j]));
    }
}

/// The numerical floor as an executable rational.
pub fn eps_rat() -> (r: Rat)
    ensures
        r.wf(),
        r@ == eps_frac(),
{
    match Rat::new(1, 100000000) {
        Some(v) => {
            proof {
                assert(frac_eq(v@, Frac { num: 1, den: 100000000 }));
                assert(v@.num * 100000000 == 1 * v@.den);
                assert(crate::rational::iabs(v@.num) <= crate::rational::iabs(1));
                assert(v@.num >= 1);
                assert(v@.num == 1 && v@.den == 100000000);
            }
            v
        },
        None => Rat::zero(),
    }
}

// ------------------------------------------------------------------
// Scaled system.
// ------------------------------------------------------------------

/// The scaled constraint matrix `A~ = A D`.
pub fn calculate_a_tilde(a: &Vec<Vec<Rat>>, d: &Vec<Vec<Rat>>) -> (r: Result<
    Vec<Vec<Rat>>,
    InteriorPointError,
>)
    requires
        mat_ok(a@),
        mat_ok(d@),
        mcols_exec(a@) == mrows(d@),
    ensures
        r matches Ok(m) ==> {
            &&& mat_ok(m@)
            &&& mrows(m@) == mrows(a@)
            &&& mcols_exec(m@) == mcols_exec(d@)
            &&& meq(mview(m@), mmul(mview(a@), mview(d@)))
        },
        r matches Err(e) ==> e is ArithmeticOverflow,
        r is Ok <==> mmul_fits(mview(a@), mview(d@)),
        r matches Ok(m) ==> mview(m@) == mmul_canon(mview(a@), mview(d@)),
{
    match mat_mul(a, d) {
        Some(m) => Ok(m),
        None => Err(InteriorPointError::ArithmeticOverflow),
    }
}

/// The scaled cost vector `c~ = D c`.
pub fn calculate_c_tilde(c: &Vec<Rat>, d: &Vec<Vec<Rat>>) -> (r: Result<
    Vec<Rat>,
    InteriorPointError,
>)
    requires
        rwf(c@),
        mat_ok(d@),
        mcols_exec(d@) == c@.len(),
    ensures
        r matches Ok(v) ==> rwf(v@) && veq(rview(v@), mvmul(mview(d@), rview(c@))),
        r matches Err(e) ==> e is ArithmeticOverflow,
        r is Ok <==> mvmul_fits(mview(d@), rview(c@)),
        r matches Ok(v) ==> rview(v@) == mvmul_canon(mview(d@), rview(c@)),
{
    match mat_vec_mul(d, c) {
        Some(v) => Ok(v),
        None => Err(InteriorPointError::ArithmeticOverflow),
    }
}

// ------------------------------------------------------------------
// Null-space projector.
// ------------------------------------------------------------------

/// Having no left inverse carries over to an entrywise equal matrix.
proof fn lemma_no_left_inverse_transfer(m1: Seq<Seq<Frac>>, m2: Seq<Seq<Frac>>, n: int)
    requires
        is_mat(m1, n, n),
        is_mat(m2, n, n),
        n >= 1,
        meq(m1, m2),
        forall|x: Seq<Seq<Frac>>| is_mat(x, n, n) ==> !meq(#[trigger] mmul(x, m1), mid(n as nat)),
    ensures
        forall|x: Seq<Seq<Frac>>| is_mat(x, n, n) ==> !meq(#[trigger] mmul(x, m2), mid(n as nat)),
{
    assert forall|x: Seq<Seq<Frac>>| is_mat(x, n, n) implies !meq(
        #[trigger] mmul(x, m2),
        mid(n as nat),
    ) by {
        if meq(mmul(x, m2), mid(n as nat)) {
            lemma_mmul_congruence(x, x, m1, m2, n, n, n);
            lemma_mmul_is_mat(x, m1, n, n, n);
            lemma_mmul_is_mat(x, m2, n, n, n);
            lemma_mid_is_mat(n as nat);
            lemma_meq_trans(mmul(x, m1), mmul(x, m2), mid(n as nat));
            assert(false);
        }
    }
}

/// The regularized null-space projector `P = I - A~^T M^(-1) A~`, with
/// `M = A~ A~^T + eps I`.  On success some left inverse `S` of `M`
/// witnesses `projector_ok`; `SingularMatrix` comes only with a proof that
/// `M` has no left inverse at all; `ArithmeticOverflow` comes exactly when
/// `projector_supported` fails, and on a supported input the outcome is
/// fully determined by the elimination mirror.
pub fn calculate_p_matrix(a_tilde: &Vec<Vec<Rat>>) -> (r: Result<
    Vec<Vec<Rat>>,
    InteriorPointError,
>)
    requires
        mat_ok(a_tilde@),
    ensures
        r matches Ok(p) ==> {
            &&& mat_ok(p@)
            &&& mrows(p@) == mcols_exec(a_tilde@)
            &&& mcols_exec(p@) == mcols_exec(a_tilde@)
            &&& exists|s: Seq<Seq<Frac>>| projector_ok(mview(a_tilde@), s, mview(p@))
        },
        r matches Err(e) ==> (e is SingularMatrix || e is ArithmeticOverflow),
        r matches Err(e) ==> (e matches InteriorPointError::SingularMatrix(msg) ==> msg@
            == "Cannot invert (A_tilde * A_tilde^T)"@),
        r matches Err(e) && e is SingularMatrix ==> forall|x: Seq<Seq<Frac>>|
            is_mat(x, mrows(a_tilde@), mrows(a_tilde@)) ==> !meq(
                #[trigger] mmul(
                    x,
                    reg_normal_matrix(
                        mview(a_tilde@),
                        mtrans(mview(a_tilde@)),
                        eps_frac(),
                        a_tilde@.len() as nat,
                    ),
                ),
                mid(a_tilde@.len() as nat),
            ),
        (r matches Err(e) && e is ArithmeticOverflow) <==> !projector_supported(mview(a_tilde@)),
        projector_supported(mview(a_tilde@)) ==> match elim_spec(
            reg_normal_canon(mview(a_tilde@)),
            a_tilde@.len() as int,
            a_tilde@.len() as int,
        ) {
            ElimState::Running { t, s } => r matches Ok(p) && mview(p@) == projector_canon(
                mview(a_tilde@),
                s,
            ),
            ElimState::NullCandidate { v } => r matches Err(e) && e is SingularMatrix,
        },
{
    let m_n: usize = a_tilde.len();
    let n_n: usize = a_tilde[0].len();
    let ghost bv = mview(a_tilde@);
    let ghost regm = reg_normal_matrix(bv, mtrans(bv), eps_frac(), m_n as nat);
    let t: Vec<Vec<Rat>> = mat_transpose(a_tilde);
    let bt: Vec<Vec<Rat>> = match mat_mul(a_tilde, &t) {
        Some(v) => v,
        None => {
            proof {
                assert(!mmul_fits(bv, mtrans(bv)));
            }
            return Err(InteriorPointError::ArithmeticOverflow);
        },
    };
    let eye_m: Vec<Vec<Rat>> = mat_identity(m_n);
    let eps: Rat = eps_rat();
    let ei: Vec<Vec<Rat>> = match mat_scale(&eps, &eye_m) {
        Some(v) => v,
        None => {
            proof {
                assert(!mscale_fits(eps_frac(), mid(m_n as nat)));
            }
            return Err(InteriorPointError::ArithmeticOverflow);
        },
    };
    let mm: Vec<Vec<Rat>> = match mat_add(&bt, &ei) {
        Some(v) => v,
        None => {
            proof {
                assert(!madd_fits(mmul_canon(bv, mtrans(bv)), mscale_canon(eps_frac(), mid(m_n as nat))));
            }
            return Err(InteriorPointError::ArithmeticOverflow);
        },
    };
    proof {
        assert(mview(mm@) == reg_normal_canon(bv));
    }
    proof {
        let mi = m_n as int;
        let ni = n_n as int;
        lemma_mat_ok_view(a_tilde@);
        crate::matrix::lemma_mtrans_is_mat(bv, mi, ni);
        lemma_mmul_is_mat(bv, mtrans(bv), mi, ni, mi);
        lemma_mid_is_mat(m_n as nat);
        lemma_mlin_is_mat(mid(m_n as nat), mid(m_n as nat), eps_frac(), mi, mi);
        lemma_mlin_is_mat(mmul(bv, mtrans(bv)), mscale(eps_frac(), mid(m_n as nat)), eps_frac(), mi, mi);
        lemma_mat_ok_view(bt@);
        lemma_mat_ok_view(ei@);
        lemma_mat_ok_view(mm@);
        // the scaled identity denotes eps * I
        lemma_mat_ok_view(eye_m@);
        lemma_mscale_scalar_congruence(eps@, eps_frac(), mid(m_n as nat), mi, mi);
        lemma_mlin_is_mat(mid(m_n as nat), mid(m_n as nat), eps@, mi, mi);
        lemma_meq_trans(
            mview(ei@),
            mscale(eps@, mid(m_n as nat)),
            mscale(eps_frac(), mid(m_n as nat)),
        );
        // the assembled matrix denotes the regularized normal matrix
        lemma_mlin_congruence(
            mview(bt@),
            mmul(bv, mtrans(bv)),
            mview(ei@),
            mscale(eps_frac(), mid(m_n as nat)),
            eps_frac(),
            mi,
            mi,
        );
        lemma_mlin_is_mat(mview(bt@), mview(ei@), eps_frac(), mi, mi);
        lemma_meq_trans(mview(mm@), madd(mview(bt@), mview(ei@)), regm);
    }
    match left_inverse(&mm) {
        InverseOutcome::Inverse(s) => {
            proof {
                assert(elim_spec(reg_normal_canon(bv), m_n as int, m_n as int) is Running);
            }
            let sb: Vec<Vec<Rat>> = match mat_mul(&s, a_tilde) {
                Some(v) => v,
                None => {
                    proof {
                        assert(!mmul_fits(mview(s@), bv));
                    }
                    return Err(InteriorPointError::ArithmeticOverflow);
                },
            };
            let tsb: Vec<Vec<Rat>> = match mat_mul(&t, &sb) {
                Some(v) => v,
                None => {
                    proof {
                        assert(!mmul_fits(mtrans(bv), mview(sb@)));
                    }
                    return Err(InteriorPointError::ArithmeticOverflow);
                },
            };
            let eye_n: Vec<Vec<Rat>> = mat_identity(n_n);
            let p: Vec<Vec<Rat>> = match mat_sub(&eye_n, &tsb) {
                Some(v) => v,
                None => {
                    proof {
                        assert(mcols(bv) == n_n);
                        assert(!msub_fits(mid(mcols(bv)), mview(tsb@)));
                    }
                    return Err(InteriorPointError::ArithmeticOverflow);
                },
            };
            proof {
                assert(mcols(bv) == n_n);
                assert(mview(p@) == projector_canon(bv, mview(s@)));
                assert(projector_supported(bv));
            }
            proof {
                let mi = m_n as int;
                let ni = n_n as int;
                let sv = mview(s@);
                let pv = mview(p@);
                lemma_mat_ok_view(s@);
                lemma_mat_ok_view(sb@);
                lemma_mat_ok_view(tsb@);
                lemma_mat_ok_view(p@);
                lemma_mid_is_mat(n_n as nat);
                // sv is a left inverse of the regularized normal matrix
                lemma_mmul_congruence(sv, sv, mview(mm@), regm, mi, mi, mi);
                lemma_mmul_is_mat(sv, mview(mm@), mi, mi, mi);
                lemma_mmul_is_mat(sv, regm, mi, mi, mi);
                lemma_mid_is_mat(m_n as nat);
                lemma_meq_symm(mmul(sv, mview(mm@)), mmul(sv, regm));
                lemma_meq_trans(mmul(sv, regm), mmul(sv, mview(mm@)), mid(m_n as nat));
                // pv is the projector built from sv
                lemma_mmul_is_mat(sv, bv, mi, mi, ni);
                lemma_mmul_congruence(mview(t@), mview(t@), mview(sb@), mmul(sv, bv), ni, mi, ni);
                lemma_mmul_is_mat(mview(t@), mview(sb@), ni, mi, ni);
                lemma_mmul_is_mat(mview(t@), mmul(sv, bv), ni, mi, ni);
                lemma_meq_trans(mview(tsb@), mmul(mview(t@), mview(sb@)), mmul(mtrans(bv), mmul(sv, bv)));
                lemma_mlin_congruence(
                    mid(n_n as nat),
                    mid(n_n as nat),
                    mview(tsb@),
                    mmul(mtrans(bv), mmul(sv, bv)),
                    eps_frac(),
                    ni,
                    ni,
                );
                lemma_mlin_is_mat(mid(n_n as nat), mview(tsb@), eps_frac(), ni, ni);
                lemma_mlin_is_mat(mid(n_n as nat), mmul(mtrans(bv), mmul(sv, bv)), eps_frac(), ni, ni);
                lemma_meq_trans(
                    pv,
                    msub(mid(n_n as nat), mview(tsb@)),
                    null_space_projector(mtrans(bv), sv, bv, n_n as nat),
                );
                assert(projector_ok(bv, sv, pv));
            }
            Ok(p)
        },
        InverseOutcome::Singular(_witness) => {
            proof {
                lemma_no_left_inverse_transfer(mview(mm@), regm, m_n as int);
                assert(inversion_supported(reg_normal_canon(bv), m_n as int));
                assert(elim_spec(reg_normal_canon(bv), m_n as int, m_n as int) is NullCandidate);
                assert(projector_supported(bv));
            }
            let msg: String = "Cannot invert (A_tilde * A_tilde^T)".to_owned();
            proof {
                assert(msg@ == "Cannot invert (A_tilde * A_tilde^T)"@);
            }
            Err(InteriorPointError::SingularMatrix(msg))
        },
        InverseOutcome::OutOfRange => {
            proof {
                assert(!inversion_supported(reg_normal_canon(bv), m_n as int));
            }
            Err(InteriorPointError::ArithmeticOverflow)
        },
    }
}

// ------------------------------------------------------------------
// Projected cost and direction selection.
// ------------------------------------------------------------------

/// The projected cost `cp = P c~`.
pub fn calculate_cp_vector(p: &Vec<Vec<Rat>>, c_tilde: &Vec<Rat>) -> (r: Result<
    Vec<Rat>,
    InteriorPointError,
>)
    requires
        mat_ok(p@),
        rwf(c_tilde@),
        mcols_exec(p@) == c_tilde@.len(),
    ensures
        r matches Ok(v) ==> rwf(v@) && veq(rview(v@), mvmul(mview(p@), rview(c_tilde@))),
        r matches Err(e) ==> e is ArithmeticOverflow,
        r is Ok <==> mvmul_fits(mview(p@), rview(c_tilde@)),
        r matches Ok(v) ==> rview(v@) == mvmul_canon(mview(p@), rview(c_tilde@)),
{
    match mat_vec_mul(p, c_tilde) {
        Some(v) => Ok(v),
        None => Err(InteriorPointError::ArithmeticOverflow),
    }
}

/// The fold `vmax_neg` yields a well-formed fraction.
pub proof fn lemma_vmax_neg_wf(cp: Seq<Frac>)
    requires
        vwf(cp),
    ensures
        frac_wf(vmax_neg(cp)),
    decreases cp.len(),
{
    if cp.len() > 0 {
        lemma_vmax_neg_wf(cp.drop_last());
    }
}

/// The magnitude of the most negative component of `cp` (zero when no
/// component is negative); total.
pub fn max_negative_magnitude(cp: &Vec<Rat>) -> (v: Rat)
    requires
        rwf(cp@),
    ensures
        v.wf(),
        v@ == vmax_neg(rview(cp@)),
{
    let n: usize = cp.len();
    let mut v: Rat = Rat::zero();
    let mut i: usize = 0;
    while i < n
        invariant
            rwf(cp@),
            n == cp@.len(),
            i <= n,
            v.wf(),
            v@ == vmax_neg(rview(cp@).subrange(0, i as int)),
        decreases n - i,
    {
        proof {
            assert(cp@[i as int].wf());
        }
        let val: Rat = cp[i];
        let nv: Rat = val.neg();
        let take: bool = val.is_neg() && v.lt(&nv);
        proof {
            let pre = rview(cp@).subrange(0, i as int);
            let post = rview(cp@).subrange(0, i as int + 1);
            assert(post.drop_last() =~= pre);
            assert(post.last() == cp@[i as int]@);
        }
        if take {
            v = nv;
        }
        i = i + 1;
    }
    proof {
        assert(rview(cp@).subrange(0, cp@.len() as int) =~= rview(cp@));
    }
    v
}

/// The termination test of one iteration, as a total decision: whether the
/// projected cost has a component at or below the negated noise floor.
/// `perform_interior_point_iteration` proceeds to a step exactly when this
/// holds of its projected cost.
pub fn has_improving_direction(cp: &Vec<Rat>) -> (r: bool)
    requires
        rwf(cp@),
    ensures
        r == frac_le(eps_frac(), vmax_neg(rview(cp@))),
{
    let v: Rat = max_negative_magnitude(cp);
    let eps: Rat = eps_rat();
    proof {
        assert forall|t: int| 0 <= t < rview(cp@).len() implies frac_wf(
            #[trigger] rview(cp@)[t],
        ) by {
            assert(cp@[t].wf());
        }
        lemma_vmax_neg_wf(rview(cp@));
        lemma_frac_le_congruence(eps@, eps_frac(), v@, vmax_neg(rview(cp@)));
    }
    !v.lt(&eps)
}

/// If no component of `cp` is negative, the fold stays at zero and the
/// iteration reports `NoImprovement`: the termination signal is sound.
pub proof fn lemma_nonnegative_cp_stalls(cp: Seq<Frac>)
    requires
        vwf(cp),
        forall|i: int| 0 <= i < cp.len() ==> frac_le(frac_int(0), #[trigger] cp[i]),
    ensures
        vmax_neg(cp) == frac_int(0),
        frac_lt(vmax_neg(cp), eps_frac()),
    decreases cp.len(),
{
    if cp.len() > 0 {
        assert forall|i: int| 0 <= i < cp.drop_last().len() implies frac_le(
            frac_int(0),
            #[trigger] cp.drop_last()[i],
        ) by {
            assert(frac_le(frac_int(0), cp[i]));
        }
        lemma_nonnegative_cp_stalls(cp.drop_last());
        assert(frac_le(frac_int(0), cp.last()));
    }
}

// ------------------------------------------------------------------
// Step length and update.
// ------------------------------------------------------------------

/// The upper clamp as an executable rational.
fn step_cap_rat() -> (r: Rat)
    ensures
        r.wf(),
        r@ == step_cap(),
{
    match Rat::new(1, 2) {
        Some(v) => {
            proof {
                assert(frac_eq(v@, Frac { num: 1, den: 2 }));
                assert(v@.num * 2 == 1 * v@.den);
                assert(crate::rational::iabs(v@.num) <= crate::rational::iabs(1));
                assert(v@.num == 1 && v@.den == 2);
            }
            v
        },
        None => Rat::zero(),
    }
}

/// The lower clamp as an executable rational.
fn step_floor_rat() -> (r: Rat)
    ensures
        r.wf(),
        r@ == step_floor(),
{
    match Rat::new(1, 1000) {
        Some(v) => {
            proof {
                assert(frac_eq(v@, Frac { num: 1, den: 1000 }));
                assert(v@.num * 1000 == 1 * v@.den);
                assert(crate::rational::iabs(v@.num) <= crate::rational::iabs(1));
                assert(v@.num == 1 && v@.den == 1000);
            }
            v
        },
        None => Rat::zero(),
    }
}

/// The step factor respects rational equality of the direction magnitude.
proof fn lemma_step_factor_congruence(alpha: Frac, v1: Frac, v2: Frac)
    requires
        frac_wf(alpha),
        frac_wf(v1),
        frac_wf(v2),
        v1.num > 0,
        v2.num > 0,
        frac_eq(v1, v2),
    ensures
        frac_wf(step_factor(alpha, v1)),
        frac_wf(step_factor(alpha, v2)),
        frac_eq(step_factor(alpha, v1), step_factor(alpha, v2)),
{
    crate::rational::lemma_frac_inv_pos_congruence(v1, v2);
    lemma_frac_add_wf(alpha, frac_inv_pos(v1));
    lemma_frac_add_wf(alpha, frac_inv_pos(v2));
    crate::rational::lemma_frac_mul_congruence(
        alpha,
        alpha,
        frac_inv_pos(v1),
        frac_inv_pos(v2),
    );
    crate::rational::lemma_frac_extrema_congruence(
        frac_mul(alpha, frac_inv_pos(v1)),
        frac_mul(alpha, frac_inv_pos(v2)),
        step_cap(),
        step_cap(),
    );
    crate::rational::lemma_frac_extrema_congruence(
        frac_min(frac_mul(alpha, frac_inv_pos(v1)), step_cap()),
        frac_min(frac_mul(alpha, frac_inv_pos(v2)), step_cap()),
        step_floor(),
        step_floor(),
    );
}

// ------------------------------------------------------------------
// One full iteration.
// ------------------------------------------------------------------

/// One iteration produced all its intermediate quantities consistently:
/// `dv` is the scaling matrix of the problem's iterate, `bv = A dv`,
/// `ctv = dv c`, `s` is a left inverse of the regularized normal matrix of
/// `bv`, `pv` the projector built from it, and `cpv = pv ctv`.
pub open spec fn pipeline_ok(
    prob: InteriorPointProblem,
    dv: Seq<Seq<Frac>>,
    bv: Seq<Seq<Frac>>,
    ctv: Seq<Frac>,
    s: Seq<Seq<Frac>>,
    pv: Seq<Seq<Frac>>,
    cpv: Seq<Frac>,
) -> bool {
    &&& dv == diag_matrix(scaling_diag(rview(prob.x_vector@)))
    &&& bv == mmul_canon(mview(prob.a_matrix@), dv)
    &&& meq(bv, mmul(mview(prob.a_matrix@), dv))
    &&& ctv == mvmul_canon(dv, rview(prob.c_vector@))
    &&& veq(ctv, mvmul(dv, rview(prob.c_vector@)))
    &&& projector_ok(bv, s, pv)
    &&& cpv == mvmul_canon(pv, ctv)
    &&& veq(cpv, mvmul(pv, ctv))
}

/// A successful iteration: some left inverse witnesses the pipeline, an
/// improving direction was found, and the new iterate is the damped step.
pub open spec fn iteration_ok(prob: InteriorPointProblem, it: InteriorPointIteration) -> bool {
    &&& exists|s: Seq<Seq<Frac>>|
        #[trigger] pipeline_ok(
            prob,
            mview(it.d_matrix@),
            mview(it.a_tilde_matrix@),
            rview(it.c_tilde_vector@),
            s,
            mview(it.p_matrix@),
            rview(it.cp_vector@),
        )
    &&& frac_le(eps_frac(), vmax_neg(rview(it.cp_vector@)))
    &&& veq(
        rview(it.current_x@),
        next_iterate(mdiag(mview(it.d_matrix@)), rview(it.cp_vector@), prob.alpha@),
    )
    &&& mat_ok(it.d_matrix@)
    &&& mat_ok(it.a_tilde_matrix@)
    &&& mat_ok(it.p_matrix@)
    &&& rwf(it.c_tilde_vector@)
    &&& rwf(it.cp_vector@)
    &&& rwf(it.current_x@)
    &&& it.current_x@.len() == prob.x_vector@.len()
}

/// The iteration stalled: the pipeline ran, and the projected cost had no
/// component at or below `-eps`.
pub open spec fn stalled_outcome(prob: InteriorPointProblem) -> bool {
    exists|
        dv: Seq<Seq<Frac>>,
        bv: Seq<Seq<Frac>>,
        ctv: Seq<Frac>,
        s: Seq<Seq<Frac>>,
        pv: Seq<Seq<Frac>>,
        cpv: Seq<Frac>,
    |
        #[trigger] pipeline_ok(prob, dv, bv, ctv, s, pv, cpv) && frac_lt(
            vmax_neg(cpv),
            eps_frac(),
        )
}

/// The scaling and scaled constraints of `prob` lead to a regularized
/// normal matrix without any left inverse.
pub open spec fn degenerate_witness(
    prob: InteriorPointProblem,
    dv: Seq<Seq<Frac>>,
    bv: Seq<Seq<Frac>>,
) -> bool {
    let m = prob.a_matrix@.len() as int;
    &&& dv == diag_matrix(scaling_diag(rview(prob.x_vector@)))
    &&& bv == mmul_canon(mview(prob.a_matrix@), dv)
    &&& meq(bv, mmul(mview(prob.a_matrix@), dv))
    &&& forall|x: Seq<Seq<Frac>>|
        is_mat(x, m, m) ==> !meq(
            #[trigger] mmul(x, reg_normal_matrix(bv, mtrans(bv), eps_frac(), m as nat)),
            mid(m as nat),
        )
}

/// The iteration failed on a singular regularized normal matrix.
pub open spec fn degenerate_outcome(prob: InteriorPointProblem) -> bool {
    exists|dv: Seq<Seq<Frac>>, bv: Seq<Seq<Frac>>| #[trigger] degenerate_witness(prob, dv, bv)
}

/// One affine-scaling step.  On success the next iterate is written into
/// `problem.x_vector` and every intermediate quantity is returned; on any
/// error the problem is left untouched.  `NoImprovement` comes only from a
/// projected cost without improving direction, `SingularMatrix` only with
/// a proof that the normal matrix has no left inverse, and the engine
/// never raises `NotFeasible`.  `ArithmeticOverflow` comes exactly when
/// `iteration_supported` fails, and on every supported problem the
/// outcome is the one `outcome_determined` prescribes: the contract pins
/// what happens, not only what the results mean.
pub fn perform_interior_point_iteration(problem: &mut InteriorPointProblem) -> (r: Result<
    InteriorPointIteration,
    InteriorPointError,
>)
    requires
        old(problem).wf(),
    ensures
        final(problem).wf(),
        r matches Err(_) ==> *final(problem) == *old(problem),
        r matches Ok(it) ==> {
            &&& final(problem).a_matrix@ == old(problem).a_matrix@
            &&& final(problem).b_vector@ == old(problem).b_vector@
            &&& final(problem).c_vector@ == old(problem).c_vector@
            &&& final(problem).alpha == old(problem).alpha
            &&& final(problem).x_vector@ == it.current_x@
            &&& iteration_ok(*old(problem), it)
        },
        r matches Err(e) ==> !(e is NotFeasible),
        r matches Err(e) && e is NoImprovement ==> stalled_outcome(*old(problem)),
        r matches Err(e) && e is SingularMatrix ==> degenerate_outcome(*old(problem)),
        r matches Err(e) ==> (e matches InteriorPointError::SingularMatrix(msg) ==> msg@
            == "Cannot invert (A_tilde * A_tilde^T)"@),
        (r matches Err(e) && e is ArithmeticOverflow) <==> !iteration_supported(*old(problem)),
        iteration_supported(*old(problem)) ==> outcome_determined(*old(problem), r),
{
    let n: usize = problem.c_vector.len();
    let ghost av = mview(problem.a_matrix@);
    let ghost xv = rview(problem.x_vector@);
    let ghost cv = rview(problem.c_vector@);
    let ghost dvs = diag_matrix(scaling_diag(xv));
    let ghost mm_ = av.len() as int;
    let d: Vec<Vec<Rat>> = create_d_matrix(&problem.x_vector);
    proof {
        assert(mview(d@) == dvs);
    }
    let a_tilde: Vec<Vec<Rat>> = match calculate_a_tilde(&problem.a_matrix, &d) {
        Ok(v) => v,
        Err(e) => {
            proof {
                assert(!mmul_fits(av, dvs));
                assert(!iteration_supported(*problem));
            }
            return Err(e);
        },
    };
    let c_tilde: Vec<Rat> = match calculate_c_tilde(&problem.c_vector, &d) {
        Ok(v) => v,
        Err(e) => {
            proof {
                assert(!mvmul_fits(dvs, cv));
                assert(!iteration_supported(*problem));
            }
            return Err(e);
        },
    };
    let ghost bvc = mmul_canon(av, dvs);
    let ghost ctc = mvmul_canon(dvs, cv);
    proof {
        assert(mview(a_tilde@) == bvc);
        assert(rview(c_tilde@) == ctc);
    }
    let p: Vec<Vec<Rat>> = match calculate_p_matrix(&a_tilde) {
        Ok(v) => v,
        Err(e) => {
            proof {
                if e is SingularMatrix {
                    assert(degenerate_witness(*problem, mview(d@), mview(a_tilde@)));
                    assert(projector_supported(bvc));
                    assert(elim_spec(reg_normal_canon(bvc), mm_, mm_) is NullCandidate);
                    assert(iteration_supported(*problem));
                } else {
                    assert(!projector_supported(bvc));
                    assert(!iteration_supported(*problem));
                }
            }
            return Err(e);
        },
    };
    let ghost st = elim_spec(reg_normal_canon(bvc), mm_, mm_);
    let ghost pvc = projector_canon(bvc, st->Running_s);
    proof {
        assert(projector_supported(bvc));
        assert(st is Running);
        assert(mview(p@) == pvc);
    }
    let cp: Vec<Rat> = match calculate_cp_vector(&p, &c_tilde) {
        Ok(v) => v,
        Err(e) => {
            proof {
                assert(!mvmul_fits(pvc, ctc));
                assert(!iteration_supported(*problem));
            }
            return Err(e);
        },
    };
    let ghost cpc = mvmul_canon(pvc, ctc);
    proof {
        assert(rview(cp@) == cpc);
    }
    let v: Rat = max_negative_magnitude(&cp);
    let eps: Rat = eps_rat();
    proof {
        assert forall|t: int| 0 <= t < rview(cp@).len() implies frac_wf(
            #[trigger] rview(cp@)[t],
        ) by {
            assert(cp@[t].wf());
        }
        lemma_vmax_neg_wf(rview(cp@));
        lemma_frac_le_congruence(v@, vmax_neg(rview(cp@)), eps@, eps_frac());
    }
    if v.lt(&eps) {
        proof {
            let s_wit = choose|s: Seq<Seq<Frac>>|
                projector_ok(mview(a_tilde@), s, mview(p@));
            assert(pipeline_ok(
                *problem,
                mview(d@),
                mview(a_tilde@),
                rview(c_tilde@),
                s_wit,
                mview(p@),
                rview(cp@),
            ));
            assert(frac_lt(vmax_neg(rview(cp@)), eps_frac()));
            assert(!frac_le(eps_frac(), vmax_neg(cpc)));
            assert(iteration_supported(*problem));
        }
        return Err(InteriorPointError::NoImprovement);
    }
    proof {
        assert(frac_le(eps_frac(), vmax_neg(cpc)));
    }
    proof {
        // the direction magnitude is strictly positive
        assert(eps@.num > 0) by (nonlinear_arith)
            requires
                eps@.num * 100000000 == 1 * eps@.den,
                eps@.den > 0,
        ;
        assert(v@.num > 0) by (nonlinear_arith)
            requires
                eps@.num * v@.den <= v@.num * eps@.den,
                eps@.num > 0,
                v@.den > 0,
                eps@.den > 0,
        ;
        crate::rational::lemma_frac_pos_congruence(v@, vmax_neg(rview(cp@)));
    }
    let inv: Rat = v.inv_pos();
    let raw: Rat = match problem.alpha.checked_mul(&inv) {
        Some(x) => x,
        None => {
            proof {
                assert(!canon_fits(frac_mul(problem.alpha@, frac_inv_pos(vmax_neg(cpc)))));
                assert(!update_fits(scaling_diag(xv), cpc, problem.alpha@));
                assert(!iteration_supported(*problem));
            }
            return Err(InteriorPointError::ArithmeticOverflow);
        },
    };
    let cap: Rat = step_cap_rat();
    let floor: Rat = step_floor_rat();
    let capped: Rat = raw.min_of(&cap);
    let factor: Rat = capped.max_of(&floor);
    proof {
        // the computed factor denotes the specified step factor
        let al = problem.alpha@;
        let vm = vmax_neg(rview(cp@));
        lemma_frac_add_wf(al, frac_inv_pos(v@));
        crate::rational::lemma_frac_extrema_congruence(
            raw@,
            frac_mul(al, frac_inv_pos(v@)),
            cap@,
            step_cap(),
        );
        crate::rational::lemma_frac_extrema_congruence(
            capped@,
            frac_min(frac_mul(al, frac_inv_pos(v@)), step_cap()),
            floor@,
            step_floor(),
        );
        lemma_step_factor_congruence(al, v@, vm);
        crate::rational::lemma_frac_eq_trans(
            factor@,
            step_factor(al, v@),
            step_factor(al, vm),
        );
        assert(v@ == vm);
        assert(factor@ == step_factor_canon(al, vm));
        // the two directions tying the remaining arithmetic to support
        assert(iteration_supported(*problem) ==> update_fits(
            scaling_diag(rview(problem.x_vector@)),
            cpc,
            problem.alpha@,
        ));
        assert(update_fits(scaling_diag(rview(problem.x_vector@)), cpc, problem.alpha@)
            ==> iteration_supported(*problem));
    }
    let ghost fspec = step_factor(problem.alpha@, vmax_neg(rview(cp@)));
    let one: Rat = Rat::one();
    let mut new_x: Vec<Rat> = Vec::new();
    let mut i: usize = 0;
    while i < n
        invariant
            *problem == *old(problem),
            problem.wf(),
            rwf(cp@),
            cp@.len() == n,
            mat_ok(d@),
            mrows(d@) == n,
            mcols_exec(d@) == n,
            n >= 1,
            factor.wf(),
            frac_wf(fspec),
            frac_eq(factor@, fspec),
            fspec == step_factor(problem.alpha@, vmax_neg(rview(cp@))),
            one.wf(),
            one@ == frac_int(1),
            rview(cp@) == cpc,
            frac_le(eps_frac(), vmax_neg(cpc)),
            factor@ == step_factor_canon(problem.alpha@, vmax_neg(cpc)),
            mview(d@) == diag_matrix(scaling_diag(rview(problem.x_vector@))),
            canon_fits(frac_mul(problem.alpha@, frac_inv_pos(vmax_neg(cpc)))),
            st == elim_spec(
                reg_normal_canon(
                    mmul_canon(
                        mview(problem.a_matrix@),
                        diag_matrix(scaling_diag(rview(problem.x_vector@))),
                    ),
                ),
                mview(problem.a_matrix@).len() as int,
                mview(problem.a_matrix@).len() as int,
            ),
            st is Running,
            cpc == mvmul_canon(
                projector_canon(
                    mmul_canon(
                        mview(problem.a_matrix@),
                        diag_matrix(scaling_diag(rview(problem.x_vector@))),
                    ),
                    st->Running_s,
                ),
                mvmul_canon(
                    diag_matrix(scaling_diag(rview(problem.x_vector@))),
                    rview(problem.c_vector@),
                ),
            ),
            (iteration_supported(*problem) ==> update_fits(
                scaling_diag(rview(problem.x_vector@)),
                cpc,
                problem.alpha@,
            )),
            (update_fits(scaling_diag(rview(problem.x_vector@)), cpc, problem.alpha@)
                ==> iteration_supported(*problem)),
            forall|y: int|
                0 <= y < i ==> canon_fits(
                    #[trigger] frac_mul(
                        step_factor_canon(problem.alpha@, vmax_neg(cpc)),
                        cpc[y],
                    ),
                ) && canon_fits(
                    frac_add(
                        frac_int(1),
                        frac_canon(
                            frac_mul(step_factor_canon(problem.alpha@, vmax_neg(cpc)), cpc[y]),
                        ),
                    ),
                ) && canon_fits(
                    frac_mul(
                        scaling_diag(rview(problem.x_vector@))[y],
                        frac_canon(
                            frac_add(
                                frac_int(1),
                                frac_canon(
                                    frac_mul(
                                        step_factor_canon(problem.alpha@, vmax_neg(cpc)),
                                        cpc[y],
                                    ),
                                ),
                            ),
                        ),
                    ),
                ),
            i <= n,
            new_x@.len() == i,
            forall|y: int| 0 <= y < i ==> (#[trigger] new_x@[y]).wf(),
            forall|y: int|
                0 <= y < i ==> frac_eq(
                    (#[trigger] new_x@[y])@,
                    frac_mul(
                        mdiag(mview(d@))[y],
                        frac_add(frac_int(1), frac_mul(fspec, rview(cp@)[y])),
                    ),
                ),
        decreases n - i,
    {
        proof {
            assert(cp@[i as int].wf());
            assert(rwf(d@[i as int]@));
        }
        let ghost fcanon = step_factor_canon(problem.alpha@, vmax_neg(cpc));
        proof {
            assert(cp@[i as int]@ == cpc[i as int]);
            assert(mview(d@)[i as int][i as int] == scaling_diag(rview(problem.x_vector@))[i as int]);
        }
        let fc: Rat = match factor.checked_mul(&cp[i]) {
            Some(x) => x,
            None => {
                proof {
                    assert(!canon_fits(frac_mul(fcanon, cpc[i as int])));
                    assert(!update_fits(scaling_diag(rview(problem.x_vector@)), cpc, problem.alpha@));
                    assert(!iteration_supported(*problem));
                }
                return Err(InteriorPointError::ArithmeticOverflow);
            },
        };
        let xt: Rat = match one.checked_add(&fc) {
            Some(x) => x,
            None => {
                proof {
                    assert(fc@ == frac_canon(frac_mul(fcanon, cpc[i as int])));
                    assert(!canon_fits(frac_add(frac_int(1), frac_canon(frac_mul(fcanon, cpc[i as int])))));
                    assert(!update_fits(scaling_diag(rview(problem.x_vector@)), cpc, problem.alpha@));
                    assert(!iteration_supported(*problem));
                }
                return Err(InteriorPointError::ArithmeticOverflow);
            },
        };
        let xi: Rat = match d[i][i].checked_mul(&xt) {
            Some(x) => x,
            None => {
                proof {
                    assert(xt@ == frac_canon(frac_add(frac_int(1), frac_canon(frac_mul(fcanon, cpc[i as int])))));
                    assert(!canon_fits(frac_mul(
                        scaling_diag(rview(problem.x_vector@))[i as int],
                        frac_canon(frac_add(frac_int(1), frac_canon(frac_mul(fcanon, cpc[i as int])))),
                    )));
                    assert(!update_fits(scaling_diag(rview(problem.x_vector@)), cpc, problem.alpha@));
                    assert(!iteration_supported(*problem));
                }
                return Err(InteriorPointError::ArithmeticOverflow);
            },
        };
        proof {
            assert(canon_fits(frac_mul(fcanon, cpc[i as int])));
            assert(canon_fits(frac_add(frac_int(1), frac_canon(frac_mul(fcanon, cpc[i as int])))));
            assert(canon_fits(frac_mul(
                scaling_diag(rview(problem.x_vector@))[i as int],
                frac_canon(frac_add(frac_int(1), frac_canon(frac_mul(fcanon, cpc[i as int])))),
            )));
        }
        proof {
            let ci = rview(cp@)[i as int];
            let dii = mdiag(mview(d@))[i as int];
            assert(dii == d@[i as int]@[i as int]@);
            crate::rational::lemma_frac_mul_congruence(factor@, fspec, ci, ci);
            lemma_frac_add_wf(factor@, ci);
            lemma_frac_add_wf(fspec, ci);
            crate::rational::lemma_frac_eq_trans(fc@, frac_mul(factor@, ci), frac_mul(fspec, ci));
            crate::rational::lemma_frac_add_congruence(
                frac_int(1),
                frac_int(1),
                fc@,
                frac_mul(fspec, ci),
            );
            lemma_frac_add_wf(frac_int(1), fc@);
            lemma_frac_add_wf(frac_int(1), frac_mul(fspec, ci));
            crate::rational::lemma_frac_eq_trans(
                xt@,
                frac_add(frac_int(1), fc@),
                frac_add(frac_int(1), frac_mul(fspec, ci)),
            );
            crate::rational::lemma_frac_mul_congruence(
                dii,
                dii,
                xt@,
                frac_add(frac_int(1), frac_mul(fspec, ci)),
            );
            lemma_frac_add_wf(dii, xt@);
            lemma_frac_add_wf(dii, frac_add(frac_int(1), frac_mul(fspec, ci)));
            crate::rational::lemma_frac_eq_trans(
                xi@,
                frac_mul(dii, xt@),
                frac_mul(dii, frac_add(frac_int(1), frac_mul(fspec, ci))),
            );
        }
        new_x.push(xi);
        i = i + 1;
    }
    proof {
        assert(update_fits(scaling_diag(rview(problem.x_vector@)), cpc, problem.alpha@)) by {
            assert forall|i: int| 0 <= i < cpc.len() implies canon_fits(
                #[trigger] frac_mul(step_factor_canon(problem.alpha@, vmax_neg(cpc)), cpc[i]),
            ) && canon_fits(
                frac_add(
                    frac_int(1),
                    frac_canon(
                        frac_mul(step_factor_canon(problem.alpha@, vmax_neg(cpc)), cpc[i]),
                    ),
                ),
            ) && canon_fits(
                frac_mul(
                    scaling_diag(rview(problem.x_vector@))[i],
                    frac_canon(
                        frac_add(
                            frac_int(1),
                            frac_canon(
                                frac_mul(
                                    step_factor_canon(problem.alpha@, vmax_neg(cpc)),
                                    cpc[i],
                                ),
                            ),
                        ),
                    ),
                ),
            ) by {}
        }
        assert(iteration_supported(*problem));
    }
    let new_x_copy: Vec<Rat> = crate::matrix::vec_copy(&new_x);
    problem.x_vector = new_x_copy;
    let it = InteriorPointIteration {
        d_matrix: d,
        a_tilde_matrix: a_tilde,
        c_tilde_vector: c_tilde,
        p_matrix: p,
        cp_vector: cp,
        current_x: new_x,
    };
    proof {
        let prob0 = *old(problem);
        let s_wit = choose|s: Seq<Seq<Frac>>|
            projector_ok(mview(it.a_tilde_matrix@), s, mview(it.p_matrix@));
        assert(pipeline_ok(
            prob0,
            mview(it.d_matrix@),
            mview(it.a_tilde_matrix@),
            rview(it.c_tilde_vector@),
            s_wit,
            mview(it.p_matrix@),
            rview(it.cp_vector@),
        ));
        assert forall|y: int| 0 <= y < rview(it.current_x@).len() implies frac_eq(
            #[trigger] rview(it.current_x@)[y],
            next_iterate(
                mdiag(mview(it.d_matrix@)),
                rview(it.cp_vector@),
                prob0.alpha@,
            )[y],
        ) by {
            assert(frac_eq(
                it.current_x@[y]@,
                frac_mul(
                    mdiag(mview(it.d_matrix@))[y],
                    frac_add(frac_int(1), frac_mul(fspec, rview(it.cp_vector@)[y])),
                ),
            ));
        }
    }
    Ok(it)
}

} // verus!
