//! Algebraic laws of the regularized null-space projector.
//!
//! With `B` the scaled constraint matrix, `T` a second factor (the engine
//! passes the transpose of `B`), `M = B T + e I` the regularized normal
//! matrix and `S` a left inverse of `M`, the projector is
//! `P = I - T (S B)`.  Exact arithmetic turns the usual floating-point
//! approximations into identities: `P T` equals `e (T S)` exactly, and
//! `P P` misses `P` by exactly `e (T S S B)`.  Both defects vanish with the
//! regularization weight `e`.

use crate::matrix::{
    is_mat, lemma_madd_sub_cancel, lemma_meq_symm, lemma_meq_trans, lemma_mid_is_mat,
    lemma_mlin_congruence, lemma_mlin_is_mat, lemma_mmul_assoc, lemma_mmul_congruence,
    lemma_mmul_id_left, lemma_mmul_id_right, lemma_mmul_is_mat, lemma_mmul_scale_left,
    lemma_mmul_scale_right, lemma_mmul_sub_left, lemma_mmul_sub_right, lemma_msub_sub_cancel,
    madd, meq, mid, mmul, mscale, msub,
};
use crate::rational::{frac_wf, Frac};
use vstd::prelude::*;

verus! {

/// The regularized normal matrix `B T + e I`.
pub open spec fn reg_normal_matrix(
    b: Seq<Seq<Frac>>,
    t: Seq<Seq<Frac>>,
    e: Frac,
    m: nat,
) -> Seq<Seq<Frac>> {
    madd(mmul(b, t), mscale(e, mid(m)))
}

/// The projector `I - T (S B)` built from a left inverse `S` of the
/// regularized normal matrix.
pub open spec fn null_space_projector(
    t: Seq<Seq<Frac>>,
    s: Seq<Seq<Frac>>,
    b: Seq<Seq<Frac>>,
    n: nat,
) -> Seq<Seq<Frac>> {
    msub(mid(n), mmul(t, mmul(s, b)))
}

/// All shapes and well-formedness assumptions shared by the laws below.
pub open spec fn projector_setting(
    b: Seq<Seq<Frac>>,
    t: Seq<Seq<Frac>>,
    s: Seq<Seq<Frac>>,
    e: Frac,
    m: int,
    n: int,
) -> bool {
    &&& is_mat(b, m, n)
    &&& is_mat(t, n, m)
    &&& is_mat(s, m, m)
    &&& frac_wf(e)
    &&& m >= 1
    &&& n >= 1
    &&& meq(mmul(s, reg_normal_matrix(b, t, e, m as nat)), mid(m as nat))
}

/// Shared reduction: `(S B) T` equals `I - e S`.
proof fn lemma_vt_reduction(
    b: Seq<Seq<Frac>>,
    t: Seq<Seq<Frac>>,
    s: Seq<Seq<Frac>>,
    e: Frac,
    m: int,
    n: int,
)
    requires
        projector_setting(b, t, s, e, m, n),
    ensures
        meq(mmul(mmul(s, b), t), msub(mid(m as nat), mscale(e, s))),
{
    let mm = reg_normal_matrix(b, t, e, m as nat);
    let sb = mmul(s, b);
    let ei = mscale(e, mid(m as nat));
    lemma_mid_is_mat(m as nat);
    lemma_mmul_is_mat(b, t, m, n, m);
    lemma_mlin_is_mat(mid(m as nat), mid(m as nat), e, m, m);
    lemma_mlin_is_mat(mmul(b, t), ei, e, m, m);
    lemma_mmul_is_mat(s, b, m, m, n);
    lemma_mmul_is_mat(sb, t, m, n, m);
    lemma_mmul_is_mat(b, t, m, n, m);
    lemma_mmul_is_mat(s, mm, m, m, m);
    // (S B) T ~ S (B T)
    lemma_mmul_assoc(s, b, t, m, m, n, m);
    // B T ~ M - e I
    lemma_madd_sub_cancel(mmul(b, t), ei, m, m);
    lemma_meq_symm(msub(mm, ei), mmul(b, t));
    // S (B T) ~ S (M - e I)
    lemma_mlin_is_mat(mm, ei, e, m, m);
    lemma_mmul_is_mat(s, mmul(b, t), m, m, m);
    lemma_mmul_congruence(s, s, mmul(b, t), msub(mm, ei), m, m, m);
    // S (M - e I) ~ S M - S (e I)
    lemma_mmul_sub_left(s, mm, ei, m, m, m);
    // S (e I) ~ e (S I) ~ e S
    lemma_mmul_scale_right(e, s, mid(m as nat), m, m, m);
    lemma_mmul_id_right(s, m, m);
    lemma_mmul_is_mat(s, mid(m as nat), m, m, m);
    lemma_mlin_congruence(
        mmul(s, mid(m as nat)),
        s,
        mmul(s, mid(m as nat)),
        s,
        e,
        m,
        m,
    );
    lemma_mmul_is_mat(s, ei, m, m, m);
    lemma_mlin_is_mat(mmul(s, mid(m as nat)), s, e, m, m);
    lemma_mlin_is_mat(s, s, e, m, m);
    lemma_meq_trans(mmul(s, ei), mscale(e, mmul(s, mid(m as nat))), mscale(e, s));
    // S M - S (e I) ~ I - e S
    lemma_mlin_congruence(
        mmul(s, mm),
        mid(m as nat),
        mmul(s, ei),
        mscale(e, s),
        e,
        m,
        m,
    );
    // chain everything
    lemma_mmul_is_mat(s, msub(mm, ei), m, m, m);
    lemma_mlin_is_mat(mmul(s, mm), mmul(s, ei), e, m, m);
    lemma_mlin_is_mat(mid(m as nat), mscale(e, s), e, m, m);
    lemma_meq_trans(mmul(sb, t), mmul(s, mmul(b, t)), mmul(s, msub(mm, ei)));
    lemma_meq_trans(
        mmul(sb, t),
        mmul(s, msub(mm, ei)),
        msub(mmul(s, mm), mmul(s, ei)),
    );
    lemma_meq_trans(
        mmul(sb, t),
        msub(mmul(s, mm), mmul(s, ei)),
        msub(mid(m as nat), mscale(e, s)),
    );
}

/// The projector annihilates `T` up to the regularization weight:
/// `P T = e (T S)` exactly.  With `T` the transpose of the scaled
/// constraint matrix, this is the exact form of "the projection lies in
/// the null space of the scaled constraints".
pub proof fn lemma_projector_annihilates(
    b: Seq<Seq<Frac>>,
    t: Seq<Seq<Frac>>,
    s: Seq<Seq<Frac>>,
    e: Frac,
    m: int,
    n: int,
)
    requires
        projector_setting(b, t, s, e, m, n),
    ensures
        meq(
            mmul(null_space_projector(t, s, b, n as nat), t),
            mscale(e, mmul(t, s)),
        ),
{
    let sb = mmul(s, b);
    let k = mmul(t, sb);
    let p = null_space_projector(t, s, b, n as nat);
    let ets = mscale(e, mmul(t, s));
    lemma_mid_is_mat(n as nat);
    lemma_mid_is_mat(m as nat);
    lemma_mmul_is_mat(s, b, m, m, n);
    lemma_mmul_is_mat(t, sb, n, m, n);
    lemma_mmul_is_mat(t, s, n, m, m);
    lemma_mlin_is_mat(mid(n as nat), k, e, n, n);
    lemma_mmul_is_mat(p, t, n, n, m);
    lemma_mlin_is_mat(mmul(t, s), mmul(t, s), e, n, m);
    // P T ~ I T - K T
    lemma_mmul_sub_right(mid(n as nat), k, t, n, n, m);
    lemma_mmul_id_left(t, n, m);
    // K T ~ T ((S B) T) ~ T (I - e S) ~ T I - T (e S) ~ T - e (T S)
    lemma_mmul_assoc(t, sb, t, n, m, n, m);
    lemma_vt_reduction(b, t, s, e, m, n);
    lemma_mmul_is_mat(sb, t, m, n, m);
    lemma_mlin_is_mat(s, s, e, m, m);
    lemma_mlin_is_mat(mid(m as nat), mscale(e, s), e, m, m);
    lemma_mmul_congruence(t, t, mmul(sb, t), msub(mid(m as nat), mscale(e, s)), n, m, m);
    lemma_mmul_sub_left(t, mid(m as nat), mscale(e, s), n, m, m);
    lemma_mmul_id_right(t, n, m);
    lemma_mmul_scale_right(e, t, s, n, m, m);
    lemma_mmul_is_mat(t, mid(m as nat), n, m, m);
    lemma_mmul_is_mat(t, mscale(e, s), n, m, m);
    lemma_mlin_congruence(
        mmul(t, mid(m as nat)),
        t,
        mmul(t, mscale(e, s)),
        ets,
        e,
        n,
        m,
    );
    lemma_mmul_is_mat(k, t, n, n, m);
    lemma_mmul_is_mat(t, mmul(sb, t), n, m, m);
    lemma_mmul_is_mat(t, msub(mid(m as nat), mscale(e, s)), n, m, m);
    lemma_mlin_is_mat(mmul(t, mid(m as nat)), mmul(t, mscale(e, s)), e, n, m);
    lemma_mlin_is_mat(t, ets, e, n, m);
    lemma_meq_trans(
        mmul(k, t),
        mmul(t, mmul(sb, t)),
        mmul(t, msub(mid(m as nat), mscale(e, s))),
    );
    lemma_meq_trans(
        mmul(k, t),
        mmul(t, msub(mid(m as nat), mscale(e, s))),
        msub(mmul(t, mid(m as nat)), mmul(t, mscale(e, s))),
    );
    lemma_meq_trans(
        mmul(k, t),
        msub(mmul(t, mid(m as nat)), mmul(t, mscale(e, s))),
        msub(t, ets),
    );
    // I T - K T ~ T - (T - e (T S)) ~ e (T S)
    lemma_mmul_is_mat(mid(n as nat), t, n, n, m);
    lemma_mlin_congruence(mmul(mid(n as nat), t), t, mmul(k, t), msub(t, ets), e, n, m);
    lemma_msub_sub_cancel(t, ets, n, m);
    lemma_mlin_is_mat(mmul(mid(n as nat), t), mmul(k, t), e, n, m);
    lemma_mlin_is_mat(t, msub(t, ets), e, n, m);
    lemma_meq_trans(
        mmul(p, t),
        msub(mmul(mid(n as nat), t), mmul(k, t)),
        msub(t, msub(t, ets)),
    );
    lemma_meq_trans(mmul(p, t), msub(t, msub(t, ets)), ets);
}

/// The projector is idempotent up to the regularization weight:
/// `P P = P - e (T (S (S B)))` exactly, so the idempotence defect
/// `P P - P` vanishes with `e`.
pub proof fn lemma_projector_idempotent_defect(
    b: Seq<Seq<Frac>>,
    t: Seq<Seq<Frac>>,
    s: Seq<Seq<Frac>>,
    e: Frac,
    m: int,
    n: int,
)
    requires
        projector_setting(b, t, s, e, m, n),
    ensures
        meq(
            mmul(
                null_space_projector(t, s, b, n as nat),
                null_space_projector(t, s, b, n as nat),
            ),
            msub(
                null_space_projector(t, s, b, n as nat),
                mscale(e, mmul(t, mmul(s, mmul(s, b)))),
            ),
        ),
{
    let sb = mmul(s, b);
    let ssb = mmul(s, sb);
    let k = mmul(t, sb);
    let p = null_space_projector(t, s, b, n as nat);
    let z = mmul(t, ssb);
    let ez = mscale(e, z);
    lemma_mid_is_mat(n as nat);
    lemma_mid_is_mat(m as nat);
    lemma_mmul_is_mat(s, b, m, m, n);
    lemma_mmul_is_mat(s, sb, m, m, n);
    lemma_mmul_is_mat(t, sb, n, m, n);
    lemma_mmul_is_mat(t, ssb, n, m, n);
    lemma_mlin_is_mat(mid(n as nat), k, e, n, n);
    lemma_mlin_is_mat(z, z, e, n, n);
    // P P ~ I P - K P
    lemma_mmul_sub_right(mid(n as nat), k, p, n, n, n);
    lemma_mmul_id_left(p, n, n);
    // K P = K (I - K) ~ K I - K K ~ K - K K
    lemma_mmul_sub_left(k, mid(n as nat), k, n, n, n);
    lemma_mmul_id_right(k, n, n);
    lemma_mmul_is_mat(k, mid(n as nat), n, n, n);
    lemma_mmul_is_mat(k, k, n, n, n);
    lemma_mlin_congruence(mmul(k, mid(n as nat)), k, mmul(k, k), mmul(k, k), e, n, n);
    // K K ~ T ((S B) K) ~ T (((S B) T) (S B)) ~ T ((I - e S)(S B))
    //     ~ T (S B - e (S (S B))) ~ K - e (T (S (S B)))
    lemma_mmul_assoc(t, sb, k, n, m, n, n);
    lemma_mmul_assoc(sb, t, sb, m, n, m, n);
    lemma_vt_reduction(b, t, s, e, m, n);
    lemma_mmul_is_mat(sb, t, m, n, m);
    lemma_mmul_is_mat(mmul(sb, t), sb, m, m, n);
    lemma_mmul_is_mat(sb, k, m, n, n);
    lemma_mlin_is_mat(s, s, e, m, m);
    lemma_mlin_is_mat(mid(m as nat), mscale(e, s), e, m, m);
    lemma_mmul_congruence(
        mmul(sb, t),
        msub(mid(m as nat), mscale(e, s)),
        sb,
        sb,
        m,
        m,
        n,
    );
    lemma_mmul_sub_right(mid(m as nat), mscale(e, s), sb, m, m, n);
    lemma_mmul_id_left(sb, m, n);
    lemma_mmul_scale_left(e, s, sb, m, m, n);
    lemma_mmul_is_mat(mid(m as nat), sb, m, m, n);
    lemma_mmul_is_mat(mscale(e, s), sb, m, m, n);
    lemma_mlin_is_mat(ssb, ssb, e, m, n);
    lemma_mlin_congruence(
        mmul(mid(m as nat), sb),
        sb,
        mmul(mscale(e, s), sb),
        mscale(e, ssb),
        e,
        m,
        n,
    );
    lemma_mmul_is_mat(msub(mid(m as nat), mscale(e, s)), sb, m, m, n);
    lemma_mlin_is_mat(mmul(mid(m as nat), sb), mmul(mscale(e, s), sb), e, m, n);
    lemma_mlin_is_mat(sb, mscale(e, ssb), e, m, n);
    lemma_meq_trans(
        mmul(mmul(sb, t), sb),
        mmul(msub(mid(m as nat), mscale(e, s)), sb),
        msub(mmul(mid(m as nat), sb), mmul(mscale(e, s), sb)),
    );
    lemma_meq_trans(
        mmul(mmul(sb, t), sb),
        msub(mmul(mid(m as nat), sb), mmul(mscale(e, s), sb)),
        msub(sb, mscale(e, ssb)),
    );
    lemma_meq_symm(mmul(mmul(sb, t), sb), mmul(sb, mmul(t, sb)));
    lemma_meq_trans(mmul(sb, k), mmul(mmul(sb, t), sb), msub(sb, mscale(e, ssb)));
    lemma_mlin_is_mat(sb, mscale(e, ssb), e, m, n);
    lemma_mmul_congruence(t, t, mmul(sb, k), msub(sb, mscale(e, ssb)), n, m, n);
    lemma_mmul_sub_left(t, sb, mscale(e, ssb), n, m, n);
    lemma_mmul_scale_right(e, t, ssb, n, m, n);
    lemma_mmul_is_mat(t, mscale(e, ssb), n, m, n);
    lemma_mlin_congruence(mmul(t, sb), k, mmul(t, mscale(e, ssb)), ez, e, n, n);
    lemma_mmul_is_mat(t, msub(sb, mscale(e, ssb)), n, m, n);
    lemma_mlin_is_mat(mmul(t, sb), mmul(t, mscale(e, ssb)), e, n, n);
    lemma_mlin_is_mat(k, ez, e, n, n);
    lemma_mmul_is_mat(t, mmul(sb, k), n, m, n);
    lemma_meq_trans(mmul(k, k), mmul(t, mmul(sb, k)), mmul(t, msub(sb, mscale(e, ssb))));
    lemma_meq_trans(
        mmul(k, k),
        mmul(t, msub(sb, mscale(e, ssb))),
        msub(mmul(t, sb), mmul(t, mscale(e, ssb))),
    );
    lemma_meq_trans(mmul(k, k), msub(mmul(t, sb), mmul(t, mscale(e, ssb))), msub(k, ez));
    // K P ~ K - K K ~ K - (K - e Z) ~ e Z
    lemma_mmul_is_mat(k, p, n, n, n);
    lemma_mlin_congruence(k, k, mmul(k, k), msub(k, ez), e, n, n);
    lemma_msub_sub_cancel(k, ez, n, n);
    lemma_mlin_is_mat(mmul(k, mid(n as nat)), mmul(k, k), e, n, n);
    lemma_mlin_is_mat(k, mmul(k, k), e, n, n);
    lemma_mlin_is_mat(k, msub(k, ez), e, n, n);
    lemma_meq_trans(mmul(k, p), msub(mmul(k, mid(n as nat)), mmul(k, k)), msub(k, mmul(k, k)));
    lemma_meq_trans(mmul(k, p), msub(k, mmul(k, k)), msub(k, msub(k, ez)));
    lemma_meq_trans(mmul(k, p), msub(k, msub(k, ez)), ez);
    // P P ~ I P - K P ~ P - e Z
    lemma_mmul_is_mat(mid(n as nat), p, n, n, n);
    lemma_mlin_congruence(mmul(mid(n as nat), p), p, mmul(k, p), ez, e, n, n);
    lemma_mmul_is_mat(p, p, n, n, n);
    lemma_mlin_is_mat(mmul(mid(n as nat), p), mmul(k, p), e, n, n);
    lemma_mlin_is_mat(p, ez, e, n, n);
    lemma_meq_trans(
        mmul(p, p),
        msub(mmul(mid(n as nat), p), mmul(k, p)),
        msub(p, ez),
    );
}

} // verus!
