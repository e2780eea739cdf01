//! Standard-form assembly.
//!
//! The iteration engine works on equality constraints only.  This module
//! turns user-entered constraints with `<=`, `>=` or `=` signs into
//! standard form: `>=` rows are negated, one slack column is appended for
//! every inequality row, the right-hand side follows the row signs, and
//! the cost vector is padded with zeros for the slack variables.  It also
//! orients the cost for minimization and repairs a starting point of the
//! wrong length.

use crate::matrix::{mat_ok, mcols_exec, mrows, rwf};
use crate::rational::{
    frac_eq, frac_int, frac_max, frac_neg, lemma_frac_le_congruence, Frac, Rat,
};
use vstd::prelude::*;

verus! {

/// The sign of one user-entered constraint.
#[derive(Clone, Copy, Debug)]
pub enum ConstraintSign {
    /// `row . x <= rhs`
    LessEq,
    /// `row . x >= rhs`
    GreaterEq,
    /// `row . x == rhs`
    Equal,
}

/// Whether a constraint of this sign receives a slack variable.
pub open spec fn needs_slack(s: ConstraintSign) -> bool {
    !(s is Equal)
}

/// How many of the first `k` constraints receive a slack variable.
pub open spec fn slack_count_prefix(signs: Seq<ConstraintSign>, k: int) -> int
    decreases k,
{
    if k <= 0 {
        0
    } else {
        slack_count_prefix(signs, k - 1) + if needs_slack(signs[k - 1]) {
            1int
        } else {
            0int
        }
    }
}

/// The total number of slack variables.
pub open spec fn slack_count(signs: Seq<ConstraintSign>) -> int {
    slack_count_prefix(signs, signs.len() as int)
}

/// The slack-count prefix grows by at most one per constraint.
pub proof fn lemma_slack_count_prefix_bounds(signs: Seq<ConstraintSign>, k: int)
    requires
        0 <= k,
    ensures
        0 <= slack_count_prefix(signs, k) <= k,
    decreases k,
{
    if k > 0 {
        lemma_slack_count_prefix_bounds(signs, k - 1);
    }
}

/// The floor `1 / 10000` applied to entries of a repaired starting point.
pub open spec fn start_floor() -> Frac {
    Frac { num: 1, den: 10000 }
}

/// Counts the inequality constraints.
fn count_slacks(signs: &Vec<ConstraintSign>) -> (c: usize)
    ensures
        c == slack_count(signs@),
        c <= signs@.len(),
{
    let mut c: usize = 0;
    let mut i: usize = 0;
    while i < signs.len()
        invariant
            i <= signs@.len(),
            c == slack_count_prefix(signs@, i as int),
            c <= i,
        decreases signs@.len() - i,
    {
        let more: bool = match signs[i] {
            ConstraintSign::Equal => false,
            _ => true,
        };
        if more {
            c = c + 1;
        }
        i = i + 1;
    }
    c
}

/// Builds the standard-form data `(A, b, c)` from user-entered
/// constraints: `>=` rows and their right-hand sides are negated, each
/// inequality row gets a fresh slack column holding one, all other slack
/// entries are zero, and the cost is padded with zeros.
pub fn build_standard_form(
    coeffs: &Vec<Vec<Rat>>,
    signs: &Vec<ConstraintSign>,
    rhs: &Vec<Rat>,
    objective: &Vec<Rat>,
) -> (r: (Vec<Vec<Rat>>, Vec<Rat>, Vec<Rat>))
    requires
        mat_ok(coeffs@),
        signs@.len() == coeffs@.len(),
        rwf(rhs@),
        rhs@.len() == coeffs@.len(),
        rwf(objective@),
        objective@.len() == coeffs@[0]@.len(),
        coeffs@[0]@.len() + slack_count(signs@) <= usize::MAX,
    ensures
        ({
            let (a, b, c) = r;
            let m = coeffs@.len() as int;
            let vars = coeffs@[0]@.len() as int;
            let sc = slack_count(signs@);
            &&& mat_ok(a@)
            &&& mrows(a@) == m
            &&& mcols_exec(a@) == vars + sc
            &&& rwf(b@)
            &&& b@.len() == m
            &&& rwf(c@)
            &&& c@.len() == vars + sc
            &&& forall|i: int, j: int|
                0 <= i < m && 0 <= j < vars ==> (#[trigger] a@[i]@[j])@ == (
                if signs@[i] is GreaterEq {
                    frac_neg(coeffs@[i]@[j]@)
                } else {
                    coeffs@[i]@[j]@
                })
            &&& forall|i: int, k: int|
                0 <= i < m && 0 <= k < sc ==> (#[trigger] a@[i]@[vars + k])@ == (
                if needs_slack(signs@[i]) && k == slack_count_prefix(signs@, i) {
                    frac_int(1)
                } else {
                    frac_int(0)
                })
            &&& forall|i: int|
                0 <= i < m ==> (#[trigger] b@[i])@ == (if signs@[i] is GreaterEq {
                    frac_neg(rhs@[i]@)
                } else {
                    rhs@[i]@
                })
            &&& forall|j: int| 0 <= j < vars ==> #[trigger] c@[j] == objective@[j]
            &&& forall|j: int| vars <= j < vars + sc ==> (#[trigger] c@[j])@ == frac_int(0)
        }),
{
    let m: usize = coeffs.len();
    let vars: usize = coeffs[0].len();
    let sc: usize = count_slacks(signs);
    proof {
        lemma_slack_count_prefix_bounds(signs@, signs@.len() as int);
    }
    let n: usize = vars + sc;
    let mut a: Vec<Vec<Rat>> = Vec::new();
    let mut b: Vec<Rat> = Vec::new();
    let mut i: usize = 0;
    let mut slack_idx: usize = 0;
    while i < m
        invariant
            mat_ok(coeffs@),
            signs@.len() == coeffs@.len(),
            rwf(rhs@),
            rhs@.len() == coeffs@.len(),
            m == coeffs@.len(),
            vars == coeffs@[0]@.len(),
            sc == slack_count(signs@),
            n == vars + sc,
            i <= m,
            slack_idx == slack_count_prefix(signs@, i as int),
            slack_idx <= i,
            a@.len() == i,
            b@.len() == i,
            forall|x: int| 0 <= x < i ==> (#[trigger] a@[x])@.len() == n,
            forall|x: int| 0 <= x < i ==> rwf((#[trigger] a@[x])@),
            forall|x: int, j: int|
                0 <= x < i && 0 <= j < vars ==> (#[trigger] a@[x]@[j])@ == (
                if signs@[x] is GreaterEq {
                    frac_neg(coeffs@[x]@[j]@)
                } else {
                    coeffs@[x]@[j]@
                }),
            forall|x: int, k: int|
                0 <= x < i && 0 <= k < sc ==> (#[trigger] a@[x]@[vars as int + k])@ == (
                if needs_slack(signs@[x]) && k == slack_count_prefix(signs@, x) {
                    frac_int(1)
                } else {
                    frac_int(0)
                }),
            forall|x: int| 0 <= x < i ==> (#[trigger] b@[x]).wf(),
            forall|x: int|
                0 <= x < i ==> (#[trigger] b@[x])@ == (if signs@[x] is GreaterEq {
                    frac_neg(rhs@[x]@)
                } else {
                    rhs@[x]@
                }),
        decreases m - i,
    {
        let negate: bool = match signs[i] {
            ConstraintSign::GreaterEq => true,
            _ => false,
        };
        let slacked: bool = match signs[i] {
            ConstraintSign::Equal => false,
            _ => true,
        };
        let mut row: Vec<Rat> = Vec::new();
        let mut j: usize = 0;
        while j < vars
            invariant
                mat_ok(coeffs@),
                signs@.len() == coeffs@.len(),
                m == coeffs@.len(),
                vars == coeffs@[0]@.len(),
                i < m,
                j <= vars,
                negate == signs@[i as int] is GreaterEq,
                row@.len() == j,
                forall|y: int| 0 <= y < j ==> (#[trigger] row@[y]).wf(),
                forall|y: int|
                    0 <= y < j ==> (#[trigger] row@[y])@ == (if signs@[i as int] is GreaterEq {
                        frac_neg(coeffs@[i as int]@[y]@)
                    } else {
                        coeffs@[i as int]@[y]@
                    }),
            decreases vars - j,
        {
            proof {
                assert(rwf(coeffs@[i as int]@));
            }
            if negate {
                row.push(coeffs[i][j].neg());
            } else {
                row.push(coeffs[i][j]);
            }
            j = j + 1;
        }
        let mut k: usize = 0;
        while k < sc
            invariant
                i < m,
                signs@.len() == coeffs@.len(),
                m == coeffs@.len(),
                k <= sc,
                slacked == needs_slack(signs@[i as int]),
                slack_idx == slack_count_prefix(signs@, i as int),
                row@.len() == vars + k,
                forall|y: int| 0 <= y < vars + k ==> (#[trigger] row@[y]).wf(),
                forall|y: int|
                    0 <= y < vars ==> (#[trigger] row@[y])@ == (
                    if signs@[i as int] is GreaterEq {
                        frac_neg(coeffs@[i as int]@[y]@)
                    } else {
                        coeffs@[i as int]@[y]@
                    }),
                forall|y: int|
                    vars <= y < vars + k ==> (#[trigger] row@[y])@ == (
                    if needs_slack(signs@[i as int]) && y - vars == slack_count_prefix(
                        signs@,
                        i as int,
                    ) {
                        frac_int(1)
                    } else {
                        frac_int(0)
                    }),
            decreases sc - k,
        {
            if slacked && k == slack_idx {
                row.push(Rat::one());
            } else {
                row.push(Rat::zero());
            }
            k = k + 1;
        }
        a.push(row);
        proof {
            assert(rhs@[i as int].wf());
        }
        if negate {
            b.push(rhs[i].neg());
        } else {
            b.push(rhs[i]);
        }
        if slacked {
            slack_idx = slack_idx + 1;
        }
        i = i + 1;
    }
    let mut c: Vec<Rat> = Vec::new();
    let mut j: usize = 0;
    while j < vars
        invariant
            rwf(objective@),
            vars == objective@.len(),
            j <= vars,
            c@.len() == j,
            forall|y: int| 0 <= y < j ==> #[trigger] c@[y] == objective@[y],
        decreases vars - j,
    {
        c.push(objective[j]);
        j = j + 1;
    }
    let mut k: usize = 0;
    while k < sc
        invariant
            rwf(objective@),
            vars == objective@.len(),
            k <= sc,
            c@.len() == vars + k,
            forall|y: int| 0 <= y < vars ==> #[trigger] c@[y] == objective@[y],
            forall|y: int| vars <= y < vars + k ==> (#[trigger] c@[y])@ == frac_int(0),
        decreases sc - k,
    {
        c.push(Rat::zero());
        k = k + 1;
    }
    proof {
        assert forall|y: int| 0 <= y < c@.len() implies (#[trigger] c@[y]).wf() by {
            if y < vars {
                assert(objective@[y].wf());
            }
        }
    }
    (a, b, c)
}

/// Flips the sign of every cost coefficient when the original problem is
/// a maximization, so that the engine always minimizes.
pub fn orient_cost(objective: &Vec<Rat>, maximize: bool) -> (r: Vec<Rat>)
    requires
        rwf(objective@),
    ensures
        rwf(r@),
        r@.len() == objective@.len(),
        forall|i: int|
            0 <= i < r@.len() ==> (#[trigger] r@[i])@ == (if maximize {
                frac_neg(objective@[i]@)
            } else {
                objective@[i]@
            }),
{
    let mut out: Vec<Rat> = Vec::new();
    let mut i: usize = 0;
    while i < objective.len()
        invariant
            rwf(objective@),
            i <= objective@.len(),
            out@.len() == i,
            forall|y: int| 0 <= y < i ==> (#[trigger] out@[y]).wf(),
            forall|y: int|
                0 <= y < i ==> (#[trigger] out@[y])@ == (if maximize {
                    frac_neg(objective@[y]@)
                } else {
                    objective@[y]@
                }),
        decreases objective@.len() - i,
    {
        proof {
            assert(objective@[i as int].wf());
        }
        if maximize {
            out.push(objective[i].neg());
        } else {
            out.push(objective[i]);
        }
        i = i + 1;
    }
    out
}

/// Repairs a starting point of the wrong length: provided entries are
/// floored at `1 / 10000`, missing entries become one, extra entries are
/// dropped.  A point that already has length `n` is kept as it is.
pub fn prepare_initial_point(initial: &Vec<Rat>, n: usize) -> (r: Vec<Rat>)
    requires
        rwf(initial@),
    ensures
        rwf(r@),
        r@.len() == n,
        initial@.len() == n ==> r@ == initial@,
        initial@.len() != n ==> forall|i: int|
            0 <= i < n ==> (if i < initial@.len() {
                frac_eq((#[trigger] r@[i])@, frac_max(initial@[i]@, start_floor()))
            } else {
                (r@[i])@ == frac_int(1)
            }),
{
    if initial.len() == n {
        return crate::matrix::vec_copy(initial);
    }
    let floor: Rat = match Rat::new(1, 10000) {
        Some(v) => v,
        None => Rat::zero(),
    };
    let mut out: Vec<Rat> = Vec::new();
    let mut i: usize = 0;
    while i < n
        invariant
            rwf(initial@),
            floor.wf(),
            frac_eq(floor@, start_floor()),
            i <= n,
            out@.len() == i,
            forall|y: int| 0 <= y < i ==> (#[trigger] out@[y]).wf(),
            forall|y: int|
                0 <= y < i ==> (if y < initial@.len() {
                    frac_eq((#[trigger] out@[y])@, frac_max(initial@[y]@, start_floor()))
                } else {
                    (out@[y])@ == frac_int(1)
                }),
        decreases n - i,
    {
        if i < initial.len() {
            proof {
                assert(initial@[i as int].wf());
            }
            let e: Rat = initial[i].max_of(&floor);
            proof {
                lemma_frac_le_congruence(initial@[i as int]@, initial@[i as int]@, floor@, start_floor());
            }
            out.push(e);
        } else {
            out.push(Rat::one());
        }
        i = i + 1;
    }
    out
}

} // verus!
