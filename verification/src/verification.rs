//! Verification of a solution against the equations as they were given: each
//! left-hand side is computed from the coefficients and compared with the
//! constant.

use vstd::prelude::*;
use crate::matrix::Matrix;
use crate::scalar::{judged_exceeding, Scalar};
use crate::reduce::{column_flags, find_pivot, first_set_from, lemma_first_set_from};

verus! {

/// The solution has not one value per variable.
#[derive(Debug, Clone, Copy, PartialEq, Eq, Structural)]
pub struct VerificationShapeMismatch {
    /// Length of the solution that was given.
    pub solution_len: usize,
    /// Number of variables of the system.
    pub vars: usize,
}

/// One equation, evaluated at the solution.
#[derive(Debug)]
pub struct EquationResidual<T> {
    /// The sum of coefficient times value over the variables.
    pub lhs: T,
    /// The constant of the equation.
    pub rhs: T,
    /// The magnitude of `lhs - rhs`.
    pub residual: T,
}

/// The outcome of a verification.
#[derive(Debug)]
pub enum Verification<T> {
    /// No variable, and every equation reads `0 = 0`.
    TriviallySatisfied,
    /// No variable, and some equation has a nonzero constant.
    TriviallyViolated,
    /// One entry per equation, in order, and the greatest residual.
    Residuals { equations: Vec<EquationResidual<T>>, worst: T },
}

/// Some flag is set.
pub open spec fn any_set(flags: Seq<bool>) -> bool {
    exists|i: int| 0 <= i < flags.len() && flags[i]
}

/// Whether a system without variables is violated: `flags[i]` says whether
/// the constant of equation `i` exceeds the tolerance.
pub fn constants_violate(flags: &Vec<bool>) -> (violated: bool)
    ensures
        violated == any_set(flags@),
{
    let found: Option<usize> = find_pivot(flags, 0);
    proof {
        lemma_first_set_from(flags@, 0);
        if first_set_from(flags@, 0) is Some {
            assert(flags@[first_set_from(flags@, 0).unwrap()]);
        }
    }
    found.is_some()
}

/// `total` is what the scalar may give for `before + a * b`: the product by
/// `times`, then the sum by `plus`.
pub open spec fn accumulated<T: Scalar>(before: T, a: T, b: T, total: T) -> bool {
    exists|term: T|
        call_ensures(T::times, (a, b), term) && #[trigger] call_ensures(
            T::plus,
            (before, term),
            total,
        )
}

/// `sums` holds the sums on the way over the first `upto` variables: it
/// begins with `start`, ends with `total`, and each sum is what the scalar
/// may give for the one before plus the next coefficient times its value.
pub open spec fn partial_sums<T: Scalar>(
    sums: Seq<T>,
    row: Seq<T>,
    solution: Seq<T>,
    start: T,
    upto: int,
    total: T,
) -> bool {
    &&& sums.len() == upto + 1
    &&& sums[0] == start
    &&& sums[upto] == total
    &&& forall|k: int|
        0 <= k < upto ==> accumulated(sums[k], row[k], solution[k], #[trigger] sums[k + 1])
}

/// `total` is what the scalar may give as the sum, from `start` on, of
/// coefficient times value over the first `upto` variables in order: each
/// product by `times`, each sum by `plus` of the sum so far and the product.
pub open spec fn summed<T: Scalar>(
    row: Seq<T>,
    solution: Seq<T>,
    start: T,
    upto: int,
    total: T,
) -> bool {
    exists|sums: Seq<T>| #[trigger] partial_sums(sums, row, solution, start, upto, total)
}

/// `residual` is what the scalar may give for the magnitude of `lhs - rhs`.
pub open spec fn residual_of<T: Scalar>(lhs: T, rhs: T, residual: T) -> bool {
    exists|d: T|
        call_ensures(T::minus, (lhs, rhs), d) && #[trigger] call_ensures(
            T::magnitude,
            (d, ),
            residual,
        )
}

/// `equations` reports the equations of `grid` at `solution`, one by one and
/// in order: the constant as right-hand side, the sum from `zero` on of
/// coefficient times value as left-hand side, and the magnitude of their
/// difference as residual.
pub open spec fn residuals_verified<T: Scalar>(
    grid: Seq<Seq<T>>,
    solution: Seq<T>,
    zero: T,
    equations: Seq<EquationResidual<T>>,
) -> bool {
    &&& equations.len() == grid.len()
    &&& forall|i: int|
        0 <= i < equations.len() ==> {
            &&& (#[trigger] equations[i]).rhs == grid[i].last()
            &&& summed(grid[i], solution, zero, grid[i].len() - 1, equations[i].lhs)
            &&& residual_of(equations[i].lhs, equations[i].rhs, equations[i].residual)
        }
}

/// `bests` holds the greatest residual so far on the way through
/// `equations`: it begins with `zero`, ends with `worst`, and each is what
/// the scalar may give as the greater of the one before and the next residual.
pub open spec fn greatest_so_far<T: Scalar>(
    bests: Seq<T>,
    equations: Seq<EquationResidual<T>>,
    zero: T,
    worst: T,
) -> bool {
    &&& bests.len() == equations.len() + 1
    &&& bests[0] == zero
    &&& bests[equations.len() as int] == worst
    &&& forall|k: int|
        0 <= k < equations.len() ==> call_ensures(
            T::larger,
            (bests[k], equations[k].residual),
            #[trigger] bests[k + 1],
        )
}

/// `worst` is the greatest residual of `equations`: what the scalar may give
/// when the greater of two is taken residual by residual, from `zero` on.
pub open spec fn worst_of<T: Scalar>(equations: Seq<EquationResidual<T>>, zero: T, worst: T) -> bool {
    exists|bests: Seq<T>| #[trigger] greatest_so_far(bests, equations, zero, worst)
}

/// `equations` and `worst` report the equations of `grid` at `solution`, the
/// sums and the greatest residual starting from a zero that the scalar gives.
pub open spec fn residuals_reported<T: Scalar>(
    grid: Seq<Seq<T>>,
    solution: Seq<T>,
    equations: Seq<EquationResidual<T>>,
    worst: T,
) -> bool {
    exists|zero: T|
        call_ensures(T::zero, (), zero) && worst_of(equations, zero, worst)
            && #[trigger] residuals_verified(grid, solution, zero, equations)
}

/// The left-hand side of equation `row` at `solution`: the sum, from `start`
/// on, of coefficient times value over the variable columns in order.
fn left_hand_side<T: Scalar>(m: &Matrix<T>, row: usize, solution: &Vec<T>, start: T) -> (lhs: T)
    requires
        m.wf(),
        row < m.nrows(),
        solution@.len() == m.nvars(),
    ensures
        summed(m@[row as int], solution@, start, m.nvars() as int, lhs),
{
    let vars: usize = m.vars();
    let mut lhs: T = start;
    let ghost mut sums: Seq<T> = seq![start];
    let mut j: usize = 0;
    while j < vars
        invariant
            m.wf(),
            row < m.nrows(),
            vars == m.nvars(),
            solution@.len() == vars,
            j <= vars,
            partial_sums(sums, m@[row as int], solution@, start, j as int, lhs),
        decreases vars - j,
    {
        let ghost before = sums;
        let term: T = m.get(row, j).times(solution[j]);
        lhs = lhs.plus(term);
        proof {
            sums = before.push(lhs);
            assert(accumulated(before[j as int], m@[row as int][j as int], solution@[j as int], lhs));
            assert forall|k: int| 0 <= k < j + 1 implies accumulated(
                sums[k],
                m@[row as int][k],
                solution@[k],
                #[trigger] sums[k + 1],
            ) by {
                if k < j {
                    assert(sums[k] == before[k]);
                    assert(sums[k + 1] == before[k + 1]);
                }
            }
        }
        j += 1;
    }
    lhs
}

/// The verifier: substitutes `solution` into the equations of `system`, the
/// matrix as it was before reduction.
/// A solution without one value per variable is refused. A system without
/// variables is judged by its constants alone. Otherwise each equation is
/// reported with its two sides and its residual, and with them the greatest
/// residual of all.
pub fn verify_solution<T: Scalar>(system: &Matrix<T>, solution: &Vec<T>) -> (res: Result<
    Verification<T>,
    VerificationShapeMismatch,
>)
    requires
        system.wf(),
    ensures
        res.is_err() <==> solution@.len() != system.nvars(),
        res matches Err(e) ==> e.solution_len == solution@.len() && e.vars == system.nvars(),
        res matches Ok(v) ==> (system.nvars() == 0 <==> (v is TriviallySatisfied
            || v is TriviallyViolated)),
        res matches Ok(Verification::Residuals { equations, worst }) ==> equations@.len()
            == system.nrows() && forall|i: int|
            0 <= i < equations@.len() ==> (#[trigger] equations@[i]).rhs == system@[i].last(),
        res matches Ok(Verification::Residuals { equations, worst }) ==> residuals_reported(
            system@,
            solution@,
            equations@,
            worst,
        ),
        res matches Ok(Verification::TriviallyViolated) ==> exists|r: int|
            0 <= r < system@.len() && judged_exceeding(#[trigger] system@[r][0], true),
        res matches Ok(Verification::TriviallySatisfied) ==> forall|r: int|
            0 <= r < system@.len() ==> judged_exceeding(#[trigger] system@[r][0], false),
{
    let rows: usize = system.rows();
    let vars: usize = system.vars();
    if solution.len() != vars {
        return Err(VerificationShapeMismatch { solution_len: solution.len(), vars });
    }
    if vars == 0 {
        let flags: Vec<bool> = column_flags(system, 0);
        if constants_violate(&flags) {
            proof {
                let r = choose|r: int| 0 <= r < flags@.len() && flags@[r];
                assert(judged_exceeding(system@[r][0], flags@[r]));
            }
            return Ok(Verification::TriviallyViolated);
        }
        assert forall|r: int| 0 <= r < system@.len() implies judged_exceeding(
            #[trigger] system@[r][0],
            false,
        ) by {
            assert(judged_exceeding(system@[r][0], flags@[r]));
        }
        return Ok(Verification::TriviallySatisfied);
    }
    let zero: T = T::zero();
    let mut worst: T = zero;
    let mut equations: Vec<EquationResidual<T>> = Vec::new();
    let ghost mut bests: Seq<T> = seq![zero];
    let mut i: usize = 0;
    while i < rows
        invariant
            system.wf(),
            rows == system.nrows(),
            vars == system.nvars(),
            solution@.len() == vars,
            i <= rows,
            equations@.len() == i,
            forall|k: int|
                0 <= k < equations@.len() ==> (#[trigger] equations@[k]).rhs == system@[k].last(),
            call_ensures(T::zero, (), zero),
            residuals_verified(system@.take(i as int), solution@, zero, equations@),
            greatest_so_far(bests, equations@, zero, worst),
        decreases rows - i,
    {
        let lhs: T = left_hand_side(system, i, solution, zero);
        let rhs: T = *system.get(i, vars);
        let residual: T = lhs.minus(rhs).magnitude();
        let ghost prior = bests;
        let ghost best = worst;
        worst = worst.larger(residual);
        proof {
            assert(call_ensures(T::larger, (best, residual), worst));
            bests = prior.push(worst);
        }
        proof {
            assert(residual_of(lhs, rhs, residual));
            assert(system@[i as int].len() - 1 == vars);
        }
        equations.push(EquationResidual { lhs, rhs, residual });
        proof {
            assert forall|k: int| 0 <= k < equations@.len() implies call_ensures(
                T::larger,
                (bests[k], equations@[k].residual),
                #[trigger] bests[k + 1],
            ) by {
                if k < i {
                    assert(bests[k] == prior[k]);
                    assert(bests[k + 1] == prior[k + 1]);
                } else {
                    assert(bests[k] == best);
                    assert(bests[k + 1] == worst);
                }
            }
            assert forall|k: int| 0 <= k < equations@.len() implies {
                &&& (#[trigger] equations@[k]).rhs == system@.take(i + 1)[k].last()
                &&& summed(
                    system@.take(i + 1)[k],
                    solution@,
                    zero,
                    system@.take(i + 1)[k].len() - 1,
                    equations@[k].lhs,
                )
                &&& residual_of(equations@[k].lhs, equations@[k].rhs, equations@[k].residual)
            } by {
                if k < i {
                    assert(system@.take(i + 1)[k] == system@.take(i as int)[k]);
                }
            }
        }
        i += 1;
    }
    proof {
        assert(system@.take(rows as int) =~= system@);
        assert(residuals_verified(system@, solution@, zero, equations@));
        assert(worst_of(equations@, zero, worst));
        assert(residuals_reported(system@, solution@, equations@, worst));
    }
    Ok(Verification::Residuals { equations, worst })
}

} // verus!
