//! The classifier: reads a reduced matrix row by row and says whether the
//! system has no solution, infinitely many, or exactly one.
//!
//! A row is read through its lead: the column of its first entry that
//! exceeds the tolerance, if it has one. A lead in a variable column is a
//! pivot; a lead in the constant column makes the row read `0 = nonzero`.

use vstd::prelude::*;
use crate::matrix::Matrix;
use crate::scalar::{exceeds_tolerance, judged_exceeding, Scalar};

verus! {

/// The kind of solution set, without the solution itself.
#[derive(Debug, Clone, Copy, PartialEq, Eq, Structural)]
pub enum Verdict {
    /// Some row reads `0 = nonzero`.
    Inconsistent,
    /// Consistent, with fewer pivots than variables.
    Infinite,
    /// Consistent, with as many pivots as variables.
    Unique,
}

/// The classification of a system; `Unique` carries one value per variable.
#[derive(Debug)]
pub enum SolutionType<T> {
    /// No assignment satisfies all equations.
    Inconsistent,
    /// Free variables exist.
    Infinite,
    /// The one solution, indexed by variable.
    Unique(Vec<T>),
}

/// The lead stands in a variable column.
pub open spec fn is_pivot(lead: Option<usize>, vars: nat) -> bool {
    lead matches Some(c) && c < vars
}

/// The lead stands in the constant column: the row reads `0 = nonzero`.
pub open spec fn contradicts(lead: Option<usize>, vars: nat) -> bool {
    lead matches Some(c) && c == vars
}

/// Some row has its lead in the constant column.
pub open spec fn has_contradiction(leads: Seq<Option<usize>>, vars: nat) -> bool {
    exists|r: int| 0 <= r < leads.len() && contradicts(#[trigger] leads[r], vars)
}

/// The number of pivots among the first `upto` rows.
pub open spec fn rank_upto(leads: Seq<Option<usize>>, vars: nat, upto: int) -> nat
    decreases upto,
{
    if upto <= 0 {
        0
    } else {
        rank_upto(leads, vars, upto - 1) + if is_pivot(leads[upto - 1], vars) {
            1nat
        } else {
            0nat
        }
    }
}

/// The rank: the number of rows with a pivot.
pub open spec fn rank(leads: Seq<Option<usize>>, vars: nat) -> nat {
    rank_upto(leads, vars, leads.len() as int)
}

/// The verdict on a system of `vars` variables whose rows have these leads.
pub open spec fn verdict_of(leads: Seq<Option<usize>>, vars: nat) -> Verdict {
    if has_contradiction(leads, vars) {
        Verdict::Inconsistent
    } else if rank(leads, vars) == vars {
        Verdict::Unique
    } else {
        Verdict::Infinite
    }
}

/// The lead stands in column `col`.
pub open spec fn leads_at(lead: Option<usize>, col: int) -> bool {
    lead matches Some(c) && c == col
}

/// The last of the first `upto` rows whose lead is column `col`, if there is one.
pub open spec fn row_leading(leads: Seq<Option<usize>>, col: int, upto: int) -> Option<int>
    decreases upto,
{
    if upto <= 0 {
        None
    } else if leads_at(leads[upto - 1], col) {
        Some(upto - 1)
    } else {
        row_leading(leads, col, upto - 1)
    }
}

/// The value that the first `upto` rows give to variable `var`: the constant
/// of the last of them whose pivot stands in its column, and `zero` where
/// none has one.
pub open spec fn value_upto<T>(
    grid: Seq<Seq<T>>,
    leads: Seq<Option<usize>>,
    var: int,
    zero: T,
    upto: int,
) -> T {
    match row_leading(leads, var, upto) {
        Some(r) => grid[r].last(),
        None => zero,
    }
}

/// The value of variable `var`: the constant of the row whose pivot stands in
/// its column (of the last such row, should there be several), and `zero`
/// where no row has one.
pub open spec fn value_of<T>(grid: Seq<Seq<T>>, leads: Seq<Option<usize>>, var: int, zero: T) -> T {
    value_upto(grid, leads, var, zero, leads.len() as int)
}

/// No two rows have their pivot in the same column.
pub open spec fn pivots_distinct(leads: Seq<Option<usize>>, vars: nat) -> bool {
    forall|r1: int, r2: int|
        0 <= r1 < r2 < leads.len() && is_pivot(#[trigger] leads[r1], vars) && is_pivot(
            #[trigger] leads[r2],
            vars,
        ) ==> leads[r1] != leads[r2]
}

/// `lead` is the lead that the scalar's answers give to `row`: the entry in
/// that column was found to exceed the tolerance and no entry left of it was;
/// where the row has no lead, no entry of it was found to exceed the tolerance.
pub open spec fn lead_judged<T: Scalar>(row: Seq<T>, lead: Option<usize>) -> bool {
    match lead {
        Some(c) => c < row.len() && judged_exceeding(row[c as int], true) && forall|k: int|
            0 <= k < c ==> judged_exceeding(#[trigger] row[k], false),
        None => forall|k: int| 0 <= k < row.len() ==> judged_exceeding(#[trigger] row[k], false),
    }
}

/// `leads` holds, row by row, the leads that the scalar's answers give to `grid`.
pub open spec fn leads_judged<T: Scalar>(grid: Seq<Seq<T>>, leads: Seq<Option<usize>>) -> bool {
    &&& leads.len() == grid.len()
    &&& forall|r: int| 0 <= r < leads.len() ==> lead_judged(grid[r], #[trigger] leads[r])
}

/// `res` is the classification of the system `grid` whose rows have the leads
/// `leads`: the verdict on the leads, and with a unique solution the value of
/// each variable, `zero` standing for a variable that no row determines.
pub open spec fn classified<T>(
    grid: Seq<Seq<T>>,
    leads: Seq<Option<usize>>,
    zero: T,
    res: SolutionType<T>,
) -> bool {
    match verdict_of(leads, (grid[0].len() - 1) as nat) {
        Verdict::Inconsistent => res is Inconsistent,
        Verdict::Infinite => res is Infinite,
        Verdict::Unique => res matches SolutionType::Unique(s) && s@.len() == grid[0].len() - 1
            && forall|j: int| 0 <= j < s@.len() ==> #[trigger] s@[j] == value_of(grid, leads, j, zero),
    }
}

/// Finds the lead of each row: the column of its first entry that is found
/// to exceed the tolerance.
pub fn leading_columns<T: Scalar>(m: &Matrix<T>) -> (leads: Vec<Option<usize>>)
    requires
        m.wf(),
    ensures
        leads@.len() == m.nrows(),
        forall|r: int|
            0 <= r < leads@.len() ==> (#[trigger] leads@[r] matches Some(c) ==> c < m.ncols()),
        leads_judged(m@, leads@),
{
    let rows: usize = m.rows();
    let cols: usize = m.cols();
    let mut leads: Vec<Option<usize>> = Vec::new();
    let mut r: usize = 0;
    while r < rows
        invariant
            m.wf(),
            rows == m.nrows(),
            cols == m.ncols(),
            r <= rows,
            leads@.len() == r,
            forall|k: int| 0 <= k < leads@.len() ==> (#[trigger] leads@[k] matches Some(c) ==> c < cols),
            forall|k: int| 0 <= k < leads@.len() ==> lead_judged(m@[k], #[trigger] leads@[k]),
        decreases rows - r,
    {
        let mut lead: Option<usize> = None;
        let mut c: usize = 0;
        while c < cols && lead.is_none()
            invariant
                m.wf(),
                r < m.nrows(),
                cols == m.ncols(),
                c <= cols,
                lead matches Some(at) ==> at < cols && at == c && judged_exceeding(
                    m@[r as int][at as int],
                    true,
                ),
                forall|k: int| 0 <= k < c ==> judged_exceeding(#[trigger] m@[r as int][k], false),
            decreases (cols - c) + (if lead.is_none() { 1int } else { 0int }),
        {
            if exceeds_tolerance(*m.get(r, c)) {
                lead = Some(c);
            } else {
                c += 1;
            }
        }
        leads.push(lead);
        r += 1;
    }
    leads
}

/// The rank: counts the rows whose lead stands in a variable column.
pub fn count_pivots(leads: &Vec<Option<usize>>, vars: usize) -> (n: usize)
    ensures
        n == rank(leads@, vars as nat),
{
    let mut n: usize = 0;
    let mut r: usize = 0;
    while r < leads.len()
        invariant
            r <= leads.len(),
            n == rank_upto(leads@, vars as nat, r as int),
            n <= r,
        decreases leads.len() - r,
    {
        match leads[r] {
            Some(c) => {
                if c < vars {
                    n += 1;
                }
            },
            None => {},
        }
        r += 1;
    }
    n
}

/// Decides the kind of solution set from the leads alone. A row with its lead
/// in the constant column makes the system inconsistent whatever the other
/// rows hold; otherwise the system has one solution exactly when the rank
/// equals the number of variables.
pub fn verdict(leads: &Vec<Option<usize>>, vars: usize) -> (v: Verdict)
    ensures
        v == verdict_of(leads@, vars as nat),
{
    let mut pivots: usize = 0;
    let mut r: usize = 0;
    while r < leads.len()
        invariant
            r <= leads.len(),
            pivots == rank_upto(leads@, vars as nat, r as int),
            pivots <= r,
            forall|k: int| 0 <= k < r ==> !contradicts(#[trigger] leads@[k], vars as nat),
        decreases leads.len() - r,
    {
        match leads[r] {
            Some(c) => {
                if c == vars {
                    assert(contradicts(leads@[r as int], vars as nat));
                    return Verdict::Inconsistent;
                } else if c < vars {
                    pivots += 1;
                }
            },
            None => {},
        }
        r += 1;
    }
    if pivots == vars {
        Verdict::Unique
    } else {
        Verdict::Infinite
    }
}

/// Reads the solution off a reduced matrix: variable `j` gets the constant of
/// the row whose pivot stands in column `j`, and `zero` where there is none.
pub fn solution_from<T: Copy>(m: &Matrix<T>, leads: &Vec<Option<usize>>, zero: T) -> (solution:
    Vec<T>)
    requires
        m.wf(),
        leads@.len() == m.nrows(),
    ensures
        solution@.len() == m.nvars(),
        forall|j: int|
            0 <= j < solution@.len() ==> #[trigger] solution@[j] == value_of(m@, leads@, j, zero),
{
    let vars: usize = m.vars();
    let mut solution: Vec<T> = Vec::new();
    let mut j: usize = 0;
    while j < vars
        invariant
            j <= vars,
            solution@.len() == j,
            forall|k: int| 0 <= k < j ==> #[trigger] solution@[k] == zero,
        decreases vars - j,
    {
        solution.push(zero);
        j += 1;
    }
    let mut r: usize = 0;
    while r < leads.len()
        invariant
            m.wf(),
            vars == m.nvars(),
            leads@.len() == m.nrows(),
            r <= leads.len(),
            solution@.len() == vars,
            forall|k: int|
                0 <= k < vars ==> #[trigger] solution@[k] == value_upto(m@, leads@, k, zero, r as int),
        decreases leads.len() - r,
    {
        match leads[r] {
            Some(c) => {
                if c < vars {
                    let constant: T = *m.get(r, vars);
                    solution.set(c, constant);
                }
            },
            None => {},
        }
        r += 1;
    }
    solution
}

/// Classifies a system from its reduced matrix and the leads of its rows;
/// `zero` is the value of a variable that no row determines.
pub fn classify<T: Copy>(m: &Matrix<T>, leads: &Vec<Option<usize>>, zero: T) -> (res: SolutionType<
    T,
>)
    requires
        m.wf(),
        leads@.len() == m.nrows(),
    ensures
        match verdict_of(leads@, m.nvars()) {
            Verdict::Inconsistent => res is Inconsistent,
            Verdict::Infinite => res is Infinite,
            Verdict::Unique => res matches SolutionType::Unique(s) && s@.len() == m.nvars()
                && forall|j: int|
                0 <= j < s@.len() ==> #[trigger] s@[j] == value_of(m@, leads@, j, zero),
        },
{
    let vars: usize = m.vars();
    match verdict(leads, vars) {
        Verdict::Inconsistent => SolutionType::Inconsistent,
        Verdict::Infinite => SolutionType::Infinite,
        Verdict::Unique => SolutionType::Unique(solution_from(m, leads, zero)),
    }
}

/// The classifier: finds the lead of each row of the reduced matrix `m` and
/// classifies the system by them. The result is the classification by the
/// leads that the scalar's answers give to the rows, with a zero that the
/// scalar gives. A unique solution has one value per variable.
pub fn analyze_rref<T: Scalar>(m: &Matrix<T>) -> (res: SolutionType<T>)
    requires
        m.wf(),
    ensures
        res matches SolutionType::Unique(s) ==> s@.len() == m.nvars(),
        exists|leads: Seq<Option<usize>>, zero: T|
            leads_judged(m@, leads) && call_ensures(T::zero, (), zero) && #[trigger] classified(
                m@,
                leads,
                zero,
                res,
            ),
{
    let leads: Vec<Option<usize>> = leading_columns(m);
    let zero: T = T::zero();
    let res = classify(m, &leads, zero);
    assert(classified(m@, leads@, zero, res));
    res
}

/// What `row_leading` finds is a row before `upto` with that lead, and the
/// last such; where it finds none, no row before `upto` has that lead.
pub proof fn lemma_row_leading(leads: Seq<Option<usize>>, col: usize, upto: int)
    requires
        0 <= upto <= leads.len(),
    ensures
        match row_leading(leads, col as int, upto) {
            Some(r) => 0 <= r < upto && leads[r] == Some(col) && forall|k: int|
                r < k < upto ==> leads[k] != Some(col),
            None => forall|k: int| 0 <= k < upto ==> leads[k] != Some(col),
        },
    decreases upto,
{
    if upto > 0 && !leads_at(leads[upto - 1], col as int) {
        lemma_row_leading(leads, col, upto - 1);
    }
}

proof fn lemma_rank_step(leads: Seq<Option<usize>>, vars: usize, upto: int)
    requires
        vars > 0,
        0 <= upto <= leads.len(),
        pivots_distinct(leads, vars as nat),
    ensures
        rank_upto(leads, vars as nat, upto) <= rank_upto(leads, (vars - 1) as nat, upto) + (
        if row_leading(leads, vars - 1, upto).is_some() {
            1nat
        } else {
            0nat
        }),
    decreases upto,
{
    if upto > 0 {
        lemma_rank_step(leads, vars, upto - 1);
        let last: usize = (vars - 1) as usize;
        if leads[upto - 1] == Some(last) {
            lemma_row_leading(leads, last, upto - 1);
            if row_leading(leads, vars - 1, upto - 1) is Some {
                let r = row_leading(leads, vars - 1, upto - 1).unwrap();
                assert(is_pivot(leads[r], vars as nat));
                assert(is_pivot(leads[upto - 1], vars as nat));
                assert(false);
            }
        }
    }
}

proof fn lemma_rank_upto_bounded(leads: Seq<Option<usize>>, vars: usize, upto: int)
    requires
        0 <= upto <= leads.len(),
        pivots_distinct(leads, vars as nat),
    ensures
        rank_upto(leads, vars as nat, upto) <= vars,
    decreases vars, upto,
{
    if vars == 0 {
        if upto > 0 {
            lemma_rank_upto_bounded(leads, vars, upto - 1);
        }
    } else {
        assert(pivots_distinct(leads, (vars - 1) as nat));
        lemma_rank_upto_bounded(leads, (vars - 1) as usize, upto);
        lemma_rank_step(leads, vars, upto);
    }
}

/// Rank and classification agree. Where no two rows share a pivot column, as
/// in a reduced matrix, the rank is at most the number of variables. For
/// every matrix the verdict is `Unique` exactly when the rank equals the
/// number of variables and no row reads `0 = nonzero`, and `Inconsistent`
/// exactly when some row does.
pub proof fn lemma_rank_classification(leads: Seq<Option<usize>>, vars: usize)
    ensures
        pivots_distinct(leads, vars as nat) ==> rank(leads, vars as nat) <= vars,
        verdict_of(leads, vars as nat) == Verdict::Unique <==> rank(leads, vars as nat) == vars
            && !has_contradiction(leads, vars as nat),
        verdict_of(leads, vars as nat) == Verdict::Inconsistent <==> has_contradiction(
            leads,
            vars as nat,
        ),
        verdict_of(leads, vars as nat) == Verdict::Infinite <==> rank(leads, vars as nat) != vars
            && !has_contradiction(leads, vars as nat),
{
    if pivots_distinct(leads, vars as nat) {
        lemma_rank_upto_bounded(leads, vars, leads.len() as int);
    }
}

/// Where no two rows share a pivot column, the value of a variable is the
/// constant of the one row whose pivot stands in its column.
pub proof fn lemma_value_of_pivot_row<T>(
    grid: Seq<Seq<T>>,
    leads: Seq<Option<usize>>,
    vars: usize,
    row: int,
    var: usize,
    zero: T,
)
    requires
        pivots_distinct(leads, vars as nat),
        0 <= row < leads.len(),
        var < vars,
        leads[row] == Some(var),
    ensures
        value_of(grid, leads, var as int, zero) == grid[row].last(),
{
    lemma_row_leading(leads, var, leads.len() as int);
    let found = row_leading(leads, var as int, leads.len() as int);
    assert(found is Some);
    let r = found.unwrap();
    if r != row {
        assert(is_pivot(leads[r], vars as nat));
        assert(is_pivot(leads[row], vars as nat));
        assert(false);
    }
}

/// Leads that follow pivot columns growing with the row, as the reduction
/// engine reports them, are pairwise distinct, so the rank they give is at
/// most the number of variables.
pub proof fn lemma_ordered_pivots_bound_rank(
    pivots: Seq<usize>,
    leads: Seq<Option<usize>>,
    vars: usize,
)
    requires
        pivots.len() <= leads.len(),
        forall|i: int, j: int| 0 <= i < j < pivots.len() ==> pivots[i] < pivots[j],
        forall|i: int| 0 <= i < pivots.len() ==> #[trigger] leads[i] == Some(pivots[i]),
        forall|i: int| pivots.len() <= i < leads.len() ==> !is_pivot(#[trigger] leads[i], vars as nat),
    ensures
        pivots_distinct(leads, vars as nat),
        rank(leads, vars as nat) <= vars,
{
    assert(pivots_distinct(leads, vars as nat)) by {
        assert forall|r1: int, r2: int|
            0 <= r1 < r2 < leads.len() && is_pivot(#[trigger] leads[r1], vars as nat) && is_pivot(
                #[trigger] leads[r2],
                vars as nat,
            ) implies leads[r1] != leads[r2] by {
            assert(r2 < pivots.len());
            assert(pivots[r1] < pivots[r2]);
        }
    }
    lemma_rank_classification(leads, vars);
}

} // verus!
