//! The row reduction engine: Gauss-Jordan elimination in place, with a
//! search down the column for a usable pivot.

use vstd::prelude::*;
use crate::matrix::{rectangular, Matrix};
use crate::scalar::{
    below_tolerance, exceeds_tolerance, judged_below, judged_exceeding, negligible, Scalar,
};

verus! {

/// `b` has the rows of `a`, each of the same length.
pub open spec fn same_shape<T>(a: Seq<Seq<T>>, b: Seq<Seq<T>>) -> bool {
    &&& a.len() == b.len()
    &&& forall|r: int|
        #![trigger a[r]]
        #![trigger b[r]]
        0 <= r < a.len() ==> a[r].len() == b[r].len()
}

/// `a` and `b` hold the same entries in every column left of `col`.
pub open spec fn agree_left_of<T>(a: Seq<Seq<T>>, b: Seq<Seq<T>>, col: int) -> bool {
    forall|r: int, c: int|
        0 <= r < a.len() && 0 <= c < col && c < a[r].len() ==> (#[trigger] a[r][c]) == b[r][c]
}

/// Each column of `cols` lies left of the next one.
pub open spec fn strictly_increasing(cols: Seq<usize>) -> bool {
    forall|i: int, j: int| 0 <= i < j < cols.len() ==> cols[i] < cols[j]
}

/// Every pivot column is clear but for the pivot: in the column of the pivot
/// of row `i`, the entry of every other row counts as zero.
pub open spec fn columns_clear<T: Scalar>(grid: Seq<Seq<T>>, pivots: Seq<usize>, zero: T) -> bool {
    forall|i: int, k: int|
        0 <= i < pivots.len() && 0 <= k < grid.len() && k != i ==> negligible(
            #[trigger] grid[k][pivots[i] as int],
            zero,
        )
}

/// From row `from` on, every entry left of column `upto` counts as zero.
pub open spec fn rows_clear<T: Scalar>(grid: Seq<Seq<T>>, from: int, upto: int, zero: T) -> bool {
    forall|r: int, c: int|
        from <= r < grid.len() && 0 <= c < upto ==> negligible(#[trigger] grid[r][c], zero)
}

/// In every pivot row, every entry left of the pivot counts as zero.
pub open spec fn leads_clear<T: Scalar>(grid: Seq<Seq<T>>, pivots: Seq<usize>, zero: T) -> bool {
    forall|i: int, c: int|
        0 <= i < pivots.len() && 0 <= c < pivots[i] ==> negligible(#[trigger] grid[i][c], zero)
}

/// Reduced row-echelon form under the tolerance rule, with the pivot of row
/// `i` in column `pivots[i]`: the pivot columns are variable columns and grow
/// with the row; each pivot is `one`; in a pivot's column every other entry
/// counts as zero, and so does every entry left of a pivot; the rows below
/// the pivot rows hold nothing but such entries in the variable columns.
pub open spec fn reduced<T: Scalar>(grid: Seq<Seq<T>>, pivots: Seq<usize>, zero: T, one: T) -> bool {
    &&& pivots.len() <= grid.len()
    &&& strictly_increasing(pivots)
    &&& forall|i: int| 0 <= i < pivots.len() ==> (#[trigger] pivots[i]) < grid[0].len() - 1
    &&& forall|i: int| 0 <= i < pivots.len() ==> (#[trigger] grid[i])[pivots[i] as int] == one
    &&& columns_clear(grid, pivots, zero)
    &&& leads_clear(grid, pivots, zero)
    &&& rows_clear(grid, pivots.len() as int, grid[0].len() - 1, zero)
}

/// The first index from `from` on at which `flags` holds `true`, if there is one.
pub open spec fn first_set_from(flags: Seq<bool>, from: int) -> Option<int>
    decreases flags.len() - from,
{
    if from < 0 || from >= flags.len() {
        None
    } else if flags[from] {
        Some(from)
    } else {
        first_set_from(flags, from + 1)
    }
}

/// What `first_set_from` finds is set, is not before `from`, and has nothing set before it.
pub proof fn lemma_first_set_from(flags: Seq<bool>, from: int)
    requires
        0 <= from,
    ensures
        match first_set_from(flags, from) {
            Some(i) => from <= i < flags.len() && flags[i] && forall|k: int|
                from <= k < i ==> !flags[k],
            None => forall|k: int| from <= k < flags.len() ==> !flags[k],
        },
    decreases flags.len() - from,
{
    if from < flags.len() && !flags[from] {
        lemma_first_set_from(flags, from + 1);
    }
}

/// The pivot search on one column: `flags[i]` says whether the entry of row
/// `i` is usable as a pivot, and the first usable row from `from` on is chosen.
pub fn find_pivot(flags: &Vec<bool>, from: usize) -> (found: Option<usize>)
    ensures
        found.is_some() <==> first_set_from(flags@, from as int).is_some(),
        found matches Some(i) ==> first_set_from(flags@, from as int) == Some(i as int),
{
    let mut i: usize = from;
    while i < flags.len()
        invariant
            from <= i,
            first_set_from(flags@, from as int) == first_set_from(flags@, i as int),
        decreases flags.len() - i,
    {
        if flags[i] {
            return Some(i);
        }
        i += 1;
    }
    None
}

/// Asks of each entry of column `col` whether it exceeds the tolerance:
/// `flags[r]` is the scalar's answer for the entry of row `r`.
pub fn column_flags<T: Scalar>(m: &Matrix<T>, col: usize) -> (flags: Vec<bool>)
    requires
        m.wf(),
        col < m.ncols(),
    ensures
        flags@.len() == m.nrows(),
        forall|r: int|
            0 <= r < flags@.len() ==> judged_exceeding(m@[r][col as int], #[trigger] flags@[r]),
{
    let rows: usize = m.rows();
    let mut flags: Vec<bool> = Vec::new();
    let mut r: usize = 0;
    while r < rows
        invariant
            m.wf(),
            col < m.ncols(),
            rows == m.nrows(),
            r <= rows,
            flags@.len() == r,
            forall|k: int|
                0 <= k < flags@.len() ==> judged_exceeding(m@[k][col as int], #[trigger] flags@[k]),
        decreases rows - r,
    {
        flags.push(exceeds_tolerance(*m.get(r, col)));
        r += 1;
    }
    flags
}

/// `kept` is what the engine keeps of `entry` over `pivot`: the quotient that
/// the scalar may give, or `zero` where that quotient was found to be below
/// the tolerance.
pub open spec fn divided<T: Scalar>(entry: T, pivot: T, zero: T, kept: T) -> bool {
    exists|quotient: T|
        #[trigger] call_ensures(T::over, (entry, pivot), quotient) && (kept == quotient
            && judged_below(quotient, false) || kept == zero && judged_below(quotient, true))
}

/// `kept` is what the engine keeps of `entry - factor * other`: the product
/// and the difference that the scalar may give, or `zero` where that
/// difference was found to be below the tolerance.
pub open spec fn lessened<T: Scalar>(entry: T, factor: T, other: T, zero: T, kept: T) -> bool {
    exists|scaled: T, difference: T|
        call_ensures(T::times, (factor, other), scaled) && #[trigger] call_ensures(
            T::minus,
            (entry, scaled),
            difference,
        ) && (kept == difference && judged_below(difference, false) || kept == zero
            && judged_below(difference, true))
}

/// Brings the entry of row `row` in column `from` to `one`. With `rescale`
/// the row is first divided by that entry, from column `from` to the last,
/// and a quotient below the tolerance becomes `zero`; without it nothing but
/// the entry itself is written.
pub fn normalize_row<T: Scalar>(
    m: &mut Matrix<T>,
    row: usize,
    from: usize,
    rescale: bool,
    zero: T,
    one: T,
)
    requires
        old(m).wf(),
        row < old(m).nrows(),
        from < old(m).ncols(),
    ensures
        same_shape(old(m)@, final(m)@),
        forall|r: int| 0 <= r < old(m)@.len() && r != row ==> final(m)@[r] == old(m)@[r],
        agree_left_of(old(m)@, final(m)@, from as int),
        final(m)@[row as int][from as int] == one,
        !rescale ==> final(m)@ == old(m)@.update(
            row as int,
            old(m)@[row as int].update(from as int, one),
        ),
        rescale ==> forall|c: int|
            from < c < old(m).ncols() ==> divided(
                old(m)@[row as int][c],
                old(m)@[row as int][from as int],
                zero,
                #[trigger] final(m)@[row as int][c],
            ),
{
    let cols: usize = m.cols();
    if rescale {
        let pivot: T = *m.get(row, from);
        let mut j: usize = from;
        while j < cols
            invariant
                from <= j <= cols,
                row < old(m)@.len(),
                cols == old(m)@[row as int].len(),
                pivot == old(m)@[row as int][from as int],
                same_shape(old(m)@, m@),
                forall|r: int| 0 <= r < old(m)@.len() && r != row ==> m@[r] == old(m)@[r],
                agree_left_of(old(m)@, m@, from as int),
                forall|c: int| j <= c < cols ==> (#[trigger] m@[row as int][c]) == old(m)@[row as int][c],
                forall|c: int|
                    from < c < j ==> divided(
                        old(m)@[row as int][c],
                        pivot,
                        zero,
                        #[trigger] m@[row as int][c],
                    ),
            decreases cols - j,
        {
            let ghost before = m@;
            let quotient: T = m.get(row, j).over(pivot);
            let kept: T = if below_tolerance(quotient) {
                zero
            } else {
                quotient
            };
            m.set(row, j, kept);
            proof {
                assert(call_ensures(T::over, (old(m)@[row as int][j as int], pivot), quotient));
                assert(divided(old(m)@[row as int][j as int], pivot, zero, kept));
                assert forall|c: int| from < c < j + 1 implies divided(
                    old(m)@[row as int][c],
                    pivot,
                    zero,
                    #[trigger] m@[row as int][c],
                ) by {
                    if c < j {
                        assert(m@[row as int][c] == before[row as int][c]);
                    }
                }
            }
            j += 1;
        }
        let ghost scaled = m@;
        m.set(row, from, one);
        proof {
            assert forall|c: int| from < c < cols implies divided(
                old(m)@[row as int][c],
                old(m)@[row as int][from as int],
                zero,
                #[trigger] m@[row as int][c],
            ) by {
                assert(m@[row as int][c] == scaled[row as int][c]);
            }
        }
    } else {
        m.set(row, from, one);
    }
}

/// Subtracts `factor` times row `source` from row `target`, from column
/// `from` to the last, then sets the entry of `target` in column `from` to
/// `zero`. A difference below the tolerance becomes `zero`.
pub fn subtract_multiple<T: Scalar>(
    m: &mut Matrix<T>,
    target: usize,
    source: usize,
    factor: T,
    from: usize,
    zero: T,
)
    requires
        old(m).wf(),
        target < old(m).nrows(),
        source < old(m).nrows(),
        target != source,
        from < old(m).ncols(),
    ensures
        same_shape(old(m)@, final(m)@),
        forall|r: int| 0 <= r < old(m)@.len() && r != target ==> final(m)@[r] == old(m)@[r],
        agree_left_of(old(m)@, final(m)@, from as int),
        final(m)@[target as int][from as int] == zero,
        forall|c: int|
            from < c < old(m).ncols() ==> lessened(
                old(m)@[target as int][c],
                factor,
                old(m)@[source as int][c],
                zero,
                #[trigger] final(m)@[target as int][c],
            ),
{
    let cols: usize = m.cols();
    let mut j: usize = from;
    while j < cols
        invariant
            from <= j <= cols,
            target < old(m)@.len(),
            source < old(m)@.len(),
            target != source,
            cols == old(m)@[target as int].len(),
            cols == old(m)@[source as int].len(),
            same_shape(old(m)@, m@),
            forall|r: int| 0 <= r < old(m)@.len() && r != target ==> m@[r] == old(m)@[r],
            agree_left_of(old(m)@, m@, from as int),
            forall|c: int|
                j <= c < cols ==> (#[trigger] m@[target as int][c]) == old(m)@[target as int][c],
            forall|c: int|
                from < c < j ==> lessened(
                    old(m)@[target as int][c],
                    factor,
                    old(m)@[source as int][c],
                    zero,
                    #[trigger] m@[target as int][c],
                ),
        decreases cols - j,
    {
        let ghost before = m@;
        let scaled: T = factor.times(*m.get(source, j));
        let difference: T = m.get(target, j).minus(scaled);
        let kept: T = if below_tolerance(difference) {
            zero
        } else {
            difference
        };
        m.set(target, j, kept);
        proof {
            assert(call_ensures(T::times, (factor, old(m)@[source as int][j as int]), scaled));
            assert(call_ensures(T::minus, (old(m)@[target as int][j as int], scaled), difference));
            assert(lessened(
                old(m)@[target as int][j as int],
                factor,
                old(m)@[source as int][j as int],
                zero,
                kept,
            ));
            assert forall|c: int| from < c < j + 1 implies lessened(
                old(m)@[target as int][c],
                factor,
                old(m)@[source as int][c],
                zero,
                #[trigger] m@[target as int][c],
            ) by {
                if c < j {
                    assert(m@[target as int][c] == before[target as int][c]);
                }
            }
        }
        j += 1;
    }
    let ghost subtracted = m@;
    m.set(target, from, zero);
    proof {
        assert forall|c: int| from < c < cols implies lessened(
            old(m)@[target as int][c],
            factor,
            old(m)@[source as int][c],
            zero,
            #[trigger] m@[target as int][c],
        ) by {
            assert(m@[target as int][c] == subtracted[target as int][c]);
        }
    }
}

/// Clears column `col` in the rows that `flags` marks, the pivot row apart:
/// such a row loses its entry there times the pivot row and ends with `zero`
/// in the column. The pivot row and the rows not marked stay as they are.
pub fn eliminate_column<T: Scalar>(
    m: &mut Matrix<T>,
    pivot_row: usize,
    col: usize,
    flags: &Vec<bool>,
    zero: T,
)
    requires
        old(m).wf(),
        pivot_row < old(m).nrows(),
        col < old(m).ncols(),
        flags@.len() == old(m).nrows(),
    ensures
        same_shape(old(m)@, final(m)@),
        agree_left_of(old(m)@, final(m)@, col as int),
        forall|r: int|
            0 <= r < old(m)@.len() && (r == pivot_row || !flags@[r]) ==> #[trigger] final(m)@[r]
                == old(m)@[r],
        forall|r: int|
            0 <= r < old(m)@.len() && r != pivot_row && flags@[r] ==> (#[trigger] final(
                m)@[r])[col as int] == zero,
        forall|r: int, c: int|
            0 <= r < old(m)@.len() && r != pivot_row && flags@[r] && col < c < old(m).ncols()
                ==> lessened(
                old(m)@[r][c],
                old(m)@[r][col as int],
                old(m)@[pivot_row as int][c],
                zero,
                #[trigger] final(m)@[r][c],
            ),
{
    let rows: usize = m.rows();
    let mut k: usize = 0;
    while k < rows
        invariant
            k <= rows,
            rows == old(m)@.len(),
            flags@.len() == rows,
            old(m).wf(),
            m.wf(),
            pivot_row < rows,
            col < old(m).ncols(),
            same_shape(old(m)@, m@),
            agree_left_of(old(m)@, m@, col as int),
            forall|r: int| k <= r < rows ==> #[trigger] m@[r] == old(m)@[r],
            forall|r: int|
                0 <= r < k && (r == pivot_row || !flags@[r]) ==> #[trigger] m@[r] == old(m)@[r],
            forall|r: int|
                0 <= r < k && r != pivot_row && flags@[r] ==> (#[trigger] m@[r])[col as int]
                    == zero,
            forall|r: int, c: int|
                0 <= r < k && r != pivot_row && flags@[r] && col < c < old(m).ncols() ==> lessened(
                    old(m)@[r][c],
                    old(m)@[r][col as int],
                    old(m)@[pivot_row as int][c],
                    zero,
                    #[trigger] m@[r][c],
                ),
        decreases rows - k,
    {
        if k != pivot_row && flags[k] {
            let ghost before = m@;
            assert(before[pivot_row as int] == old(m)@[pivot_row as int]);
            assert(before[k as int] == old(m)@[k as int]);
            let factor: T = *m.get(k, col);
            subtract_multiple(m, k, pivot_row, factor, col, zero);
            proof {
                assert forall|r: int, c: int|
                    0 <= r < k + 1 && r != pivot_row && flags@[r] && col < c < old(
                        m,
                    ).ncols() implies lessened(
                    old(m)@[r][c],
                    old(m)@[r][col as int],
                    old(m)@[pivot_row as int][c],
                    zero,
                    #[trigger] m@[r][c],
                ) by {
                    if r < k {
                        assert(m@[r] == before[r]);
                        assert(lessened(
                            old(m)@[r][c],
                            old(m)@[r][col as int],
                            old(m)@[pivot_row as int][c],
                            zero,
                            before[r][c],
                        ));
                    }
                }
            }
        }
        k += 1;
    }
}

/// The flags with those of rows `a` and `b` exchanged.
fn exchanged(flags: &Vec<bool>, a: usize, b: usize) -> (moved: Vec<bool>)
    requires
        a < flags@.len(),
        b < flags@.len(),
    ensures
        moved@ == flags@.update(a as int, flags@[b as int]).update(b as int, flags@[a as int]),
{
    let mut moved: Vec<bool> = Vec::new();
    let mut k: usize = 0;
    while k < flags.len()
        invariant
            a < flags@.len(),
            b < flags@.len(),
            k <= flags@.len(),
            moved@.len() == k,
            forall|i: int|
                0 <= i < k ==> #[trigger] moved@[i] == flags@.update(a as int, flags@[b as int]).update(
                    b as int,
                    flags@[a as int],
                )[i],
        decreases flags.len() - k,
    {
        let flag: bool = if k == b {
            flags[a]
        } else if k == a {
            flags[b]
        } else {
            flags[k]
        };
        moved.push(flag);
        k += 1;
    }
    assert(moved@ =~= flags@.update(a as int, flags@[b as int]).update(b as int, flags@[a as int]));
    moved
}

/// What one step of the engine makes of `before`, the scalar's judgements
/// being `found`, `rescale` and `flags`. The found row comes up to
/// `pivot_row` and the row that stood there goes to its place. The pivot row
/// keeps what it held left of the column, gets `one` in the column, and right
/// of it is divided by its entry in the column when `rescale` says so. Every
/// other row that is marked keeps what it held left of the column, gets
/// `zero` in the column, and right of it loses its entry in the column times
/// the pivot row. Every other row that is not marked stays as it is.
pub open spec fn stepped<T: Scalar>(
    before: Seq<Seq<T>>,
    after: Seq<Seq<T>>,
    pivot_row: int,
    col: int,
    found: int,
    rescale: bool,
    flags: Seq<bool>,
    zero: T,
    one: T,
) -> bool {
    &&& same_shape(before, after)
    &&& after[pivot_row][col] == one
    &&& forall|r: int, c: int|
        0 <= r < before.len() && r != pivot_row && r != found && 0 <= c < col ==> (
        #[trigger] after[r][c]) == before[r][c]
    &&& forall|r: int|
        0 <= r < before.len() && r != pivot_row && r != found && !flags[r] ==> #[trigger] after[r]
            == before[r]
    &&& forall|r: int|
        0 <= r < before.len() && r != pivot_row && r != found && flags[r] ==> (
        #[trigger] after[r])[col] == zero
    &&& forall|c: int| 0 <= c < col ==> (#[trigger] after[pivot_row][c]) == before[found][c]
    &&& forall|c: int| 0 <= c < col ==> (#[trigger] after[found][c]) == before[pivot_row][c]
    &&& found != pivot_row && !flags[pivot_row] ==> after[found] == before[pivot_row]
    &&& found != pivot_row && flags[pivot_row] ==> after[found][col] == zero
    &&& !rescale ==> after[pivot_row] == before[found].update(col, one)
    &&& rescale ==> forall|c: int|
        col < c < before[0].len() ==> divided(
            before[found][c],
            before[found][col],
            zero,
            #[trigger] after[pivot_row][c],
        )
    &&& forall|r: int, c: int|
        0 <= r < before.len() && r != pivot_row && r != found && flags[r] && col < c
            < before[0].len() ==> lessened(
            before[r][c],
            before[r][col],
            after[pivot_row][c],
            zero,
            #[trigger] after[r][c],
        )
    &&& found != pivot_row && flags[pivot_row] ==> forall|c: int|
        col < c < before[0].len() ==> lessened(
            before[pivot_row][c],
            before[pivot_row][col],
            after[pivot_row][c],
            zero,
            #[trigger] after[found][c],
        )
}

/// One step of the engine on column `col`, every judgement of the scalar
/// given by the caller: `found` is the row chosen as pivot, `rescale` says
/// whether its entry in the column is off `one` by more than the tolerance,
/// and `flags[r]` whether the entry of row `r` in the column exceeds the
/// tolerance. The chosen row is brought up to `pivot_row`, normalized, and
/// the column is cleared in the marked rows.
///
/// On a column that is reduced already the step changes nothing: where the
/// pivot row is the chosen one, its entry is `one` and needs no rescaling,
/// and no other row is marked, the matrix stays as it is.
pub fn pivot_step<T: Scalar>(
    m: &mut Matrix<T>,
    pivot_row: usize,
    col: usize,
    found: usize,
    rescale: bool,
    flags: &Vec<bool>,
    zero: T,
    one: T,
)
    requires
        old(m).wf(),
        pivot_row <= found < old(m).nrows(),
        col < old(m).ncols(),
        flags@.len() == old(m).nrows(),
    ensures
        stepped(
            old(m)@,
            final(m)@,
            pivot_row as int,
            col as int,
            found as int,
            rescale,
            flags@,
            zero,
            one,
        ),
        (found == pivot_row && !rescale && old(m)@[pivot_row as int][col as int] == one
            && forall|r: int| 0 <= r < flags@.len() && r != pivot_row ==> !flags@[r]) ==> final(m)@
            == old(m)@,
{
    let moved: Vec<bool> = exchanged(flags, found, pivot_row);
    m.swap_rows(found, pivot_row);
    let ghost swapped = m@;
    assert(same_shape(old(m)@, swapped));
    normalize_row(m, pivot_row, col, rescale, zero, one);
    let ghost normalized = m@;
    eliminate_column(m, pivot_row, col, &moved, zero);
    proof {
        assert forall|r: int, c: int|
            0 <= r < old(m)@.len() && r != pivot_row && r != found && 0 <= c < col implies (
        #[trigger] m@[r][c]) == old(m)@[r][c] by {
            assert(swapped[r] == old(m)@[r]);
            assert(normalized[r] == swapped[r]);
            assert(normalized[r][c] == m@[r][c]);
        }
        assert forall|r: int|
            0 <= r < old(m)@.len() && r != pivot_row && r != found && !flags@[r] implies #[trigger] m@[r]
            == old(m)@[r] by {
            assert(!moved@[r]);
            assert(swapped[r] == old(m)@[r]);
            assert(normalized[r] == swapped[r]);
        }
        assert forall|c: int| 0 <= c < col implies (#[trigger] m@[pivot_row as int][c]) == old(
            m,
        )@[found as int][c] by {
            assert(swapped[pivot_row as int] == old(m)@[found as int]);
            assert(swapped[pivot_row as int][c] == normalized[pivot_row as int][c]);
            assert(normalized[pivot_row as int][c] == m@[pivot_row as int][c]);
        }
        assert forall|c: int| 0 <= c < col implies (#[trigger] m@[found as int][c]) == old(
            m,
        )@[pivot_row as int][c] by {
            assert(swapped[found as int] == old(m)@[pivot_row as int]);
            assert(swapped[found as int][c] == normalized[found as int][c]);
            assert(normalized[found as int][c] == m@[found as int][c]);
        }
        if found != pivot_row {
            assert(moved@[found as int] == flags@[pivot_row as int]);
            assert(swapped[found as int] == old(m)@[pivot_row as int]);
            assert(normalized[found as int] == swapped[found as int]);
        }
        assert(swapped[pivot_row as int] == old(m)@[found as int]);
        assert(m@[pivot_row as int] == normalized[pivot_row as int]);
        assert forall|r: int|
            0 <= r < old(m)@.len() && r != pivot_row && r != found && flags@[r] implies (
        #[trigger] m@[r])[col as int] == zero by {
            assert(moved@[r]);
        }
        assert forall|r: int, c: int|
            0 <= r < old(m)@.len() && r != pivot_row && r != found && flags@[r] && col < c < old(
                m,
            )@[0].len() implies lessened(
            old(m)@[r][c],
            old(m)@[r][col as int],
            m@[pivot_row as int][c],
            zero,
            #[trigger] m@[r][c],
        ) by {
            assert(moved@[r]);
            assert(swapped[r] == old(m)@[r]);
            assert(normalized[r] == swapped[r]);
        }
        if found != pivot_row && flags@[pivot_row as int] {
            assert forall|c: int| col < c < old(m)@[0].len() implies lessened(
                old(m)@[pivot_row as int][c],
                old(m)@[pivot_row as int][col as int],
                m@[pivot_row as int][c],
                zero,
                #[trigger] m@[found as int][c],
            ) by {
                assert(moved@[found as int]);
            }
        }
        if rescale {
            assert forall|c: int| col < c < old(m)@[0].len() implies divided(
                old(m)@[found as int][c],
                old(m)@[found as int][col as int],
                zero,
                #[trigger] m@[pivot_row as int][c],
            ) by {
                assert(m@[pivot_row as int][c] == normalized[pivot_row as int][c]);
            }
        }
        if found == pivot_row && !rescale && old(m)@[pivot_row as int][col as int] == one
            && forall|r: int| 0 <= r < flags@.len() && r != pivot_row ==> !flags@[r] {
            assert(swapped =~= old(m)@);
            assert(swapped[pivot_row as int].update(col as int, one) =~= swapped[pivot_row as int]);
            assert(normalized =~= swapped);
            assert forall|r: int| 0 <= r < m@.len() implies #[trigger] m@[r] == normalized[r] by {
                if r != pivot_row {
                    assert(!moved@[r]);
                }
            }
            assert(m@ =~= normalized);
        }
    }
}

/// The scalar found no entry of column `col`, from `pivot_row` down, to
/// exceed the tolerance.
pub open spec fn column_skipped<T: Scalar>(grid: Seq<Seq<T>>, pivot_row: int, col: int) -> bool {
    forall|r: int| pivot_row <= r < grid.len() ==> judged_exceeding(#[trigger] grid[r][col], false)
}

/// `answer` is what the scalar may say to the question whether `entry` is off
/// `one` by more than the tolerance.
pub open spec fn off_one<T: Scalar>(entry: T, one: T, answer: bool) -> bool {
    exists|d: T| call_ensures(T::minus, (entry, one), d) && #[trigger] judged_exceeding(d, answer)
}

/// The judgements on which a step on column `col` of `grid` goes: `flags`
/// are the scalar's answers on the entries of the column, `found` is the
/// first marked row from `pivot_row` on, and `rescale` the scalar's answer on
/// whether the entry of that row is off `one`.
pub open spec fn chosen<T: Scalar>(
    grid: Seq<Seq<T>>,
    pivot_row: int,
    col: int,
    found: int,
    rescale: bool,
    flags: Seq<bool>,
    one: T,
) -> bool {
    &&& flags.len() == grid.len()
    &&& forall|r: int| 0 <= r < flags.len() ==> judged_exceeding(grid[r][col], #[trigger] flags[r])
    &&& first_set_from(flags, pivot_row) == Some(found)
    &&& off_one(grid[found][col], one, rescale)
}

/// `after` is what a step on column `col` makes of `before`, on judgements
/// that the scalar gave.
pub open spec fn step_taken<T: Scalar>(
    before: Seq<Seq<T>>,
    after: Seq<Seq<T>>,
    pivot_row: int,
    col: int,
    zero: T,
    one: T,
) -> bool {
    exists|found: int, rescale: bool, flags: Seq<bool>|
        chosen(before, pivot_row, col, found, rescale, flags, one) && #[trigger] stepped(
            before,
            after,
            pivot_row,
            col,
            found,
            rescale,
            flags,
            zero,
            one,
        )
}

/// The engine moves on from one state to the next: with `count` pivots set
/// and column `col` to look at, rows and variable columns being left, it
/// either skips the column, where nothing from the pivot row down was found
/// to exceed the tolerance, and leaves the grid as it is, or takes a step on
/// it and has one pivot more. The next column is looked at either way.
pub open spec fn moved_on<T: Scalar>(
    grid: Seq<Seq<T>>,
    count: int,
    col: int,
    next_grid: Seq<Seq<T>>,
    next_count: int,
    next_col: int,
    zero: T,
    one: T,
) -> bool {
    &&& 0 <= count < grid.len()
    &&& 0 <= col < grid[0].len() - 1
    &&& next_col == col + 1
    &&& (next_count == count && next_grid == grid && column_skipped(grid, count, col)) || (
    next_count == count + 1 && step_taken(grid, next_grid, count, col, zero, one))
}

/// State `k` of a run moves on to state `k + 1`.
pub open spec fn advanced<T: Scalar>(
    grids: Seq<Seq<Seq<T>>>,
    counts: Seq<int>,
    cols: Seq<int>,
    k: int,
    zero: T,
    one: T,
) -> bool {
    moved_on(grids[k], counts[k], cols[k], grids[k + 1], counts[k + 1], cols[k + 1], zero, one)
}

/// A run of the engine: its states in order, from no pivot and the first
/// column on, each moving on to the next.
pub open spec fn run<T: Scalar>(
    grids: Seq<Seq<Seq<T>>>,
    counts: Seq<int>,
    cols: Seq<int>,
    zero: T,
    one: T,
) -> bool {
    &&& grids.len() >= 1
    &&& counts.len() == grids.len()
    &&& cols.len() == grids.len()
    &&& counts[0] == 0
    &&& cols[0] == 0
    &&& forall|k: int| 0 <= k < grids.len() - 1 ==> #[trigger] advanced(grids, counts, cols, k, zero, one)
}

/// A whole run from `start` to `end` that set the pivots `pivots`: it ends
/// when no row or no variable column is left, and each pivot column is the
/// column of the step that set it.
pub open spec fn traced<T: Scalar>(
    grids: Seq<Seq<Seq<T>>>,
    counts: Seq<int>,
    cols: Seq<int>,
    start: Seq<Seq<T>>,
    end: Seq<Seq<T>>,
    pivots: Seq<usize>,
    zero: T,
    one: T,
) -> bool {
    &&& run(grids, counts, cols, zero, one)
    &&& grids[0] == start
    &&& grids.last() == end
    &&& counts.last() == pivots.len()
    &&& !(counts.last() < end.len() && cols.last() < end[0].len() - 1)
    &&& forall|k: int|
        0 <= k < grids.len() - 1 && #[trigger] counts[k + 1] == counts[k] + 1 ==> 0 <= counts[k]
            < pivots.len() && pivots[counts[k]] == cols[k]
}

/// `end` and `pivots` are what a run of the engine makes of `start`.
pub open spec fn reduction<T: Scalar>(
    start: Seq<Seq<T>>,
    end: Seq<Seq<T>>,
    pivots: Seq<usize>,
    zero: T,
    one: T,
) -> bool {
    exists|grids: Seq<Seq<Seq<T>>>, counts: Seq<int>, cols: Seq<int>|
        #[trigger] traced(grids, counts, cols, start, end, pivots, zero, one)
}

/// A run that moves on from its last state is a run.
proof fn lemma_run_extends<T: Scalar>(
    grids: Seq<Seq<Seq<T>>>,
    counts: Seq<int>,
    cols: Seq<int>,
    grid: Seq<Seq<T>>,
    count: int,
    col: int,
    zero: T,
    one: T,
)
    requires
        run(grids, counts, cols, zero, one),
        moved_on(grids.last(), counts.last(), cols.last(), grid, count, col, zero, one),
    ensures
        run(grids.push(grid), counts.push(count), cols.push(col), zero, one),
{
    let g = grids.push(grid);
    let n = counts.push(count);
    let c = cols.push(col);
    assert forall|k: int| 0 <= k < g.len() - 1 implies #[trigger] advanced(g, n, c, k, zero, one) by {
        if k < grids.len() - 1 {
            assert(advanced(grids, counts, cols, k, zero, one));
            assert(g[k] == grids[k] && g[k + 1] == grids[k + 1]);
            assert(n[k] == counts[k] && n[k + 1] == counts[k + 1]);
            assert(c[k] == cols[k] && c[k + 1] == cols[k + 1]);
        } else {
            assert(g[k] == grids.last() && g[k + 1] == grid);
            assert(n[k] == counts.last() && n[k + 1] == count);
            assert(c[k] == cols.last() && c[k + 1] == col);
        }
    }
}

/// The engine, with the two constants it writes given by the caller: brings
/// `m` to reduced row-echelon form in place and returns the pivot columns, the
/// pivot of row `i` standing in column `pivots[i]`. Each pivot entry is
/// `one`; the pivot columns are variable columns and grow with the row; every
/// other entry of a pivot column, every entry left of a pivot and every
/// variable entry of the rows below the pivot rows is `zero` or was found by
/// the scalar not to exceed the tolerance. The result is the end of a run
/// from the given matrix: column by column, a column is skipped where the
/// scalar found nothing to exceed the tolerance from the pivot row down, and
/// a step is taken on the first row that it found to do so. Without a
/// variable column the matrix stays as it is.
pub fn reduce_with<T: Scalar>(m: &mut Matrix<T>, zero: T, one: T) -> (pivots: Vec<usize>)
    requires
        old(m).wf(),
    ensures
        final(m).wf(),
        same_shape(old(m)@, final(m)@),
        pivots@.len() <= final(m).nrows(),
        strictly_increasing(pivots@),
        forall|i: int| 0 <= i < pivots@.len() ==> (#[trigger] pivots@[i]) < final(m).nvars(),
        forall|i: int|
            0 <= i < pivots@.len() ==> (#[trigger] final(m)@[i])[pivots@[i] as int] == one,
        reduced(final(m)@, pivots@, zero, one),
        reduction(old(m)@, final(m)@, pivots@, zero, one),
        old(m).nvars() == 0 ==> final(m)@ == old(m)@,
{
    let rows: usize = m.rows();
    let vars: usize = m.vars();
    let mut pivots: Vec<usize> = Vec::new();
    let mut pivot_row: usize = 0;
    let mut lead_col: usize = 0;
    let ghost mut grids: Seq<Seq<Seq<T>>> = seq![m@];
    let ghost mut counts: Seq<int> = seq![0int];
    let ghost mut cols: Seq<int> = seq![0int];
    while pivot_row < rows && lead_col < vars
        invariant
            lead_col == 0 ==> m@ == old(m)@,
            run(grids, counts, cols, zero, one),
            grids[0] == old(m)@,
            grids.last() == m@,
            counts.last() == pivot_row,
            cols.last() == lead_col,
            forall|k: int| 0 <= k < counts.len() ==> 0 <= #[trigger] counts[k] <= pivot_row,
            forall|k: int|
                0 <= k < grids.len() - 1 && #[trigger] counts[k + 1] == counts[k] + 1
                    ==> pivots@[counts[k]] == cols[k],
            old(m).wf(),
            m.wf(),
            same_shape(old(m)@, m@),
            rows == m.nrows(),
            vars == m.nvars(),
            pivot_row <= rows,
            lead_col <= vars,
            pivots@.len() == pivot_row,
            strictly_increasing(pivots@),
            forall|i: int| 0 <= i < pivots@.len() ==> (#[trigger] pivots@[i]) < lead_col,
            forall|i: int| 0 <= i < pivots@.len() ==> (#[trigger] m@[i])[pivots@[i] as int] == one,
            columns_clear(m@, pivots@, zero),
            leads_clear(m@, pivots@, zero),
            rows_clear(m@, pivot_row as int, lead_col as int, zero),
        decreases (rows - pivot_row) + (vars - lead_col),
    {
        let flags: Vec<bool> = column_flags(m, lead_col);
        let found: Option<usize> = find_pivot(&flags, pivot_row);
        proof {
            lemma_first_set_from(flags@, pivot_row as int);
        }
        match found {
            None => {
                assert forall|r: int, c: int| pivot_row <= r < m@.len() && 0 <= c < lead_col + 1 implies negligible(
                    #[trigger] m@[r][c],
                    zero,
                ) by {
                    if c == lead_col {
                        assert(!flags@[r]);
                        assert(judged_exceeding(m@[r][lead_col as int], flags@[r]));
                    }
                }
                proof {
                    assert(column_skipped(m@, pivot_row as int, lead_col as int)) by {
                        assert forall|r: int| pivot_row <= r < m@.len() implies judged_exceeding(
                            #[trigger] m@[r][lead_col as int],
                            false,
                        ) by {
                            assert(!flags@[r]);
                            assert(judged_exceeding(m@[r][lead_col as int], flags@[r]));
                        }
                    }
                    lemma_run_extends(
                        grids,
                        counts,
                        cols,
                        m@,
                        pivot_row as int,
                        lead_col + 1,
                        zero,
                        one,
                    );
                    let ghost prior_counts = counts;
                    grids = grids.push(m@);
                    counts = counts.push(pivot_row as int);
                    cols = cols.push(lead_col + 1);
                    assert forall|k: int|
                        0 <= k < grids.len() - 1 && #[trigger] counts[k + 1] == counts[k] + 1 implies pivots@[counts[k]]
                        == cols[k] by {
                        if k < grids.len() - 2 {
                            assert(prior_counts[k + 1] == counts[k + 1]);
                        }
                    }
                }
                lead_col += 1;
            },
            Some(i) => {
                let ghost before = m@;
                let ghost next = pivots@.push(lead_col);
                let off: T = m.get(i, lead_col).minus(one);
                let rescale: bool = exceeds_tolerance(off);
                proof {
                    assert(call_ensures(T::minus, (before[i as int][lead_col as int], one), off));
                    assert(off_one(before[i as int][lead_col as int], one, rescale));
                    assert(chosen(
                        before,
                        pivot_row as int,
                        lead_col as int,
                        i as int,
                        rescale,
                        flags@,
                        one,
                    ));
                }
                pivot_step(m, pivot_row, lead_col, i, rescale, &flags, zero, one);
                proof {
                    assert(step_taken(before, m@, pivot_row as int, lead_col as int, zero, one));
                    lemma_run_extends(
                        grids,
                        counts,
                        cols,
                        m@,
                        pivot_row + 1,
                        lead_col + 1,
                        zero,
                        one,
                    );
                    let ghost prior_counts = counts;
                    let ghost prior_cols = cols;
                    grids = grids.push(m@);
                    counts = counts.push(pivot_row + 1);
                    cols = cols.push(lead_col + 1);
                    assert forall|k: int|
                        0 <= k < grids.len() - 1 && #[trigger] counts[k + 1] == counts[k] + 1 implies pivots@.push(
                        lead_col,
                    )[counts[k]] == cols[k] by {
                        if k < grids.len() - 2 {
                            assert(prior_counts[k + 1] == counts[k + 1]);
                            assert(prior_counts[k] == counts[k]);
                            assert(0 <= prior_counts[k + 1] <= pivot_row);
                        } else {
                            assert(counts[k] == pivot_row);
                            assert(cols[k] == lead_col);
                        }
                    }
                }
                assert forall|k: int| 0 <= k < pivots@.len() implies (#[trigger] m@[k])[pivots@[k] as int]
                    == one by {
                    assert(before[k][pivots@[k] as int] == one);
                    assert(m@[k][pivots@[k] as int] == before[k][pivots@[k] as int]);
                }
                proof {
                    let p = pivot_row as int;
                    let f = i as int;
                    let l = lead_col as int;
                    assert forall|k: int| 0 <= k < m@.len() && k != p implies negligible(
                        #[trigger] m@[k][l],
                        zero,
                    ) by {
                        assert(judged_exceeding(before[k][l], flags@[k]));
                        assert(judged_exceeding(before[p][l], flags@[p]));
                        if k != f {
                            if !flags@[k] {
                                assert(m@[k] == before[k]);
                            }
                        } else {
                            if !flags@[p] {
                                assert(m@[f] == before[p]);
                            }
                        }
                    }
                    assert forall|r: int, c: int| 0 <= r < m@.len() && 0 <= c < l && r != p && r != f implies (
                    #[trigger] m@[r][c]) == before[r][c] by {}
                    assert(columns_clear(m@, next, zero)) by {
                        assert forall|j: int, k: int|
                            0 <= j < next.len() && 0 <= k < m@.len() && k != j implies negligible(
                            #[trigger] m@[k][next[j] as int],
                            zero,
                        ) by {
                            if j < p {
                                let q = pivots@[j] as int;
                                assert(next[j] == pivots@[j]);
                                if k == p {
                                    assert(m@[p][q] == before[f][q]);
                                    assert(negligible(before[f][q], zero));
                                } else if k == f {
                                    assert(m@[f][q] == before[p][q]);
                                    assert(negligible(before[p][q], zero));
                                } else {
                                    assert(m@[k][q] == before[k][q]);
                                    assert(negligible(before[k][q], zero));
                                }
                            } else {
                                assert(next[j] == lead_col);
                            }
                        }
                    }
                    assert(leads_clear(m@, next, zero)) by {
                        assert forall|j: int, c: int|
                            0 <= j < next.len() && 0 <= c < next[j] implies negligible(
                            #[trigger] m@[j][c],
                            zero,
                        ) by {
                            if j < p {
                                assert(next[j] == pivots@[j]);
                                assert(m@[j][c] == before[j][c]);
                                assert(negligible(before[j][c], zero));
                            } else {
                                assert(m@[p][c] == before[f][c]);
                                assert(negligible(before[f][c], zero));
                            }
                        }
                    }
                    assert(rows_clear(m@, p + 1, l + 1, zero)) by {
                        assert forall|r: int, c: int|
                            p + 1 <= r < m@.len() && 0 <= c < l + 1 implies negligible(
                            #[trigger] m@[r][c],
                            zero,
                        ) by {
                            if c < l {
                                if r == f {
                                    assert(m@[f][c] == before[p][c]);
                                    assert(negligible(before[p][c], zero));
                                } else {
                                    assert(m@[r][c] == before[r][c]);
                                    assert(negligible(before[r][c], zero));
                                }
                            }
                        }
                    }
                }
                pivots.push(lead_col);
                pivot_row += 1;
                lead_col += 1;
            },
        }
    }
    proof {
        assert(traced(grids, counts, cols, old(m)@, m@, pivots@, zero, one));
    }
    pivots
}

/// `end` and `pivots` are what the engine makes of `start` with a zero and a
/// one that the scalar gives: the end of a run from `start`, in reduced form.
pub open spec fn engine_ran<T: Scalar>(
    start: Seq<Seq<T>>,
    end: Seq<Seq<T>>,
    pivots: Seq<usize>,
) -> bool {
    exists|zero: T, one: T|
        call_ensures(T::zero, (), zero) && call_ensures(T::one, (), one) && reduced(
            end,
            pivots,
            zero,
            one,
        ) && #[trigger] reduction(start, end, pivots, zero, one)
}

/// The row reduction engine: brings `m` to reduced row-echelon form in place,
/// by the scalar's own zero, one and tolerance, and returns the pivot columns:
/// the pivot of row `i` stands in column `pivots[i]`. The matrix is the end
/// of a run from the given one and is left reduced, with respect to a zero
/// and a one that the scalar gives. Without a variable column it stays as it
/// is.
pub fn gauss_jordan_elimination<T: Scalar>(m: &mut Matrix<T>) -> (pivots: Vec<usize>)
    requires
        old(m).wf(),
    ensures
        final(m).wf(),
        same_shape(old(m)@, final(m)@),
        pivots@.len() <= final(m).nrows(),
        strictly_increasing(pivots@),
        forall|i: int| 0 <= i < pivots@.len() ==> (#[trigger] pivots@[i]) < final(m).nvars(),
        engine_ran(old(m)@, final(m)@, pivots@),
        old(m).nvars() == 0 ==> final(m)@ == old(m)@,
{
    let zero: T = T::zero();
    let one: T = T::one();
    let pivots = reduce_with(m, zero, one);
    assert(reduction(old(m)@, m@, pivots@, zero, one));
    assert(engine_ran(old(m)@, m@, pivots@));
    pivots
}

/// The scalar's judgements on column `col` of `grid` can only be those of a
/// column that is reduced already: the pivot row is the one found, its entry
/// is `one` and needs no rescaling, and no other row is marked.
pub open spec fn quiet<T: Scalar>(grid: Seq<Seq<T>>, pivot_row: int, col: int, one: T) -> bool {
    forall|found: int, rescale: bool, flags: Seq<bool>| #[trigger]
        chosen(grid, pivot_row, col, found, rescale, flags, one) ==> found == pivot_row
            && !rescale && grid[pivot_row][col] == one && forall|r: int|
            0 <= r < flags.len() && r != pivot_row ==> !flags[r]
}

/// State `k` of a run is quiet.
pub open spec fn quiet_at<T: Scalar>(
    grids: Seq<Seq<Seq<T>>>,
    counts: Seq<int>,
    cols: Seq<int>,
    k: int,
    one: T,
) -> bool {
    quiet(grids[k], counts[k], cols[k], one)
}

/// A step on a column that is reduced already changes nothing.
pub proof fn lemma_quiet_step<T: Scalar>(
    before: Seq<Seq<T>>,
    after: Seq<Seq<T>>,
    pivot_row: int,
    col: int,
    rescale: bool,
    flags: Seq<bool>,
    zero: T,
    one: T,
)
    requires
        stepped(before, after, pivot_row, col, pivot_row, rescale, flags, zero, one),
        0 <= pivot_row < before.len(),
        0 <= col < before[pivot_row].len(),
        flags.len() == before.len(),
        !rescale,
        before[pivot_row][col] == one,
        forall|r: int| 0 <= r < flags.len() && r != pivot_row ==> !flags[r],
    ensures
        after == before,
{
    assert(before[pivot_row].update(col, one) =~= before[pivot_row]);
    assert forall|r: int| 0 <= r < before.len() implies #[trigger] after[r] == before[r] by {
        if r != pivot_row {
            assert(!flags[r]);
        }
    }
    assert(after =~= before);
}

proof fn lemma_quiet_run<T: Scalar>(
    grids: Seq<Seq<Seq<T>>>,
    counts: Seq<int>,
    cols: Seq<int>,
    zero: T,
    one: T,
    k: int,
)
    requires
        run(grids, counts, cols, zero, one),
        rectangular(grids[0]),
        forall|j: int| 0 <= j < grids.len() - 1 ==> #[trigger] quiet_at(grids, counts, cols, j, one),
        0 <= k < grids.len(),
    ensures
        grids[k] == grids[0],
    decreases k,
{
    if k > 0 {
        lemma_quiet_run(grids, counts, cols, zero, one, k - 1);
        let j = k - 1;
        assert(advanced(grids, counts, cols, j, zero, one));
        assert(quiet_at(grids, counts, cols, j, one));
        let before = grids[j];
        let after = grids[j + 1];
        if counts[j + 1] == counts[j] + 1 {
            assert(step_taken(before, after, counts[j], cols[j], zero, one));
            let (found, rescale, flags) = choose|found: int, rescale: bool, flags: Seq<bool>|
                chosen(before, counts[j], cols[j], found, rescale, flags, one) && #[trigger] stepped(
                    before,
                    after,
                    counts[j],
                    cols[j],
                    found,
                    rescale,
                    flags,
                    zero,
                    one,
                );
            assert(before[counts[j]].len() == before[0].len());
            lemma_quiet_step(before, after, counts[j], cols[j], rescale, flags, zero, one);
        }
    }
}

/// Idempotence of the engine. A run on a matrix that is reduced already ends
/// with the matrix it began with: where at every state of the run the
/// scalar's judgements can only be those of a reduced column, nothing has
/// been changed.
pub proof fn lemma_reduced_stays<T: Scalar>(
    grids: Seq<Seq<Seq<T>>>,
    counts: Seq<int>,
    cols: Seq<int>,
    start: Seq<Seq<T>>,
    end: Seq<Seq<T>>,
    pivots: Seq<usize>,
    zero: T,
    one: T,
)
    requires
        traced(grids, counts, cols, start, end, pivots, zero, one),
        rectangular(start),
        forall|j: int| 0 <= j < grids.len() - 1 ==> #[trigger] quiet_at(grids, counts, cols, j, one),
    ensures
        end == start,
{
    lemma_quiet_run(grids, counts, cols, zero, one, grids.len() - 1);
}

/// Pivot columns that grow with the row are pairwise distinct: no two rows
/// share a pivot column, and of two pivot rows the lower one has its pivot
/// further right.
pub proof fn lemma_pivot_columns_distinct(pivots: Seq<usize>, r1: int, r2: int)
    requires
        strictly_increasing(pivots),
        0 <= r1 < pivots.len(),
        0 <= r2 < pivots.len(),
    ensures
        r1 < r2 <==> pivots[r1] < pivots[r2],
        r1 != r2 ==> pivots[r1] != pivots[r2],
{
}

} // verus!
