use gauss_jordan::classify::{
    analyze_rref, classify, count_pivots, leading_columns, solution_from, verdict,
};
use gauss_jordan::classify::{SolutionType, Verdict};
use gauss_jordan::matrix::{MalformedMatrixError, Matrix};
use gauss_jordan::reduce::{
    column_flags, eliminate_column, find_pivot, gauss_jordan_elimination, normalize_row,
    pivot_step, reduce_with, subtract_multiple,
};
use gauss_jordan::scalar::{below_tolerance, exceeds_tolerance, Scalar};
use gauss_jordan::text::{is_whitespace, keep_present, parse_rows, read_matrix_from_input, token_rows, tokens_in};
use gauss_jordan::verification::{
    constants_violate, verify_solution, Verification, VerificationShapeMismatch,
};

const EPSILON: f64 = 1e-9;

#[derive(Debug, Clone, Copy, PartialEq)]
struct Real(f64);

impl Scalar for Real {
    fn parse(token: &Vec<char>) -> Option<Self> {
        token.iter().collect::<String>().parse::<f64>().ok().map(Real)
    }
    fn zero() -> Self {
        Real(0.0)
    }
    fn one() -> Self {
        Real(1.0)
    }
    fn tolerance() -> Self {
        Real(EPSILON)
    }
    fn plus(self, other: Self) -> Self {
        Real(self.0 + other.0)
    }
    fn minus(self, other: Self) -> Self {
        Real(self.0 - other.0)
    }
    fn times(self, other: Self) -> Self {
        Real(self.0 * other.0)
    }
    fn over(self, other: Self) -> Self {
        Real(self.0 / other.0)
    }
    fn magnitude(self) -> Self {
        Real(self.0.abs())
    }
    fn less_than(self, other: Self) -> bool {
        self.0 < other.0
    }
    fn larger(self, other: Self) -> Self {
        Real(self.0.max(other.0))
    }
}

fn reals(rows: Vec<Vec<f64>>) -> Vec<Vec<Real>> {
    rows.into_iter().map(|r| r.into_iter().map(Real).collect()).collect()
}

fn matrix(rows: Vec<Vec<f64>>) -> Matrix<Real> {
    Matrix::from_rows(reals(rows)).unwrap()
}

fn floats(m: Matrix<Real>) -> Vec<Vec<f64>> {
    m.into_rows().into_iter().map(|r| r.into_iter().map(|x| x.0).collect()).collect()
}

fn chars(text: &str) -> Vec<char> {
    text.chars().collect()
}

fn strings(rows: Vec<Vec<Vec<char>>>) -> Vec<Vec<String>> {
    rows.into_iter().map(|r| r.into_iter().map(|t| t.into_iter().collect()).collect()).collect()
}

fn solve_text(text: &str) -> SolutionType<Real> {
    let mut m: Matrix<Real> = read_matrix_from_input(&chars(text)).unwrap();
    gauss_jordan_elimination(&mut m);
    analyze_rref(&m)
}

fn solve(rows: Vec<Vec<f64>>) -> SolutionType<Real> {
    let mut m = matrix(rows);
    gauss_jordan_elimination(&mut m);
    analyze_rref(&m)
}

#[test]
fn from_rows_keeps_the_entries() {
    let m = matrix(vec![vec![2.0, 1.0, 3.0], vec![1.0, -1.0, 0.0]]);
    assert_eq!(m.rows(), 2);
    assert_eq!(m.cols(), 3);
    assert_eq!(m.vars(), 2);
    assert_eq!(*m.get(0, 2), Real(3.0));
    assert_eq!(*m.get(1, 1), Real(-1.0));
    assert_eq!(floats(m), vec![vec![2.0, 1.0, 3.0], vec![1.0, -1.0, 0.0]]);
}

#[test]
fn from_rows_refuses_no_rows() {
    let rows: Vec<Vec<Real>> = Vec::new();
    assert_eq!(Matrix::from_rows(rows).err(), Some(MalformedMatrixError::NoRows));
}

#[test]
fn from_rows_refuses_an_empty_first_row() {
    let rows: Vec<Vec<Real>> = vec![Vec::new()];
    assert_eq!(Matrix::from_rows(rows).err(), Some(MalformedMatrixError::EmptyRow));
    let rows: Vec<Vec<Real>> = vec![Vec::new(), vec![Real(1.0)]];
    assert_eq!(Matrix::from_rows(rows).err(), Some(MalformedMatrixError::EmptyRow));
}

#[test]
fn from_rows_refuses_ragged_rows() {
    let rows = reals(vec![vec![1.0, 2.0, 3.0], vec![4.0, 5.0]]);
    assert_eq!(Matrix::from_rows(rows).err(), Some(MalformedMatrixError::RaggedRows));
    let rows = reals(vec![vec![1.0, 2.0], vec![]]);
    assert_eq!(Matrix::from_rows(rows).err(), Some(MalformedMatrixError::RaggedRows));
    let rows = reals(vec![vec![1.0], vec![2.0], vec![3.0, 4.0]]);
    assert_eq!(Matrix::from_rows(rows).err(), Some(MalformedMatrixError::RaggedRows));
}

#[test]
fn set_overwrites_one_entry() {
    let mut m = matrix(vec![vec![1.0, 2.0], vec![3.0, 4.0]]);
    m.set(1, 0, Real(9.0));
    assert_eq!(floats(m), vec![vec![1.0, 2.0], vec![9.0, 4.0]]);
}

#[test]
fn swap_rows_exchanges_two_rows() {
    let mut m = matrix(vec![vec![1.0, 2.0], vec![3.0, 4.0], vec![5.0, 6.0]]);
    m.swap_rows(0, 2);
    assert_eq!(floats(m), vec![vec![5.0, 6.0], vec![3.0, 4.0], vec![1.0, 2.0]]);
}

#[test]
fn swap_rows_with_itself_changes_nothing() {
    let mut m = matrix(vec![vec![1.0, 2.0], vec![3.0, 4.0]]);
    m.swap_rows(1, 1);
    assert_eq!(floats(m), vec![vec![1.0, 2.0], vec![3.0, 4.0]]);
}

#[test]
fn swap_rows_out_of_bounds_changes_nothing() {
    let mut m = matrix(vec![vec![1.0, 2.0], vec![3.0, 4.0]]);
    m.swap_rows(0, 2);
    m.swap_rows(7, 1);
    assert_eq!(floats(m), vec![vec![1.0, 2.0], vec![3.0, 4.0]]);
}

#[test]
fn find_pivot_takes_the_first_set_flag_from_the_start_row() {
    let flags = vec![true, false, true, true];
    assert_eq!(find_pivot(&flags, 0), Some(0));
    assert_eq!(find_pivot(&flags, 1), Some(2));
    assert_eq!(find_pivot(&flags, 3), Some(3));
    assert_eq!(find_pivot(&flags, 4), None);
    assert_eq!(find_pivot(&flags, 9), None);
    assert_eq!(find_pivot(&vec![false, false], 0), None);
    assert_eq!(find_pivot(&Vec::new(), 0), None);
}

#[test]
fn column_flags_mark_entries_over_the_tolerance() {
    let m = matrix(vec![vec![0.0, 1.0], vec![1e-12, 2.0], vec![-3.0, 0.0], vec![1e-9, 0.0]]);
    assert_eq!(column_flags(&m, 0), vec![false, false, true, false]);
    assert_eq!(column_flags(&m, 1), vec![true, true, false, false]);
}

#[test]
fn normalize_row_divides_from_the_pivot_column_on() {
    let mut m = matrix(vec![vec![7.0, 2.0, 4.0, 1e-9], vec![1.0, 1.0, 1.0, 1.0]]);
    normalize_row(&mut m, 0, 1, true, Real(0.0), Real(1.0));
    assert_eq!(floats(m), vec![vec![7.0, 1.0, 2.0, 0.0], vec![1.0, 1.0, 1.0, 1.0]]);
}

#[test]
fn normalize_row_without_rescaling_writes_the_pivot_only() {
    let mut m = matrix(vec![vec![1.0 + 1e-10, 2.0, 4.0]]);
    normalize_row(&mut m, 0, 0, false, Real(0.0), Real(1.0));
    assert_eq!(floats(m), vec![vec![1.0, 2.0, 4.0]]);
}

#[test]
fn the_engine_does_not_rescale_a_pivot_near_one() {
    let mut m = matrix(vec![vec![1.0 + 1e-10, 2.0, 4.0]]);
    gauss_jordan_elimination(&mut m);
    assert_eq!(floats(m), vec![vec![1.0, 2.0, 4.0]]);
    let mut m = matrix(vec![vec![1.0 + 1e-6, 2.0, 4.0]]);
    gauss_jordan_elimination(&mut m);
    assert_eq!(floats(m), vec![vec![1.0, 2.0 / (1.0 + 1e-6), 4.0 / (1.0 + 1e-6)]]);
}

#[test]
fn pivot_step_swaps_normalizes_and_clears() {
    let mut m = matrix(vec![vec![1.0, 0.0, 5.0], vec![0.0, 0.0, 3.0], vec![0.0, 2.0, 4.0], vec![0.0, 1.0, 1.0]]);
    let flags = vec![false, false, true, true];
    pivot_step(&mut m, 1, 1, 2, true, &flags, Real(0.0), Real(1.0));
    assert_eq!(
        floats(m),
        vec![vec![1.0, 0.0, 5.0], vec![0.0, 1.0, 2.0], vec![0.0, 0.0, 3.0], vec![0.0, 0.0, -1.0]]
    );
}

#[test]
fn pivot_step_on_a_reduced_column_changes_nothing() {
    let rows = vec![vec![1.0, 0.0, 5.0], vec![0.0, 1.0, 3.0], vec![0.0, 1e-12, 0.0]];
    let mut m = matrix(rows.clone());
    let flags = vec![false, true, false];
    pivot_step(&mut m, 1, 1, 1, false, &flags, Real(0.0), Real(1.0));
    assert_eq!(floats(m), rows);
}

#[test]
fn subtract_multiple_clears_the_column() {
    let mut m = matrix(vec![vec![1.0, 2.0, 3.0], vec![9.0, 4.0, 6.5]]);
    subtract_multiple(&mut m, 1, 0, Real(2.0), 1, Real(0.0));
    assert_eq!(floats(m), vec![vec![1.0, 2.0, 3.0], vec![9.0, 0.0, 0.5]]);
}

#[test]
fn eliminate_column_clears_the_marked_rows_only() {
    let mut m = matrix(vec![vec![2.0, 5.0], vec![1.0, 1.0], vec![1e-10, 7.0]]);
    let flags = column_flags(&m, 0);
    assert_eq!(flags, vec![true, true, false]);
    eliminate_column(&mut m, 1, 0, &flags, Real(0.0));
    assert_eq!(floats(m), vec![vec![0.0, 3.0], vec![1.0, 1.0], vec![1e-10, 7.0]]);
}

#[test]
fn two_equations_have_the_unique_solution_one_one() {
    let mut m = matrix(vec![vec![2.0, 1.0, 3.0], vec![1.0, -1.0, 0.0]]);
    let pivots = gauss_jordan_elimination(&mut m);
    assert_eq!(pivots, vec![0, 1]);
    match analyze_rref(&m) {
        SolutionType::Unique(s) => {
            assert_eq!(s.len(), 2);
            assert!((s[0].0 - 1.0).abs() < 1e-12);
            assert!((s[1].0 - 1.0).abs() < 1e-12);
        }
        other => panic!("not unique: {:?}", other),
    }
    let reduced = floats(m);
    assert_eq!(reduced[0][0], 1.0);
    assert_eq!(reduced[0][1], 0.0);
    assert_eq!(reduced[1][0], 0.0);
    assert_eq!(reduced[1][1], 1.0);
}

#[test]
fn dependent_rows_are_infinite() {
    assert!(matches!(
        solve(vec![vec![1.0, 1.0, 2.0], vec![2.0, 2.0, 4.0]]),
        SolutionType::Infinite
    ));
}

#[test]
fn contradicting_rows_are_inconsistent() {
    let mut m = matrix(vec![vec![1.0, 1.0, 2.0], vec![1.0, 1.0, 5.0]]);
    gauss_jordan_elimination(&mut m);
    assert!(matches!(analyze_rref(&m), SolutionType::Inconsistent));
    assert_eq!(floats(m), vec![vec![1.0, 1.0, 2.0], vec![0.0, 0.0, 3.0]]);
}

#[test]
fn a_single_zero_row_is_infinite() {
    let mut m = matrix(vec![vec![0.0, 0.0, 0.0]]);
    let pivots = gauss_jordan_elimination(&mut m);
    assert_eq!(pivots, Vec::<usize>::new());
    assert!(matches!(analyze_rref(&m), SolutionType::Infinite));
}

#[test]
fn no_variable_and_a_nonzero_constant_is_inconsistent() {
    let mut m = matrix(vec![vec![5.0]]);
    let pivots = gauss_jordan_elimination(&mut m);
    assert!(pivots.is_empty());
    assert!(matches!(analyze_rref(&m), SolutionType::Inconsistent));
    assert_eq!(floats(m), vec![vec![5.0]]);
}

#[test]
fn no_variable_and_a_zero_constant_is_unique_and_empty() {
    match solve(vec![vec![0.0]]) {
        SolutionType::Unique(s) => assert!(s.is_empty()),
        other => panic!("not unique: {:?}", other),
    }
}

#[test]
fn the_engine_swaps_in_a_usable_pivot() {
    let mut m = matrix(vec![vec![0.0, 1.0, 2.0], vec![1.0, 0.0, 3.0]]);
    let pivots = gauss_jordan_elimination(&mut m);
    assert_eq!(pivots, vec![0, 1]);
    assert_eq!(floats(m), vec![vec![1.0, 0.0, 3.0], vec![0.0, 1.0, 2.0]]);
}

#[test]
fn the_engine_skips_a_column_without_pivot() {
    let mut m = matrix(vec![vec![0.0, 2.0, 4.0, 6.0], vec![0.0, 0.0, 5.0, 10.0]]);
    let pivots = gauss_jordan_elimination(&mut m);
    assert_eq!(pivots, vec![1, 2]);
    assert_eq!(floats(m), vec![vec![0.0, 1.0, 0.0, -1.0], vec![0.0, 0.0, 1.0, 2.0]]);
}

#[test]
fn reduce_with_writes_the_given_constants() {
    let mut m = matrix(vec![vec![2.0, 4.0], vec![4.0, 4.0]]);
    let pivots = reduce_with(&mut m, Real(0.0), Real(1.0));
    assert_eq!(pivots, vec![0]);
    assert_eq!(floats(m), vec![vec![1.0, 2.0], vec![0.0, -4.0]]);
}

#[test]
fn pivot_columns_grow_with_the_row() {
    let mut m = matrix(vec![
        vec![0.0, 0.0, 3.0, 1.0, 2.0],
        vec![0.0, 2.0, 1.0, 0.0, 1.0],
        vec![0.0, 4.0, 2.0, 5.0, 7.0],
        vec![0.0, 2.0, 4.0, 1.0, 3.0],
    ]);
    let pivots = gauss_jordan_elimination(&mut m);
    assert_eq!(pivots, vec![1, 2, 3]);
    for i in 1..pivots.len() {
        assert!(pivots[i - 1] < pivots[i]);
    }
    let leads = leading_columns(&m);
    assert_eq!(leads, vec![Some(1), Some(2), Some(3), None]);
    let reduced = floats(m);
    for (i, c) in pivots.iter().enumerate() {
        for (r, row) in reduced.iter().enumerate() {
            assert_eq!(row[*c], if r == i { 1.0 } else { 0.0 });
        }
    }
}

#[test]
fn reducing_a_reduced_matrix_changes_nothing() {
    let mut m = matrix(vec![
        vec![2.0, 1.0, -1.0, 8.0],
        vec![-3.0, -1.0, 2.0, -11.0],
        vec![-2.0, 1.0, 2.0, -3.0],
    ]);
    let first = gauss_jordan_elimination(&mut m);
    let once = floats(m);
    let mut again = matrix(once.clone());
    let second = gauss_jordan_elimination(&mut again);
    assert_eq!(first, second);
    assert_eq!(floats(again), once);
}

#[test]
fn a_unique_solution_satisfies_the_given_equations() {
    let rows = vec![
        vec![2.0, 1.0, -1.0, 8.0],
        vec![-3.0, -1.0, 2.0, -11.0],
        vec![-2.0, 1.0, 2.0, -3.0],
    ];
    let given = matrix(rows.clone());
    let solution = match solve(rows) {
        SolutionType::Unique(s) => s,
        other => panic!("not unique: {:?}", other),
    };
    assert!((solution[0].0 - 2.0).abs() < 1e-9);
    assert!((solution[1].0 - 3.0).abs() < 1e-9);
    assert!((solution[2].0 + 1.0).abs() < 1e-9);
    match verify_solution(&given, &solution) {
        Ok(Verification::Residuals { equations, worst }) => {
            assert_eq!(equations.len(), 3);
            assert_eq!(equations[0].rhs, Real(8.0));
            assert_eq!(equations[1].rhs, Real(-11.0));
            assert_eq!(equations[2].rhs, Real(-3.0));
            for e in equations.iter() {
                assert!(e.residual.0 < 10.0 * EPSILON);
                assert!(e.residual.0 <= worst.0);
            }
            assert!(worst.0 < 10.0 * EPSILON);
        }
        other => panic!("no residuals: {:?}", other),
    }
}

#[test]
fn leading_columns_find_the_first_entry_over_the_tolerance() {
    let m = matrix(vec![
        vec![1e-12, 1.0, 2.0],
        vec![0.0, 0.0, 3.0],
        vec![0.0, 0.0, 0.0],
        vec![-4.0, 0.0, 0.0],
    ]);
    assert_eq!(leading_columns(&m), vec![Some(1), Some(2), None, Some(0)]);
}

#[test]
fn verdict_follows_rank_and_contradiction() {
    assert_eq!(verdict(&vec![Some(0), Some(1)], 2), Verdict::Unique);
    assert_eq!(verdict(&vec![Some(0), None], 2), Verdict::Infinite);
    assert_eq!(verdict(&vec![None], 2), Verdict::Infinite);
    assert_eq!(verdict(&vec![Some(0), Some(2)], 2), Verdict::Inconsistent);
    assert_eq!(verdict(&vec![Some(2), Some(0), Some(1)], 2), Verdict::Inconsistent);
    assert_eq!(verdict(&vec![Some(0), Some(1), None], 2), Verdict::Unique);
    assert_eq!(verdict(&vec![Some(0)], 0), Verdict::Inconsistent);
    assert_eq!(verdict(&vec![None], 0), Verdict::Unique);
}

#[test]
fn count_pivots_counts_leads_in_variable_columns() {
    assert_eq!(count_pivots(&vec![Some(0), Some(1), None], 2), 2);
    assert_eq!(count_pivots(&vec![Some(0), Some(2), Some(5)], 2), 1);
    assert_eq!(count_pivots(&vec![Some(0), Some(0), Some(0)], 1), 3);
    assert_eq!(count_pivots(&vec![None, None], 4), 0);
    assert_eq!(count_pivots(&Vec::new(), 4), 0);
}

#[test]
fn verdict_on_no_rows_and_no_variables_is_unique() {
    assert_eq!(verdict(&Vec::new(), 0), Verdict::Unique);
    assert_eq!(verdict(&Vec::new(), 3), Verdict::Infinite);
}

#[test]
fn verdict_with_more_pivot_rows_than_variables_is_not_unique() {
    assert_eq!(verdict(&vec![Some(0), Some(0)], 1), Verdict::Infinite);
}

#[test]
fn solution_from_reads_the_constants_of_the_pivot_rows() {
    let m = matrix(vec![
        vec![0.0, 1.0, 0.0, 7.0],
        vec![0.0, 0.0, 0.0, 0.0],
        vec![1.0, 0.0, 0.0, 5.0],
    ]);
    let leads = vec![Some(1), None, Some(0)];
    let s = solution_from(&m, &leads, Real(-1.0));
    assert_eq!(s, vec![Real(5.0), Real(7.0), Real(-1.0)]);
}

#[test]
fn classify_builds_the_solution_only_when_unique() {
    let m = matrix(vec![vec![1.0, 0.0, 4.0], vec![0.0, 1.0, 6.0]]);
    match classify(&m, &vec![Some(0), Some(1)], Real(0.0)) {
        SolutionType::Unique(s) => assert_eq!(s, vec![Real(4.0), Real(6.0)]),
        other => panic!("not unique: {:?}", other),
    }
    assert!(matches!(classify(&m, &vec![Some(0), None], Real(0.0)), SolutionType::Infinite));
    assert!(matches!(
        classify(&m, &vec![Some(0), Some(2)], Real(0.0)),
        SolutionType::Inconsistent
    ));
}

#[test]
fn constants_violate_when_any_flag_is_set() {
    assert!(!constants_violate(&Vec::new()));
    assert!(!constants_violate(&vec![false, false]));
    assert!(constants_violate(&vec![false, true]));
}

#[test]
fn verify_solution_computes_each_dot_product() {
    let m = matrix(vec![vec![2.0, 1.0, 3.0], vec![1.0, -1.0, 0.0]]);
    let s = vec![Real(4.0), Real(0.5)];
    match verify_solution(&m, &s) {
        Ok(Verification::Residuals { equations, worst }) => {
            assert_eq!(equations[0].lhs, Real(8.5));
            assert_eq!(equations[0].residual, Real(5.5));
            assert_eq!(equations[1].lhs, Real(3.5));
            assert_eq!(equations[1].residual, Real(3.5));
            assert_eq!(worst, Real(5.5));
        }
        other => panic!("no residuals: {:?}", other),
    }
}

#[test]
fn verify_solution_reports_each_residual_and_the_worst() {
    let m = matrix(vec![vec![2.0, 1.0, 3.0], vec![1.0, -1.0, 0.0]]);
    let s = vec![Real(1.0), Real(2.0)];
    match verify_solution(&m, &s) {
        Ok(Verification::Residuals { equations, worst }) => {
            assert_eq!(equations.len(), 2);
            assert_eq!(equations[0].lhs, Real(4.0));
            assert_eq!(equations[0].rhs, Real(3.0));
            assert_eq!(equations[0].residual, Real(1.0));
            assert_eq!(equations[1].lhs, Real(-1.0));
            assert_eq!(equations[1].rhs, Real(0.0));
            assert_eq!(equations[1].residual, Real(1.0));
            assert_eq!(worst, Real(1.0));
        }
        other => panic!("no residuals: {:?}", other),
    }
}

#[test]
fn verify_solution_refuses_a_solution_of_the_wrong_length() {
    let m = matrix(vec![vec![2.0, 1.0, 3.0], vec![1.0, -1.0, 0.0]]);
    let s = vec![Real(1.0)];
    assert_eq!(
        verify_solution(&m, &s).err(),
        Some(VerificationShapeMismatch { solution_len: 1, vars: 2 })
    );
}

#[test]
fn verify_solution_without_variables_looks_at_the_constants() {
    let s: Vec<Real> = Vec::new();
    let zeros = matrix(vec![vec![0.0], vec![1e-12]]);
    assert!(matches!(verify_solution(&zeros, &s), Ok(Verification::TriviallySatisfied)));
    let five = matrix(vec![vec![0.0], vec![5.0]]);
    assert!(matches!(verify_solution(&five, &s), Ok(Verification::TriviallyViolated)));
}

#[test]
fn duplicate_copies_every_entry() {
    let mut m = matrix(vec![vec![1.0, 2.0], vec![3.0, 4.0]]);
    let copy = m.duplicate();
    m.set(0, 0, Real(9.0));
    assert_eq!(floats(copy), vec![vec![1.0, 2.0], vec![3.0, 4.0]]);
    assert_eq!(floats(m), vec![vec![9.0, 2.0], vec![3.0, 4.0]]);
}

#[test]
fn white_space_is_the_unicode_property() {
    for c in [' ', '\t', '\n', '\u{0B}', '\u{0C}', '\r', '\u{85}', '\u{A0}', '\u{1680}'] {
        assert!(is_whitespace(c));
    }
    for c in ['\u{2000}', '\u{200A}', '\u{2028}', '\u{2029}', '\u{202F}', '\u{205F}', '\u{3000}'] {
        assert!(is_whitespace(c));
    }
    for c in ['a', '0', '-', '.', '\u{08}', '\u{0E}', '\u{1F}', '\u{200B}', '\u{180E}', '\u{FEFF}'] {
        assert!(!is_whitespace(c));
    }
    let mut code: u32 = 0;
    while code <= 0x3100 {
        if let Some(c) = char::from_u32(code) {
            assert_eq!(is_whitespace(c), c.is_whitespace());
        }
        code += 1;
    }
}

#[test]
fn tokens_in_cuts_at_white_space() {
    let text = chars("  2 1\t3.5  ");
    let tokens = strings(vec![tokens_in(&text, 0, text.len())]);
    assert_eq!(tokens, vec![vec!["2".to_string(), "1".to_string(), "3.5".to_string()]]);
    let part = strings(vec![tokens_in(&text, 3, 8)]);
    assert_eq!(part, vec![vec!["1".to_string(), "3.".to_string()]]);
    assert!(tokens_in(&text, 0, 2).is_empty());
    assert!(tokens_in(&text, 4, 4).is_empty());
}

#[test]
fn token_rows_skip_blank_lines() {
    let rows = strings(token_rows(&chars("2 1 3\n\n  \t \r\n1 -1 0\r\n")));
    assert_eq!(
        rows,
        vec![
            vec!["2".to_string(), "1".to_string(), "3".to_string()],
            vec!["1".to_string(), "-1".to_string(), "0".to_string()],
        ]
    );
    assert!(token_rows(&chars("")).is_empty());
    assert!(token_rows(&chars("\n \n\n")).is_empty());
    assert_eq!(strings(token_rows(&chars("7"))), vec![vec!["7".to_string()]]);
}

#[test]
fn keep_present_drops_the_absent() {
    assert_eq!(keep_present(&vec![Some(1), None, Some(3), None]), vec![1, 3]);
    assert_eq!(keep_present::<i32>(&vec![None, None]), Vec::<i32>::new());
    assert_eq!(keep_present(&Vec::<Option<i32>>::new()), Vec::<i32>::new());
}

#[test]
fn parse_rows_drop_tokens_that_are_no_numbers() {
    let tokens = token_rows(&chars("1 x 2.5\nabc\n-3e2 4"));
    let rows: Vec<Vec<Real>> = parse_rows(&tokens);
    assert_eq!(rows, vec![vec![Real(1.0), Real(2.5)], vec![], vec![Real(-300.0), Real(4.0)]]);
}

#[test]
fn read_matrix_reads_one_row_per_line() {
    let m: Matrix<Real> = read_matrix_from_input(&chars("2 1 3\n1 -1 0")).unwrap();
    assert_eq!(floats(m), vec![vec![2.0, 1.0, 3.0], vec![1.0, -1.0, 0.0]]);
}

#[test]
fn read_matrix_refuses_a_text_without_numbers() {
    let empty: Result<Matrix<Real>, MalformedMatrixError> = read_matrix_from_input(&chars(""));
    assert_eq!(empty.err(), Some(MalformedMatrixError::NoRows));
    let blank: Result<Matrix<Real>, MalformedMatrixError> = read_matrix_from_input(&chars(" \n\t\n"));
    assert_eq!(blank.err(), Some(MalformedMatrixError::NoRows));
    let words: Result<Matrix<Real>, MalformedMatrixError> = read_matrix_from_input(&chars("a b\n1 2"));
    assert_eq!(words.err(), Some(MalformedMatrixError::EmptyRow));
}

#[test]
fn read_matrix_refuses_ragged_lines() {
    let ragged: Result<Matrix<Real>, MalformedMatrixError> = read_matrix_from_input(&chars("1 2 3\n4 5"));
    assert_eq!(ragged.err(), Some(MalformedMatrixError::RaggedRows));
    let dropped: Result<Matrix<Real>, MalformedMatrixError> = read_matrix_from_input(&chars("1 2 3\n4 x 6"));
    assert_eq!(dropped.err(), Some(MalformedMatrixError::RaggedRows));
}

#[test]
fn text_with_a_unique_solution() {
    match solve_text("2 1 3\n1 -1 0") {
        SolutionType::Unique(s) => {
            assert_eq!(s.len(), 2);
            assert!((s[0].0 - 1.0).abs() < 1e-12);
            assert!((s[1].0 - 1.0).abs() < 1e-12);
        }
        other => panic!("not unique: {:?}", other),
    }
}

#[test]
fn text_with_dependent_rows() {
    assert!(matches!(solve_text("1 1 2\n2 2 4"), SolutionType::Infinite));
}

#[test]
fn text_with_contradicting_rows() {
    assert!(matches!(solve_text("1 1 2\n1 1 5"), SolutionType::Inconsistent));
}

#[test]
fn text_with_a_single_zero_row() {
    assert!(matches!(solve_text("0 0 0"), SolutionType::Infinite));
}

#[test]
fn text_with_no_variable_and_a_nonzero_constant() {
    assert!(matches!(solve_text("5"), SolutionType::Inconsistent));
    let m: Matrix<Real> = read_matrix_from_input(&chars("5")).unwrap();
    assert!(matches!(verify_solution(&m, &Vec::new()), Ok(Verification::TriviallyViolated)));
}

#[test]
fn rank_of_a_reduced_matrix_is_at_most_the_number_of_variables() {
    let systems = vec![
        vec![vec![2.0, 1.0, 3.0], vec![1.0, -1.0, 0.0], vec![3.0, 0.0, 3.0], vec![4.0, 2.0, 6.0]],
        vec![vec![1.0, 1.0, 2.0], vec![2.0, 2.0, 4.0]],
        vec![vec![1.0, 1.0, 2.0], vec![1.0, 1.0, 5.0]],
        vec![vec![0.0, 0.0, 0.0]],
        vec![vec![5.0]],
        vec![vec![0.0, 3.0, 6.0, 9.0], vec![0.0, 1.0, 2.0, 4.0]],
    ];
    for rows in systems {
        let mut m = matrix(rows);
        let pivots = gauss_jordan_elimination(&mut m);
        let leads = leading_columns(&m);
        let vars = m.vars();
        let rank = count_pivots(&leads, vars);
        assert!(rank <= vars);
        assert_eq!(rank, pivots.len());
        let contradiction = leads.iter().any(|l| *l == Some(vars));
        let unique = matches!(analyze_rref(&m), SolutionType::Unique(_));
        assert_eq!(unique, rank == vars && !contradiction);
        assert_eq!(verdict(&leads, vars) == Verdict::Inconsistent, contradiction);
    }
}

#[test]
fn tolerance_judgements_are_strict() {
    assert!(exceeds_tolerance(Real(1e-8)));
    assert!(exceeds_tolerance(Real(-2.0)));
    assert!(!exceeds_tolerance(Real(1e-9)));
    assert!(!exceeds_tolerance(Real(-1e-10)));
    assert!(!exceeds_tolerance(Real(0.0)));
    assert!(!exceeds_tolerance(Real(f64::NAN)));
    assert!(below_tolerance(Real(1e-10)));
    assert!(below_tolerance(Real(-1e-10)));
    assert!(below_tolerance(Real(0.0)));
    assert!(!below_tolerance(Real(1e-9)));
    assert!(!below_tolerance(Real(-1e-9)));
    assert!(!below_tolerance(Real(3.0)));
    assert!(!below_tolerance(Real(f64::NAN)));
}
