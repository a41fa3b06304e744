//! The input format: one equation per line, its numbers separated by white
//! space. A line holding white space only is no equation and is skipped.
//! This module cuts the text into the tokens of each row; what number a token
//! spells is the scalar's business, and a token that spells none is dropped.

use vstd::prelude::*;
use crate::matrix::{grid_of, shape_defect, MalformedMatrixError, Matrix};
use crate::scalar::Scalar;

verus! {

/// White space: the characters with the Unicode property `White_Space`.
pub open spec fn is_blank(c: char) -> bool {
    let n: u32 = c as u32;
    ||| 0x09 <= n <= 0x0D
    ||| n == 0x20
    ||| n == 0x85
    ||| n == 0xA0
    ||| n == 0x1680
    ||| 0x2000 <= n <= 0x200A
    ||| n == 0x2028
    ||| n == 0x2029
    ||| n == 0x202F
    ||| n == 0x205F
    ||| n == 0x3000
}

/// Where a run of characters that are not white space ends when it is
/// followed from `i`: at the first white space from `i` on, and at `end` if
/// there is none before it.
pub open spec fn token_end(text: Seq<char>, i: int, end: int) -> int
    decreases end - i,
{
    if i >= end || is_blank(text[i]) {
        i
    } else {
        token_end(text, i + 1, end)
    }
}

/// The tokens of `text` between `i` and `end`: its maximal runs of characters
/// that are not white space, in order.
pub open spec fn tokens_between(text: Seq<char>, i: int, end: int) -> Seq<Seq<char>>
    decreases end - i,
    via tokens_between_decreases
{
    if i >= end {
        Seq::empty()
    } else if is_blank(text[i]) {
        tokens_between(text, i + 1, end)
    } else {
        let stop = token_end(text, i, end);
        seq![text.subrange(i, stop)] + tokens_between(text, stop, end)
    }
}

#[via_fn]
proof fn tokens_between_decreases(text: Seq<char>, i: int, end: int) {
    if i < end && !is_blank(text[i]) {
        lemma_token_end(text, i + 1, end);
    }
}

/// A run ends at or after the place it is looked for from, and not after `end`
/// unless it is looked for from there.
pub proof fn lemma_token_end(text: Seq<char>, i: int, end: int)
    ensures
        i <= token_end(text, i, end),
        i <= end ==> token_end(text, i, end) <= end,
    decreases end - i,
{
    if i < end && !is_blank(text[i]) {
        lemma_token_end(text, i + 1, end);
    }
}

/// No white space stands between `i` and the end of the run that is looked
/// for from `i`.
pub proof fn lemma_token_end_run(text: Seq<char>, i: int, end: int)
    requires
        0 <= i,
    ensures
        forall|j: int| i <= j < token_end(text, i, end) ==> !is_blank(#[trigger] text[j]),
    decreases end - i,
{
    if i < end && !is_blank(text[i]) {
        lemma_token_end_run(text, i + 1, end);
    }
}

/// A word: not empty, and without white space.
pub open spec fn is_word(token: Seq<char>) -> bool {
    token.len() > 0 && forall|j: int| 0 <= j < token.len() ==> !is_blank(#[trigger] token[j])
}

/// Every token is a word.
pub proof fn lemma_tokens_are_words(text: Seq<char>, i: int, end: int)
    requires
        0 <= i,
        end <= text.len(),
    ensures
        forall|k: int|
            0 <= k < tokens_between(text, i, end).len() ==> is_word(
                #[trigger] tokens_between(text, i, end)[k],
            ),
    decreases end - i,
{
    if i < end {
        if is_blank(text[i]) {
            lemma_tokens_are_words(text, i + 1, end);
            assert(tokens_between(text, i, end) == tokens_between(text, i + 1, end));
        } else {
            let stop = token_end(text, i, end);
            lemma_token_end(text, i + 1, end);
            lemma_token_end_run(text, i, end);
            lemma_tokens_are_words(text, stop, end);
            let first = text.subrange(i, stop);
            let rest = tokens_between(text, stop, end);
            assert(tokens_between(text, i, end) == seq![first] + rest);
            assert(is_word(first)) by {
                assert forall|j: int| 0 <= j < first.len() implies !is_blank(
                    #[trigger] first[j],
                ) by {
                    assert(first[j] == text[i + j]);
                }
            }
            assert forall|k: int| 0 <= k < tokens_between(text, i, end).len() implies is_word(
                #[trigger] tokens_between(text, i, end)[k],
            ) by {
                if k > 0 {
                    assert(tokens_between(text, i, end)[k] == rest[k - 1]);
                }
            }
        }
    }
}

/// Where the line that holds position `i` ends: the first line feed from `i`
/// on, and the end of the text if there is none.
pub open spec fn line_end(text: Seq<char>, i: int) -> int
    decreases text.len() - i,
{
    if i >= text.len() || text[i] == '\n' {
        i
    } else {
        line_end(text, i + 1)
    }
}

/// A line ends at or after the place it is looked for from, within the text.
pub proof fn lemma_line_end(text: Seq<char>, i: int)
    ensures
        i <= line_end(text, i),
        i <= text.len() ==> line_end(text, i) <= text.len(),
    decreases text.len() - i,
{
    if i < text.len() && text[i] != '\n' {
        lemma_line_end(text, i + 1);
    }
}

/// The rows of `text` from position `i` on, `i` being the start of a line:
/// the tokens of each line that has any.
pub open spec fn rows_from(text: Seq<char>, i: int) -> Seq<Seq<Seq<char>>>
    decreases text.len() - i,
    via rows_from_decreases
{
    if i >= text.len() {
        Seq::empty()
    } else {
        let stop = line_end(text, i);
        let tokens = tokens_between(text, i, stop);
        let rest = if stop < text.len() {
            rows_from(text, stop + 1)
        } else {
            Seq::empty()
        };
        if tokens.len() > 0 {
            seq![tokens] + rest
        } else {
            rest
        }
    }
}

#[via_fn]
proof fn rows_from_decreases(text: Seq<char>, i: int) {
    lemma_line_end(text, i);
}

/// Every row holds a token: a line of white space gives no row.
pub proof fn lemma_rows_hold_tokens(text: Seq<char>, i: int)
    requires
        0 <= i,
    ensures
        forall|r: int|
            0 <= r < rows_from(text, i).len() ==> (#[trigger] rows_from(text, i)[r]).len() > 0,
    decreases text.len() - i,
{
    if i < text.len() {
        let stop = line_end(text, i);
        lemma_line_end(text, i);
        let tokens = tokens_between(text, i, stop);
        let rest = if stop < text.len() {
            rows_from(text, stop + 1)
        } else {
            Seq::empty()
        };
        if stop < text.len() {
            lemma_rows_hold_tokens(text, stop + 1);
        }
        assert forall|r: int| 0 <= r < rows_from(text, i).len() implies (#[trigger] rows_from(
            text,
            i,
        )[r]).len() > 0 by {
            if tokens.len() > 0 {
                assert(rows_from(text, i) == seq![tokens] + rest);
                if r > 0 {
                    assert(rows_from(text, i)[r] == rest[r - 1]);
                }
            } else {
                assert(rows_from(text, i) == rest);
            }
        }
    }
}

/// The rows of a text: for each line with a token, its tokens.
pub open spec fn rows_of(text: Seq<char>) -> Seq<Seq<Seq<char>>> {
    rows_from(text, 0)
}

/// What a vector of rows of tokens holds.
pub open spec fn rows_view(rows: Seq<Vec<Vec<char>>>) -> Seq<Seq<Seq<char>>> {
    Seq::new(rows.len(), |r: int| grid_of(rows[r]@))
}

/// Whether `c` is white space.
pub fn is_whitespace(c: char) -> (blank: bool)
    ensures
        blank == is_blank(c),
{
    let n: u32 = c as u32;
    (0x09 <= n && n <= 0x0D) || n == 0x20 || n == 0x85 || n == 0xA0 || n == 0x1680 || (0x2000 <= n
        && n <= 0x200A) || n == 0x2028 || n == 0x2029 || n == 0x202F || n == 0x205F || n == 0x3000
}

/// Cuts the part of `text` between `start` and `end` into its tokens.
pub fn tokens_in(text: &Vec<char>, start: usize, end: usize) -> (tokens: Vec<Vec<char>>)
    requires
        start <= end <= text@.len(),
    ensures
        grid_of(tokens@) == tokens_between(text@, start as int, end as int),
{
    let mut tokens: Vec<Vec<char>> = Vec::new();
    let mut i: usize = start;
    while i < end
        invariant
            start <= i <= end <= text@.len(),
            grid_of(tokens@) + tokens_between(text@, i as int, end as int) =~= tokens_between(
                text@,
                start as int,
                end as int,
            ),
        decreases end - i,
    {
        if is_whitespace(text[i]) {
            i += 1;
        } else {
            let mut token: Vec<char> = Vec::new();
            let mut j: usize = i;
            while j < end && !is_whitespace(text[j])
                invariant
                    i <= j <= end <= text@.len(),
                    token@ =~= text@.subrange(i as int, j as int),
                    token_end(text@, i as int, end as int) == token_end(text@, j as int, end as int),
                decreases end - j,
            {
                token.push(text[j]);
                j += 1;
            }
            proof {
                assert(token_end(text@, j as int, end as int) == j);
                assert(j > i);
                assert(grid_of(tokens@.push(token)) =~= grid_of(tokens@) + seq![token@]);
            }
            tokens.push(token);
            i = j;
        }
    }
    tokens
}

/// Cuts a text into rows of tokens: one row for each line that holds a token,
/// in order, with the tokens of that line in order.
pub fn token_rows(text: &Vec<char>) -> (rows: Vec<Vec<Vec<char>>>)
    ensures
        rows_view(rows@) == rows_of(text@),
{
    let n: usize = text.len();
    let mut rows: Vec<Vec<Vec<char>>> = Vec::new();
    let mut i: usize = 0;
    while i < n
        invariant
            n == text@.len(),
            i <= n,
            rows_view(rows@) + rows_from(text@, i as int) =~= rows_from(text@, 0),
        decreases n - i,
    {
        let mut stop: usize = i;
        while stop < n && text[stop] != '\n'
            invariant
                n == text@.len(),
                i <= stop <= n,
                line_end(text@, i as int) == line_end(text@, stop as int),
            decreases n - stop,
        {
            stop += 1;
        }
        let tokens: Vec<Vec<char>> = tokens_in(text, i, stop);
        proof {
            assert(line_end(text@, i as int) == stop);
            assert(rows_from(text@, n as int) =~= Seq::empty());
        }
        if tokens.len() > 0 {
            proof {
                assert(rows_view(rows@.push(tokens)) =~= rows_view(rows@) + seq![grid_of(tokens@)]);
            }
            rows.push(tokens);
        }
        if stop < n {
            i = stop + 1;
        } else {
            i = n;
        }
    }
    rows
}

/// The values that are present in `items`, in order.
pub open spec fn present<T>(items: Seq<Option<T>>) -> Seq<T>
    decreases items.len(),
{
    if items.len() == 0 {
        Seq::empty()
    } else {
        match items.last() {
            Some(v) => present(items.drop_last()).push(v),
            None => present(items.drop_last()),
        }
    }
}

/// Dropping the absent items leaves no more items than there were.
pub proof fn lemma_present_len<T>(items: Seq<Option<T>>)
    ensures
        present(items).len() <= items.len(),
    decreases items.len(),
{
    if items.len() > 0 {
        lemma_present_len(items.drop_last());
    }
}

/// Keeps the values that are present, in order, and drops the rest.
pub fn keep_present<T: Copy>(items: &Vec<Option<T>>) -> (kept: Vec<T>)
    ensures
        kept@ == present(items@),
{
    let mut kept: Vec<T> = Vec::new();
    let mut i: usize = 0;
    while i < items.len()
        invariant
            i <= items.len(),
            kept@ == present(items@.take(i as int)),
        decreases items.len() - i,
    {
        proof {
            assert(items@.take(i + 1).drop_last() =~= items@.take(i as int));
        }
        match items[i] {
            Some(v) => {
                kept.push(v);
            },
            None => {},
        }
        i += 1;
    }
    proof {
        assert(items@.take(items@.len() as int) =~= items@);
    }
    kept
}

/// `value` is what the scalar may read from the token `word`.
pub open spec fn read_from<T: Scalar>(word: Seq<char>, value: Option<T>) -> bool {
    exists|token: Vec<char>| token@ == word && #[trigger] call_ensures(T::parse, (&token, ), value)
}

/// `parsed` holds, token by token, what the scalar may read from `words`.
pub open spec fn read_as<T: Scalar>(words: Seq<Seq<char>>, parsed: Seq<Option<T>>) -> bool {
    &&& parsed.len() == words.len()
    &&& forall|k: int| 0 <= k < parsed.len() ==> read_from(words[k], #[trigger] parsed[k])
}

/// `row` holds the numbers that the scalar may read from `words`, in order,
/// the tokens that spell no number left out.
pub open spec fn row_read<T: Scalar>(words: Seq<Seq<char>>, row: Seq<T>) -> bool {
    exists|parsed: Seq<Option<T>>| #[trigger] read_as(words, parsed) && row == present(parsed)
}

/// `grid` holds, row by row, the numbers read from the rows of tokens `lines`.
pub open spec fn rows_read<T: Scalar>(lines: Seq<Seq<Seq<char>>>, grid: Seq<Seq<T>>) -> bool {
    &&& grid.len() == lines.len()
    &&& forall|r: int| 0 <= r < grid.len() ==> row_read(lines[r], #[trigger] grid[r])
}

/// `res` is what reading `text` gives: the numbers read from its rows of
/// tokens make a grid, and the result is the matrix of that grid, or the
/// defect of its shape.
pub open spec fn matrix_read<T: Scalar>(
    text: Seq<char>,
    res: Result<Matrix<T>, MalformedMatrixError>,
) -> bool {
    exists|grid: Seq<Seq<T>>|
        #[trigger] rows_read(rows_of(text), grid) && match res {
            Ok(m) => shape_defect(grid).is_none() && m.wf() && m@ == grid,
            Err(e) => shape_defect(grid) == Some(e),
        }
}

/// Turns rows of tokens into rows of numbers: each token is handed to the
/// scalar, and a token that it does not read as a number is dropped from its
/// row. The rows stay, in order, an empty one too.
pub fn parse_rows<T: Scalar>(tokens: &Vec<Vec<Vec<char>>>) -> (rows: Vec<Vec<T>>)
    ensures
        rows@.len() == tokens@.len(),
        forall|r: int| 0 <= r < rows@.len() ==> (#[trigger] rows@[r])@.len() <= tokens@[r]@.len(),
        rows_read(rows_view(tokens@), grid_of(rows@)),
{
    let mut rows: Vec<Vec<T>> = Vec::new();
    let mut r: usize = 0;
    while r < tokens.len()
        invariant
            r <= tokens.len(),
            rows@.len() == r,
            forall|k: int| 0 <= k < rows@.len() ==> (#[trigger] rows@[k])@.len() <= tokens@[k]@.len(),
            forall|k: int|
                0 <= k < rows@.len() ==> row_read(grid_of(tokens@[k]@), (#[trigger] rows@[k])@),
        decreases tokens.len() - r,
    {
        let mut parsed: Vec<Option<T>> = Vec::new();
        let mut k: usize = 0;
        while k < tokens[r].len()
            invariant
                r < tokens.len(),
                k <= tokens@[r as int]@.len(),
                parsed@.len() == k,
                forall|i: int|
                    0 <= i < k ==> read_from(tokens@[r as int]@[i]@, #[trigger] parsed@[i]),
            decreases tokens@[r as int]@.len() - k,
        {
            let value: Option<T> = T::parse(&tokens[r][k]);
            assert(read_from(tokens@[r as int]@[k as int]@, value)) by {
                assert(call_ensures(T::parse, (&tokens@[r as int]@[k as int], ), value));
            }
            parsed.push(value);
            k += 1;
        }
        proof {
            lemma_present_len(parsed@);
            assert(read_as(grid_of(tokens@[r as int]@), parsed@));
        }
        let row: Vec<T> = keep_present(&parsed);
        assert(row_read(grid_of(tokens@[r as int]@), row@));
        rows.push(row);
        r += 1;
    }
    assert(rows_read(rows_view(tokens@), grid_of(rows@))) by {
        assert forall|k: int| 0 <= k < grid_of(rows@).len() implies row_read(
            rows_view(tokens@)[k],
            #[trigger] grid_of(rows@)[k],
        ) by {
            assert(row_read(grid_of(tokens@[k]@), rows@[k]@));
        }
    }
    rows
}

/// Reads an augmented matrix from a text: cuts it into rows of tokens, reads
/// the numbers of each row, and makes the matrix of them. The result is an
/// error exactly when those rows of numbers have a defect of shape: when
/// there is none, when the first is empty, when they differ in length.
pub fn read_matrix_from_input<T: Scalar>(text: &Vec<char>) -> (res: Result<Matrix<T>, MalformedMatrixError>)
    ensures
        res == Err::<Matrix<T>, MalformedMatrixError>(MalformedMatrixError::NoRows) <==> rows_of(
            text@,
        ).len() == 0,
        res matches Ok(m) ==> m.wf() && m.nrows() == rows_of(text@).len() && m.ncols() <= rows_of(
            text@,
        )[0].len(),
        matrix_read(text@, res),
{
    let tokens: Vec<Vec<Vec<char>>> = token_rows(text);
    let rows: Vec<Vec<T>> = parse_rows(&tokens);
    proof {
        assert(rows_view(tokens@).len() == tokens@.len());
        assert(grid_of(rows@).len() == rows@.len());
        if rows@.len() > 0 {
            assert(grid_of(rows@)[0] == rows@[0]@);
            assert(rows_view(tokens@)[0] == grid_of(tokens@[0]@));
            assert(grid_of(tokens@[0]@).len() == tokens@[0]@.len());
        }
    }
    let ghost grid = grid_of(rows@);
    let res = Matrix::from_rows(rows);
    proof {
        assert(rows_read(rows_of(text@), grid));
        assert(matrix_read(text@, res));
    }
    res
}

} // verus!
