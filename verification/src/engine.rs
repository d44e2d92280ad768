//! The alignment engine: sizing, allocation, the two borders, the interior
//! fill, and the score in the last cell.

use crate::alignment::{
    is_optimal_score, lemma_prefix_score_bounded, max3, optimal_score, prefix_score,
    theorem_optimal_score_is_optimal,
};
use crate::matrix::{gap_run, AllocationFailure, Grid, ScoreMatrix};
use crate::scoring::ScoringParameters;
use vstd::prelude::*;
use vstd::string::StringSliceAdditionalSpecFns;

verus! {

/// The matrix has one row for each prefix of `a` and one column for each
/// prefix of `b`, the empty prefixes included.
pub open spec fn is_sized_for(grid: Grid, a: Seq<u8>, b: Seq<u8>) -> bool {
    &&& grid.well_formed()
    &&& grid.rows == a.len() + 1
    &&& grid.cols == b.len() + 1
}

/// Every cell of the matrix holds the score of the prefixes that it belongs
/// to.
pub open spec fn is_filled(
    grid: Grid,
    a: Seq<u8>,
    b: Seq<u8>,
    scoring: ScoringParameters,
) -> bool {
    &&& is_sized_for(grid, a, b)
    &&& forall|i: int, j: int|
        grid.contains(i, j) ==> #[trigger] grid.at(i, j) == prefix_score(
            a,
            b,
            scoring,
            i as nat,
            j as nat,
        )
}

/// The two borders are done, and so is the interior as far as the fill has
/// come: the rows before `row`, and the columns before `col` in that row.
spec fn is_filled_before(
    grid: Grid,
    a: Seq<u8>,
    b: Seq<u8>,
    scoring: ScoringParameters,
    row: int,
    col: int,
) -> bool {
    &&& is_sized_for(grid, a, b)
    &&& forall|i: int, j: int|
        grid.contains(i, j) && (i == 0 || j == 0 || i < row || (i == row && j < col))
            ==> #[trigger] grid.at(i, j) == prefix_score(a, b, scoring, i as nat, j as nat)
}

/// The largest of three values.
fn largest(x: i128, y: i128, z: i128) -> (best: i128)
    ensures
        best == max3(x as int, y as int, z as int),
{
    if x >= y && x >= z {
        x
    } else if y >= z {
        y
    } else {
        z
    }
}

/// Fills the matrix for `a` and `b`: first the two borders, then the
/// interior row by row, each cell from its three neighbours.
pub fn fill(matrix: &mut ScoreMatrix, a: &[u8], b: &[u8], scoring: &ScoringParameters)
    requires
        is_sized_for(old(matrix)@, a@, b@),
    ensures
        is_filled(final(matrix)@, a@, b@, *scoring),
{
    let gap: i32 = scoring.gap_penalty;
    matrix.init(gap);
    let rows: usize = matrix.rows();
    let cols: usize = matrix.cols();
    let mut i: usize = 1;
    while i < rows
        invariant
            1 <= i <= rows,
            rows == a@.len() + 1,
            cols == b@.len() + 1,
            gap == scoring.gap_penalty,
            is_filled_before(matrix@, a@, b@, *scoring, i as int, 0),
        decreases rows - i,
    {
        let mut j: usize = 1;
        while j < cols
            invariant
                1 <= i < rows,
                1 <= j <= cols,
                rows == a@.len() + 1,
                cols == b@.len() + 1,
                gap == scoring.gap_penalty,
                is_filled_before(matrix@, a@, b@, *scoring, i as int, j as int),
            decreases cols - j,
        {
            proof {
                lemma_prefix_score_bounded(a@, b@, *scoring, (i - 1) as nat, j as nat);
                lemma_prefix_score_bounded(a@, b@, *scoring, i as nat, (j - 1) as nat);
                lemma_prefix_score_bounded(a@, b@, *scoring, (i - 1) as nat, (j - 1) as nat);
            }
            let delete: i128 = matrix.get(i - 1, j) + gap as i128;
            let insert: i128 = matrix.get(i, j - 1) + gap as i128;
            let pair: i128 = matrix.get(i - 1, j - 1) + scoring.substitution(
                a[i - 1],
                b[j - 1],
            ) as i128;
            matrix.set(i, j, largest(delete, insert, pair));
            j = j + 1;
        }
        i = i + 1;
    }
}

/// Aligns `a` with `b` in a matrix that the caller supplies, and returns the
/// score. The matrix is left filled.
pub fn align_in(
    matrix: &mut ScoreMatrix,
    a: &[u8],
    b: &[u8],
    scoring: &ScoringParameters,
) -> (score: i128)
    requires
        is_sized_for(old(matrix)@, a@, b@),
    ensures
        score == optimal_score(a@, b@, *scoring),
        is_optimal_score(score as int, a@, b@, *scoring),
        is_filled(final(matrix)@, a@, b@, *scoring),
{
    fill(matrix, a, b, scoring);
    proof {
        theorem_optimal_score_is_optimal(a@, b@, *scoring);
    }
    matrix.get(matrix.rows() - 1, matrix.cols() - 1)
}

/// The alignment of `a` with `b` needs a matrix: neither sequence is empty.
/// Against an empty sequence every symbol stands opposite a gap, and the
/// score is known without one.
pub open spec fn needs_matrix(a: Seq<u8>, b: Seq<u8>) -> bool {
    a.len() > 0 && b.len() > 0
}

/// What [`align`] may hand back for `a` and `b`: a score where no matrix is
/// needed, a failure where the matrix would have too many cells, and never a
/// score other than the optimum.
pub open spec fn is_alignment_outcome(
    result: Result<i128, AllocationFailure>,
    a: Seq<u8>,
    b: Seq<u8>,
    scoring: ScoringParameters,
) -> bool {
    &&& !needs_matrix(a, b) ==> result is Ok
    &&& needs_matrix(a, b) && (a.len() + 1) * (b.len() + 1) > ScoreMatrix::max_cells()
        ==> result is Err
    &&& result matches Ok(score) ==> score == optimal_score(a, b, scoring)
}

/// A matrix with more rows than `usize` can count has too many cells,
/// whatever its number of columns.
proof fn lemma_too_many_cells(m: nat, n: nat)
    requires
        m + 1 > usize::MAX,
    ensures
        (m + 1) * (n + 1) > ScoreMatrix::max_cells(),
{
    assert((m + 1) * (n + 1) >= m + 1) by (nonlinear_arith);
}

/// The global alignment score of `a` and `b`.
///
/// Where one of the two is empty, the score is the length of the other times
/// the gap penalty, and the call cannot fail. Otherwise the matrix is
/// created, filled and dropped again: the call fails where the matrix cannot
/// be had, and in no other way. Where it succeeds, the score is the exact
/// optimum over all alignments of `a` with `b`.
pub fn align(a: &[u8], b: &[u8], scoring: &ScoringParameters) -> (result: Result<
    i128,
    AllocationFailure,
>)
    ensures
        is_alignment_outcome(result, a@, b@, *scoring),
        a@.len() == 0 ==> (result matches Ok(score) && score == b@.len() * scoring.gap_penalty),
        b@.len() == 0 ==> (result matches Ok(score) && score == a@.len() * scoring.gap_penalty),
        result matches Ok(score) ==> is_optimal_score(score as int, a@, b@, *scoring),
{
    proof {
        theorem_optimal_score_is_optimal(a@, b@, *scoring);
    }
    if a.len() == 0 {
        return Ok(gap_run(b.len(), scoring.gap_penalty));
    }
    if b.len() == 0 {
        return Ok(gap_run(a.len(), scoring.gap_penalty));
    }
    let rows: usize = match a.len().checked_add(1) {
        Some(rows) => rows,
        None => {
            proof {
                lemma_too_many_cells(a@.len(), b@.len());
            }
            return Err(AllocationFailure);
        },
    };
    let cols: usize = match b.len().checked_add(1) {
        Some(cols) => cols,
        None => {
            proof {
                lemma_too_many_cells(b@.len(), a@.len());
                assert((a@.len() + 1) * (b@.len() + 1) == (b@.len() + 1) * (a@.len() + 1))
                    by (nonlinear_arith);
            }
            return Err(AllocationFailure);
        },
    };
    let mut matrix = match ScoreMatrix::new(rows, cols) {
        Ok(matrix) => matrix,
        Err(failure) => {
            return Err(failure);
        },
    };
    Ok(align_in(&mut matrix, a, b, scoring))
}

/// The global alignment score of two strings, read byte by byte.
///
/// A missing match score is +1 and a missing mismatch score is -1; a gap
/// costs what a mismatch does. Text in an encoding of more than one byte
/// per character is aligned by its bytes, not by its characters. Where one
/// of the strings is empty the call cannot fail, see [`align`].
pub fn needleman_wunsch(
    a: &str,
    b: &str,
    match_score: Option<i32>,
    mismatch_score: Option<i32>,
) -> (result: Result<i128, AllocationFailure>)
    ensures
        is_alignment_outcome(
            result,
            a.spec_bytes(),
            b.spec_bytes(),
            ScoringParameters::resolved(match_score, mismatch_score, None),
        ),
        a.spec_bytes().len() == 0 ==> (result matches Ok(score) && score == b.spec_bytes().len()
            * ScoringParameters::resolved(match_score, mismatch_score, None).gap_penalty),
        b.spec_bytes().len() == 0 ==> (result matches Ok(score) && score == a.spec_bytes().len()
            * ScoringParameters::resolved(match_score, mismatch_score, None).gap_penalty),
        result matches Ok(score) ==> is_optimal_score(
            score as int,
            a.spec_bytes(),
            b.spec_bytes(),
            ScoringParameters::resolved(match_score, mismatch_score, None),
        ),
{
    let scoring = ScoringParameters::resolve(match_score, mismatch_score, None);
    align(a.as_bytes(), b.as_bytes(), &scoring)
}

/// Two alignments of the same sequences under the same scheme give the
/// same score: nothing but the arguments enters into it. Only the
/// allocation may go one way in one call and the other way in the next.
pub proof fn theorem_repeated_alignment_agrees(
    first: Result<i128, AllocationFailure>,
    second: Result<i128, AllocationFailure>,
    a: Seq<u8>,
    b: Seq<u8>,
    scoring: ScoringParameters,
)
    requires
        is_alignment_outcome(first, a, b, scoring),
        is_alignment_outcome(second, a, b, scoring),
    ensures
        first is Ok && second is Ok ==> first == second,
{
}

} // verus!
