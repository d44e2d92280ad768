//! What holds of the optimal score whatever the sequences are.

use crate::alignment::{optimal_score, prefix_score};
use crate::scoring::ScoringParameters;
use vstd::prelude::*;

verus! {

/// The smaller of two numbers.
pub open spec fn smaller(x: nat, y: nat) -> nat {
    if x <= y {
        x
    } else {
        y
    }
}

/// The matrix of `b` against `a` is the matrix of `a` against `b`,
/// transposed.
pub proof fn lemma_prefix_score_transposed(
    a: Seq<u8>,
    b: Seq<u8>,
    scoring: ScoringParameters,
    i: nat,
    j: nat,
)
    ensures
        prefix_score(a, b, scoring, i, j) == prefix_score(b, a, scoring, j, i),
    decreases i + j,
{
    if i != 0 && j != 0 {
        lemma_prefix_score_transposed(a, b, scoring, (i - 1) as nat, j);
        lemma_prefix_score_transposed(a, b, scoring, i, (j - 1) as nat);
        lemma_prefix_score_transposed(a, b, scoring, (i - 1) as nat, (j - 1) as nat);
    }
}

/// The score does not depend on which of the two sequences comes first.
pub proof fn theorem_score_is_symmetric(a: Seq<u8>, b: Seq<u8>, scoring: ScoringParameters)
    ensures
        optimal_score(a, b, scoring) == optimal_score(b, a, scoring),
{
    lemma_prefix_score_transposed(a, b, scoring, a.len(), b.len());
}

/// Against the empty sequence every symbol stands opposite a gap: the score
/// is the length of the other sequence times the gap penalty, and zero where
/// both sequences are empty.
pub proof fn theorem_empty_sequence_costs_gaps(other: Seq<u8>, scoring: ScoringParameters)
    ensures
        optimal_score(Seq::<u8>::empty(), other, scoring) == other.len() * scoring.gap_penalty,
        optimal_score(other, Seq::<u8>::empty(), scoring) == other.len() * scoring.gap_penalty,
        optimal_score(Seq::<u8>::empty(), Seq::<u8>::empty(), scoring) == 0,
{
}

/// A higher match score, with the mismatch score and the gap penalty kept,
/// lowers no cell of the matrix.
pub proof fn lemma_prefix_score_grows_with_match_score(
    a: Seq<u8>,
    b: Seq<u8>,
    lower: ScoringParameters,
    higher: ScoringParameters,
    i: nat,
    j: nat,
)
    requires
        lower.match_score <= higher.match_score,
        lower.mismatch_score == higher.mismatch_score,
        lower.gap_penalty == higher.gap_penalty,
    ensures
        prefix_score(a, b, lower, i, j) <= prefix_score(a, b, higher, i, j),
    decreases i + j,
{
    if i != 0 && j != 0 {
        lemma_prefix_score_grows_with_match_score(a, b, lower, higher, (i - 1) as nat, j);
        lemma_prefix_score_grows_with_match_score(a, b, lower, higher, i, (j - 1) as nat);
        lemma_prefix_score_grows_with_match_score(
            a,
            b,
            lower,
            higher,
            (i - 1) as nat,
            (j - 1) as nat,
        );
    }
}

/// Raising the match score while the mismatch score and the gap penalty stay
/// as they are never lowers the optimum.
pub proof fn theorem_score_grows_with_match_score(
    a: Seq<u8>,
    b: Seq<u8>,
    lower: ScoringParameters,
    higher: ScoringParameters,
)
    requires
        lower.match_score <= higher.match_score,
        lower.mismatch_score == higher.mismatch_score,
        lower.gap_penalty == higher.gap_penalty,
    ensures
        optimal_score(a, b, lower) <= optimal_score(a, b, higher),
{
    lemma_prefix_score_grows_with_match_score(a, b, lower, higher, a.len(), b.len());
}

/// Where a match is worth at least a mismatch and at least two gaps, no cell
/// exceeds what its prefixes would score with as many matches as fit and a
/// gap for every symbol left over.
pub proof fn lemma_prefix_score_at_most_all_matches(
    a: Seq<u8>,
    b: Seq<u8>,
    scoring: ScoringParameters,
    i: nat,
    j: nat,
)
    requires
        scoring.match_score >= scoring.mismatch_score,
        scoring.match_score >= 2 * scoring.gap_penalty,
    ensures
        prefix_score(a, b, scoring, i, j) <= (i + j) * scoring.gap_penalty + smaller(i, j) * (
        scoring.match_score - 2 * scoring.gap_penalty),
    decreases i + j,
{
    let gap = scoring.gap_penalty as int;
    let gain = scoring.match_score - 2 * scoring.gap_penalty;
    if i == 0 || j == 0 {
        assert(smaller(i, j) * gain == 0) by (nonlinear_arith)
            requires
                smaller(i, j) == 0,
        ;
    } else {
        let up = (i - 1) as nat;
        let left = (j - 1) as nat;
        lemma_prefix_score_at_most_all_matches(a, b, scoring, up, j);
        lemma_prefix_score_at_most_all_matches(a, b, scoring, i, left);
        lemma_prefix_score_at_most_all_matches(a, b, scoring, up, left);
        assert((up + j) * gap + gap == (i + j) * gap) by (nonlinear_arith)
            requires
                up + 1 == i,
        ;
        assert((i + left) * gap + gap == (i + j) * gap) by (nonlinear_arith)
            requires
                left + 1 == j,
        ;
        assert((up + left) * gap + 2 * gap == (i + j) * gap) by (nonlinear_arith)
            requires
                up + 1 == i,
                left + 1 == j,
        ;
        assert(smaller(up, j) * gain <= smaller(i, j) * gain) by (nonlinear_arith)
            requires
                smaller(up, j) <= smaller(i, j),
                gain >= 0,
        ;
        assert(smaller(i, left) * gain <= smaller(i, j) * gain) by (nonlinear_arith)
            requires
                smaller(i, left) <= smaller(i, j),
                gain >= 0,
        ;
        assert(smaller(up, left) * gain + gain == smaller(i, j) * gain) by (nonlinear_arith)
            requires
                smaller(up, left) + 1 == smaller(i, j),
        ;
    }
}

/// Along the diagonal of a sequence's matrix against itself every cell
/// reaches one match for each symbol of its prefix.
pub proof fn lemma_diagonal_reaches_all_matches(a: Seq<u8>, scoring: ScoringParameters, i: nat)
    requires
        i <= a.len(),
    ensures
        prefix_score(a, a, scoring, i, i) >= i * scoring.match_score,
    decreases i,
{
    let matched = scoring.match_score as int;
    if i > 0 {
        let before = (i - 1) as nat;
        lemma_diagonal_reaches_all_matches(a, scoring, before);
        assert(before * matched + matched == i * matched) by (nonlinear_arith)
            requires
                before + 1 == i,
        ;
    }
}

/// A sequence aligned with itself scores one match for each of its symbols,
/// provided that a match is worth at least a mismatch and at least two gaps.
pub proof fn theorem_self_alignment_is_all_matches(a: Seq<u8>, scoring: ScoringParameters)
    requires
        scoring.match_score >= scoring.mismatch_score,
        scoring.match_score >= 2 * scoring.gap_penalty,
    ensures
        optimal_score(a, a, scoring) == a.len() * scoring.match_score,
{
    let n = a.len();
    let gap = scoring.gap_penalty as int;
    let matched = scoring.match_score as int;
    lemma_prefix_score_at_most_all_matches(a, a, scoring, n, n);
    lemma_diagonal_reaches_all_matches(a, scoring, n);
    assert((n + n) * gap + n * (matched - 2 * gap) == n * matched) by (nonlinear_arith);
}

/// Under the standard scheme a sequence aligned with itself scores its
/// length.
pub proof fn theorem_self_alignment_scores_length(a: Seq<u8>)
    ensures
        optimal_score(a, a, ScoringParameters::standard()) == a.len(),
{
    theorem_self_alignment_is_all_matches(a, ScoringParameters::standard());
}

} // verus!
