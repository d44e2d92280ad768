//! The mathematical model: what an alignment is, what it scores, and what
//! the best score of two sequences is.
//!
//! Nothing here is executable. The functions that compute scores state their
//! results over the definitions of this module.

use crate::scoring::{substitution_score, ScoringParameters};
use vstd::prelude::*;

verus! {

/// One column of an alignment, read from left to right.
pub enum Step {
    /// A symbol of the first sequence stands opposite a symbol of the second.
    Pair,
    /// A symbol of the first sequence stands opposite a gap.
    Delete,
    /// A symbol of the second sequence stands opposite a gap.
    Insert,
}

/// How many symbols of the first sequence the steps use up.
pub open spec fn taken_from_first(steps: Seq<Step>) -> nat
    decreases steps.len(),
{
    if steps.len() == 0 {
        0
    } else {
        taken_from_first(steps.drop_last()) + if steps.last() is Insert {
            0nat
        } else {
            1nat
        }
    }
}

/// How many symbols of the second sequence the steps use up.
pub open spec fn taken_from_second(steps: Seq<Step>) -> nat
    decreases steps.len(),
{
    if steps.len() == 0 {
        0
    } else {
        taken_from_second(steps.drop_last()) + if steps.last() is Delete {
            0nat
        } else {
            1nat
        }
    }
}

/// The steps align `a` with `b` end to end: they use up both sequences, no
/// more and no less.
pub open spec fn is_alignment(steps: Seq<Step>, a: Seq<u8>, b: Seq<u8>) -> bool {
    taken_from_first(steps) == a.len() && taken_from_second(steps) == b.len()
}

/// The sum of what each step contributes. A pair contributes the
/// substitution score of the two symbols it brings together, every other
/// step the gap penalty.
pub open spec fn alignment_score(
    steps: Seq<Step>,
    a: Seq<u8>,
    b: Seq<u8>,
    scoring: ScoringParameters,
) -> int
    decreases steps.len(),
{
    if steps.len() == 0 {
        0
    } else {
        let before = steps.drop_last();
        alignment_score(before, a, b, scoring) + match steps.last() {
            Step::Pair => substitution_score(
                a[taken_from_first(before) as int],
                b[taken_from_second(before) as int],
                scoring,
            ),
            Step::Delete => scoring.gap_penalty as int,
            Step::Insert => scoring.gap_penalty as int,
        }
    }
}

/// `score` is the best that an alignment of `a` with `b` can reach: some
/// alignment reaches it and none exceeds it.
pub open spec fn is_optimal_score(
    score: int,
    a: Seq<u8>,
    b: Seq<u8>,
    scoring: ScoringParameters,
) -> bool {
    &&& exists|steps: Seq<Step>|
        is_alignment(steps, a, b) && #[trigger] alignment_score(steps, a, b, scoring) == score
    &&& forall|steps: Seq<Step>|
        is_alignment(steps, a, b) ==> #[trigger] alignment_score(steps, a, b, scoring) <= score
}

/// The largest of three integers.
pub open spec fn max3(x: int, y: int, z: int) -> int {
    if x >= y && x >= z {
        x
    } else if y >= z {
        y
    } else {
        z
    }
}

/// The score matrix, cell by cell: entry (`i`, `j`) belongs to the first `i`
/// symbols of `a` and the first `j` symbols of `b`.
///
/// Along the two borders only gaps are possible. Inside, a cell is the best of
/// the cell above plus a gap, the cell to the left plus a gap, and the cell
/// diagonally above plus the substitution score of the two symbols that end
/// the prefixes.
pub open spec fn prefix_score(
    a: Seq<u8>,
    b: Seq<u8>,
    scoring: ScoringParameters,
    i: nat,
    j: nat,
) -> int
    decreases i + j,
{
    if i == 0 {
        j * scoring.gap_penalty
    } else if j == 0 {
        i * scoring.gap_penalty
    } else {
        max3(
            prefix_score(a, b, scoring, (i - 1) as nat, j) + scoring.gap_penalty,
            prefix_score(a, b, scoring, i, (j - 1) as nat) + scoring.gap_penalty,
            prefix_score(a, b, scoring, (i - 1) as nat, (j - 1) as nat) + substitution_score(
                a[i - 1],
                b[j - 1],
                scoring,
            ),
        )
    }
}

/// The global alignment score of `a` and `b`: the last cell of the matrix.
pub open spec fn optimal_score(a: Seq<u8>, b: Seq<u8>, scoring: ScoringParameters) -> int {
    prefix_score(a, b, scoring, a.len(), b.len())
}

/// An alignment that reaches [`prefix_score`], found by walking back from
/// cell (`i`, `j`). Where several moves are equally good the pair is taken
/// before the deletion, and the deletion before the insertion.
pub open spec fn best_alignment(
    a: Seq<u8>,
    b: Seq<u8>,
    scoring: ScoringParameters,
    i: nat,
    j: nat,
) -> Seq<Step>
    decreases i + j,
{
    if i == 0 && j == 0 {
        Seq::empty()
    } else if i == 0 {
        best_alignment(a, b, scoring, i, (j - 1) as nat).push(Step::Insert)
    } else if j == 0 {
        best_alignment(a, b, scoring, (i - 1) as nat, j).push(Step::Delete)
    } else {
        let delete = prefix_score(a, b, scoring, (i - 1) as nat, j) + scoring.gap_penalty;
        let insert = prefix_score(a, b, scoring, i, (j - 1) as nat) + scoring.gap_penalty;
        let pair = prefix_score(a, b, scoring, (i - 1) as nat, (j - 1) as nat)
            + substitution_score(a[i - 1], b[j - 1], scoring);
        if pair >= delete && pair >= insert {
            best_alignment(a, b, scoring, (i - 1) as nat, (j - 1) as nat).push(Step::Pair)
        } else if delete >= insert {
            best_alignment(a, b, scoring, (i - 1) as nat, j).push(Step::Delete)
        } else {
            best_alignment(a, b, scoring, i, (j - 1) as nat).push(Step::Insert)
        }
    }
}

/// One more gap on a border costs one more gap penalty.
proof fn lemma_one_more_gap(n: nat, gap: int)
    ensures
        (n + 1) * gap == n * gap + gap,
{
    assert((n + 1) * gap == n * gap + gap) by (nonlinear_arith);
}

/// A step appended to `steps` is the last one, and `steps` is what came
/// before it.
proof fn lemma_appended_step(steps: Seq<Step>, step: Step)
    ensures
        steps.push(step).drop_last() == steps,
        steps.push(step).last() == step,
        steps.push(step).len() == steps.len() + 1,
{
    assert(steps.push(step).drop_last() =~= steps);
}

/// No sequence of steps scores more than the matrix cell of the prefixes that
/// it uses up.
pub proof fn lemma_steps_never_exceed_prefix_score(
    steps: Seq<Step>,
    a: Seq<u8>,
    b: Seq<u8>,
    scoring: ScoringParameters,
)
    ensures
        alignment_score(steps, a, b, scoring) <= prefix_score(
            a,
            b,
            scoring,
            taken_from_first(steps),
            taken_from_second(steps),
        ),
    decreases steps.len(),
{
    if steps.len() > 0 {
        let before = steps.drop_last();
        let i = taken_from_first(before);
        let j = taken_from_second(before);
        let gap = scoring.gap_penalty as int;
        lemma_steps_never_exceed_prefix_score(before, a, b, scoring);
        lemma_one_more_gap(i, gap);
        lemma_one_more_gap(j, gap);
    }
}

/// The alignment found by walking back from cell (`i`, `j`) uses up exactly
/// the two prefixes and scores what the cell holds.
pub proof fn lemma_best_alignment_reaches_prefix_score(
    a: Seq<u8>,
    b: Seq<u8>,
    scoring: ScoringParameters,
    i: nat,
    j: nat,
)
    ensures
        taken_from_first(best_alignment(a, b, scoring, i, j)) == i,
        taken_from_second(best_alignment(a, b, scoring, i, j)) == j,
        alignment_score(best_alignment(a, b, scoring, i, j), a, b, scoring) == prefix_score(
            a,
            b,
            scoring,
            i,
            j,
        ),
    decreases i + j,
{
    let gap = scoring.gap_penalty as int;
    if i == 0 && j == 0 {
    } else if i == 0 {
        let before = best_alignment(a, b, scoring, i, (j - 1) as nat);
        lemma_best_alignment_reaches_prefix_score(a, b, scoring, i, (j - 1) as nat);
        lemma_appended_step(before, Step::Insert);
        lemma_one_more_gap((j - 1) as nat, gap);
    } else if j == 0 {
        let before = best_alignment(a, b, scoring, (i - 1) as nat, j);
        lemma_best_alignment_reaches_prefix_score(a, b, scoring, (i - 1) as nat, j);
        lemma_appended_step(before, Step::Delete);
        lemma_one_more_gap((i - 1) as nat, gap);
    } else {
        let delete = prefix_score(a, b, scoring, (i - 1) as nat, j) + gap;
        let insert = prefix_score(a, b, scoring, i, (j - 1) as nat) + gap;
        let pair = prefix_score(a, b, scoring, (i - 1) as nat, (j - 1) as nat)
            + substitution_score(a[i - 1], b[j - 1], scoring);
        if pair >= delete && pair >= insert {
            let before = best_alignment(a, b, scoring, (i - 1) as nat, (j - 1) as nat);
            lemma_best_alignment_reaches_prefix_score(
                a,
                b,
                scoring,
                (i - 1) as nat,
                (j - 1) as nat,
            );
            lemma_appended_step(before, Step::Pair);
        } else if delete >= insert {
            let before = best_alignment(a, b, scoring, (i - 1) as nat, j);
            lemma_best_alignment_reaches_prefix_score(a, b, scoring, (i - 1) as nat, j);
            lemma_appended_step(before, Step::Delete);
        } else {
            let before = best_alignment(a, b, scoring, i, (j - 1) as nat);
            lemma_best_alignment_reaches_prefix_score(a, b, scoring, i, (j - 1) as nat);
            lemma_appended_step(before, Step::Insert);
        }
    }
}

/// No cell grows faster than the prefixes do: its magnitude is at most the
/// number of symbols in the two prefixes times the largest magnitude that a
/// 32-bit score can have.
pub proof fn lemma_prefix_score_bounded(
    a: Seq<u8>,
    b: Seq<u8>,
    scoring: ScoringParameters,
    i: nat,
    j: nat,
)
    ensures
        -(i + j) * 0x8000_0000 <= prefix_score(a, b, scoring, i, j) <= (i + j) * 0x8000_0000,
    decreases i + j,
{
    let gap = scoring.gap_penalty as int;
    if i == 0 {
        assert(-j * 0x8000_0000 <= j * gap <= j * 0x8000_0000) by (nonlinear_arith)
            requires
                -0x8000_0000 <= gap <= 0x8000_0000,
        ;
    } else if j == 0 {
        assert(-i * 0x8000_0000 <= i * gap <= i * 0x8000_0000) by (nonlinear_arith)
            requires
                -0x8000_0000 <= gap <= 0x8000_0000,
        ;
    } else {
        lemma_prefix_score_bounded(a, b, scoring, (i - 1) as nat, j);
        lemma_prefix_score_bounded(a, b, scoring, i, (j - 1) as nat);
        lemma_prefix_score_bounded(a, b, scoring, (i - 1) as nat, (j - 1) as nat);
    }
}

/// The last cell of the matrix is the exact optimum: an alignment of `a` with
/// `b` reaches it, and no alignment of the two scores more.
pub proof fn theorem_optimal_score_is_optimal(
    a: Seq<u8>,
    b: Seq<u8>,
    scoring: ScoringParameters,
)
    ensures
        is_optimal_score(optimal_score(a, b, scoring), a, b, scoring),
{
    lemma_best_alignment_reaches_prefix_score(a, b, scoring, a.len(), b.len());
    assert forall|steps: Seq<Step>| is_alignment(steps, a, b) implies #[trigger] alignment_score(
        steps,
        a,
        b,
        scoring,
    ) <= optimal_score(a, b, scoring) by {
        lemma_steps_never_exceed_prefix_score(steps, a, b, scoring);
    }
}

} // verus!
