//! The scoring scheme: what a pair of symbols and what a gap contribute.

use vstd::prelude::*;

verus! {

/// The three integers that price an alignment.
#[derive(Clone, Copy, Debug, PartialEq, Eq, Structural)]
pub struct ScoringParameters {
    /// Added where two equal symbols stand opposite each other.
    pub match_score: i32,
    /// Added where two different symbols stand opposite each other.
    pub mismatch_score: i32,
    /// Added where a symbol stands opposite a gap.
    pub gap_penalty: i32,
}

/// What a pair of symbols contributes: the match score where they are equal,
/// the mismatch score where they differ.
pub open spec fn substitution_score(x: u8, y: u8, scoring: ScoringParameters) -> int {
    if x == y {
        scoring.match_score as int
    } else {
        scoring.mismatch_score as int
    }
}

impl ScoringParameters {
    /// The scheme used where the caller names none: a match counts +1, a
    /// mismatch -1 and a gap -1.
    pub open spec fn standard() -> ScoringParameters {
        ScoringParameters { match_score: 1i32, mismatch_score: -1i32, gap_penalty: -1i32 }
    }

    /// Fills in what the caller left out. A missing match score is +1, a
    /// missing mismatch score is -1, and a missing gap penalty is the mismatch
    /// score that results.
    pub open spec fn resolved(
        match_score: Option<i32>,
        mismatch_score: Option<i32>,
        gap_penalty: Option<i32>,
    ) -> ScoringParameters {
        let mismatch = match mismatch_score {
            Some(v) => v,
            None => -1i32,
        };
        ScoringParameters {
            match_score: match match_score {
                Some(v) => v,
                None => 1i32,
            },
            mismatch_score: mismatch,
            gap_penalty: match gap_penalty {
                Some(v) => v,
                None => mismatch,
            },
        }
    }

    /// Builds a scheme from optional settings, see [`Self::resolved`].
    pub fn resolve(
        match_score: Option<i32>,
        mismatch_score: Option<i32>,
        gap_penalty: Option<i32>,
    ) -> (scoring: ScoringParameters)
        ensures
            scoring == Self::resolved(match_score, mismatch_score, gap_penalty),
    {
        let mismatch: i32 = match mismatch_score {
            Some(v) => v,
            None => -1,
        };
        let matched: i32 = match match_score {
            Some(v) => v,
            None => 1,
        };
        let gap: i32 = match gap_penalty {
            Some(v) => v,
            None => mismatch,
        };
        ScoringParameters { match_score: matched, mismatch_score: mismatch, gap_penalty: gap }
    }

    /// The contribution of the pair `x`, `y` under this scheme.
    pub fn substitution(&self, x: u8, y: u8) -> (score: i32)
        ensures
            score == substitution_score(x, y, *self),
    {
        if x == y {
            self.match_score
        } else {
            self.mismatch_score
        }
    }
}

impl Default for ScoringParameters {
    fn default() -> (scoring: ScoringParameters)
        ensures
            scoring == ScoringParameters::standard(),
    {
        ScoringParameters { match_score: 1, mismatch_score: -1, gap_penalty: -1 }
    }
}

/// With nothing set, [`ScoringParameters::resolve`] gives the standard scheme.
pub proof fn resolved_nothing_is_standard()
    ensures
        ScoringParameters::resolved(None, None, None) == ScoringParameters::standard(),
{
}

} // verus!
