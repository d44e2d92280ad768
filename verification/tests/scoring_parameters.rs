use raligner::ScoringParameters;

#[test]
fn default_scheme_is_plus_one_minus_one_minus_one() {
    let standard = ScoringParameters::default();
    assert_eq!(standard.match_score, 1);
    assert_eq!(standard.mismatch_score, -1);
    assert_eq!(standard.gap_penalty, -1);
}

#[test]
fn resolve_without_settings_gives_the_default_scheme() {
    assert_eq!(ScoringParameters::resolve(None, None, None), ScoringParameters::default());
}

#[test]
fn missing_gap_penalty_is_the_mismatch_score() {
    let scoring = ScoringParameters::resolve(Some(5), Some(-4), None);
    assert_eq!(scoring, ScoringParameters { match_score: 5, mismatch_score: -4, gap_penalty: -4 });
    let scoring = ScoringParameters::resolve(None, Some(-7), None);
    assert_eq!(scoring, ScoringParameters { match_score: 1, mismatch_score: -7, gap_penalty: -7 });
}

#[test]
fn gap_penalty_can_be_set_apart_from_the_mismatch_score() {
    let scoring = ScoringParameters::resolve(Some(2), Some(-3), Some(-5));
    assert_eq!(scoring, ScoringParameters { match_score: 2, mismatch_score: -3, gap_penalty: -5 });
    let scoring = ScoringParameters::resolve(None, None, Some(-5));
    assert_eq!(scoring, ScoringParameters { match_score: 1, mismatch_score: -1, gap_penalty: -5 });
    let scoring = ScoringParameters::resolve(Some(0), None, None);
    assert_eq!(scoring, ScoringParameters { match_score: 0, mismatch_score: -1, gap_penalty: -1 });
}

#[test]
fn substitution_tells_equal_symbols_from_different_ones() {
    let scoring = ScoringParameters { match_score: 6, mismatch_score: -4, gap_penalty: -10 };
    assert_eq!(scoring.substitution(b'A', b'A'), 6);
    assert_eq!(scoring.substitution(b'A', b'C'), -4);
    assert_eq!(scoring.substitution(b'a', b'A'), -4);
    assert_eq!(scoring.substitution(0, 0), 6);
    assert_eq!(scoring.substitution(0, 255), -4);
}
