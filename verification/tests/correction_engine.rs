use sunswitcher::correction::{
    Confidence, CorrectionCandidate, CorrectionCandidateProvider, CorrectionDecision,
    CorrectionEngine, ReplacementText,
};
use sunswitcher::input::{Boundary, CompletedToken};

struct Provider(Vec<CorrectionCandidate>);

impl CorrectionCandidateProvider for Provider {
    fn candidates(&self, _token: &CompletedToken) -> Vec<CorrectionCandidate> {
        self.0.clone()
    }
}

/// A confidence written in millionths: 800_000 is 0.80.
fn candidate(text: &str, millionths: u32) -> CorrectionCandidate {
    CorrectionCandidate::new(
        ReplacementText::try_new(text).unwrap(),
        Confidence::try_new(millionths).unwrap(),
    )
}

#[test]
fn selects_the_highest_confidence_candidate_above_threshold() {
    let engine = CorrectionEngine::new(
        Provider(vec![candidate("дал", 800_000), candidate("для", 990_000)]),
        Confidence::try_new(900_000).unwrap(),
    );
    let token = CompletedToken::new("дял", Boundary::Character(' '));

    let CorrectionDecision::Replace(replacement) = engine.decide(&token) else {
        panic!("expected replacement");
    };
    assert_eq!(replacement.as_str(), "для");
}

#[test]
fn keeps_token_when_no_candidate_reaches_threshold() {
    let engine = CorrectionEngine::new(
        Provider(vec![candidate("для", 700_000)]),
        Confidence::try_new(900_000).unwrap(),
    );
    let token = CompletedToken::new("дял", Boundary::Character(' '));

    assert_eq!(engine.decide(&token), CorrectionDecision::Keep);
}

#[test]
fn typed_value_contracts_reject_invalid_values() {
    assert!(ReplacementText::try_new("").is_err());
    assert!(ReplacementText::try_new("a\0b").is_err());
    // 1.1 is more than certainty; a negative or NaN confidence cannot be written in millionths.
    assert!(Confidence::try_new(1_100_000).is_err());
    assert!(Confidence::try_new(u32::MAX).is_err());
    assert!(Confidence::try_new(1_000_000).is_ok());
    assert_eq!(Confidence::try_new(1_000_000).unwrap(), Confidence::certain());
}

#[test]
fn certification_candidate_order_does_not_change_the_best_decision() {
    let token = CompletedToken::new("дял", Boundary::Character(' '));
    let threshold = Confidence::try_new(750_000).unwrap();

    for candidates in [
        vec![candidate("дал", 800_000), candidate("для", 990_000)],
        vec![candidate("для", 990_000), candidate("дал", 800_000)],
    ] {
        let engine = CorrectionEngine::new(Provider(candidates), threshold);
        let CorrectionDecision::Replace(replacement) = engine.decide(&token) else {
            panic!("expected replacement");
        };
        assert_eq!(replacement.as_str(), "для");
    }
}

#[test]
fn certification_never_replaces_a_token_with_identical_text() {
    let token = CompletedToken::new("для", Boundary::Character(' '));
    let engine = CorrectionEngine::new(
        Provider(vec![candidate("для", 1_000_000)]),
        Confidence::try_new(500_000).unwrap(),
    );

    assert_eq!(engine.decide(&token), CorrectionDecision::Keep);
}

#[test]
fn certification_empty_candidate_set_is_a_safe_keep() {
    let token = CompletedToken::new("неизвестное", Boundary::Character(' '));
    let engine = CorrectionEngine::new(Provider(Vec::new()), Confidence::try_new(500_000).unwrap());

    assert_eq!(engine.decide(&token), CorrectionDecision::Keep);
}

#[test]
fn equal_confidence_tie_goes_to_the_later_candidate() {
    let token = CompletedToken::new("дял", Boundary::Character(' '));
    let engine = CorrectionEngine::new(
        Provider(vec![candidate("дал", 900_000), candidate("для", 900_000)]),
        Confidence::try_new(500_000).unwrap(),
    );
    let CorrectionDecision::Replace(replacement) = engine.decide(&token) else {
        panic!("expected replacement");
    };
    assert_eq!(replacement.as_str(), "для");
}

#[test]
fn threshold_is_inclusive() {
    let token = CompletedToken::new("дял", Boundary::Character(' '));
    let engine = CorrectionEngine::new(
        Provider(vec![candidate("для", 900_000)]),
        Confidence::try_new(900_000).unwrap(),
    );
    assert!(matches!(engine.decide(&token), CorrectionDecision::Replace(_)));
}
