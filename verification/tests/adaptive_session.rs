use sunswitcher::adaptive::learning::{extract_tokens, learnable_tokens, should_record_user_word};
use sunswitcher::adaptive::session::{AdaptiveCorrectionDirective, CorrectionSession};
use sunswitcher::correction::{Confidence, LexicalCorrectionProvider, LexicalSnapshot};
use sunswitcher::input::{Boundary, InputEvent};
use sunswitcher::language::{english_language_pack, russian_language_pack};
use sunswitcher::lexicon::{UserLexicon, UserWord};
use sunswitcher::replacement::{ReplacementOutcome, UndoOutcome};

fn provider_with(words: &[&str]) -> LexicalCorrectionProvider {
    let lexicon = UserLexicon::try_new(
        words
            .iter()
            .map(|word| UserWord::try_new(word, 1, 10).unwrap())
            .collect(),
    )
    .unwrap();
    LexicalCorrectionProvider::try_new(
        vec![russian_language_pack().unwrap(), english_language_pack().unwrap()],
        lexicon,
    )
    .unwrap()
}

fn session() -> CorrectionSession<u64> {
    CorrectionSession::new(Confidence::try_new(800_000).unwrap())
}

fn type_token(
    session: &mut CorrectionSession<u64>,
    provider: &LexicalCorrectionProvider,
    token: &str,
    at_ms: i64,
) -> (AdaptiveCorrectionDirective, Option<String>) {
    for character in token.chars() {
        let step = session.process(InputEvent::character(character), at_ms, provider);
        assert_eq!(step.directive, AdaptiveCorrectionDirective::Pass);
        assert_eq!(step.kept_token, None);
    }
    let step = session.process(InputEvent::character(' '), at_ms, provider);
    (step.directive, step.kept_token)
}

// The first word typed right after an invalidation is not corrected: the caret context is
// unknown until a boundary resynchronizes (see the input buffer's fail-closed invalidation), so
// the first word that reaches correction is the one after that boundary.
#[test]
fn certification_first_word_after_invalidation_is_corrected_without_leading_boundary() {
    let provider = provider_with(&[]);
    let mut session = session();
    let step = session.process(InputEvent::Invalidate, 50, &provider);
    assert_eq!(step.directive, AdaptiveCorrectionDirective::Pass);
    // Typing while the caret context is unknown is ignored, even a word that would be corrected.
    let (ignored, kept) = type_token(&mut session, &provider, "дял", 60);
    assert_eq!(ignored, AdaptiveCorrectionDirective::Pass);
    assert_eq!(kept, None);
    let (correction, kept) = type_token(&mut session, &provider, "дял", 100);
    let AdaptiveCorrectionDirective::Replace(action) = correction else {
        panic!("the first token after a resynchronizing boundary must reach lexical correction");
    };
    assert_eq!(action.replacement().as_str(), "для");
    assert_eq!(kept, None);
}

#[test]
fn kept_plain_word_is_handed_back_for_learning() {
    let provider = provider_with(&[]);
    let mut session = session();
    let (directive, kept) = type_token(&mut session, &provider, "ordinaryunknown", 10);
    assert_eq!(directive, AdaptiveCorrectionDirective::Pass);
    assert_eq!(kept.as_deref(), Some("ordinaryunknown"));
    let snapshot = LexicalSnapshot::try_new(
        vec![russian_language_pack().unwrap(), english_language_pack().unwrap()],
        UserLexicon::empty(),
    )
    .unwrap();
    assert!(should_record_user_word("ordinaryunknown", &snapshot));
}

#[test]
fn system_dictionary_words_are_not_recorded_as_user_words() {
    let snapshot = LexicalSnapshot::try_new(
        vec![russian_language_pack().unwrap(), english_language_pack().unwrap()],
        UserLexicon::empty(),
    )
    .unwrap();
    assert!(!should_record_user_word("hello", &snapshot));
    assert!(!should_record_user_word("12", &snapshot));
    assert!(!should_record_user_word("", &snapshot));
    let learned = LexicalSnapshot::try_new(
        vec![english_language_pack().unwrap()],
        UserLexicon::try_new(vec![UserWord::try_new("hello", 1, 10).unwrap()]).unwrap(),
    )
    .unwrap();
    assert!(should_record_user_word("Hello", &learned));
}

#[test]
fn text_learning_extracts_words_and_identifiers_but_ignores_numeric_only_fragments() {
    assert_eq!(
        extract_tokens("мурзаплекс QuantileEntryStrategy 12/.2#$"),
        vec!["мурзаплекс", "QuantileEntryStrategy", "12", "2"]
    );
    assert_eq!(extract_tokens("--don't__ it’s"), vec!["don't", "it’s"]);
    let provider = provider_with(&[]);
    let learned = learnable_tokens(
        "мурзаплекс QuantileEntryStrategy 12/.2#$",
        &provider,
        Confidence::try_new(800_000).unwrap(),
    );
    assert_eq!(learned, vec!["мурзаплекс", "QuantileEntryStrategy"]);
}

#[test]
fn certification_copied_text_does_not_learn_tokens_the_same_corrector_would_replace() {
    let provider = provider_with(&["QuantileEntryStrategy"]);
    let learned = learnable_tokens(
        "мурзаплекс дял QuanntileEntrySrtategy",
        &provider,
        Confidence::try_new(800_000).unwrap(),
    );
    assert_eq!(learned, vec!["мурзаплекс"]);
}

#[test]
fn learned_word_becomes_a_typo_target() {
    let provider = provider_with(&["мурзаплекс"]);
    let mut session = session();
    let (correction, _) = type_token(&mut session, &provider, "мурзапелкс", 200);
    let AdaptiveCorrectionDirective::Replace(action) = correction else {
        panic!("a learned user word must become available to later typo correction");
    };
    assert_eq!(action.replacement().as_str(), "мурзаплекс");
}

#[test]
fn applied_replacement_is_handed_back_to_record_and_aborted_one_is_dropped() {
    let provider = provider_with(&["QuantileEntryStrategy"]);
    let mut session = session();
    let (directive, _) = type_token(&mut session, &provider, "QuanntileEntrySrtategy", 100);
    assert!(matches!(directive, AdaptiveCorrectionDirective::Replace(_)));
    assert!(session.replacement_outcome(ReplacementOutcome::Aborted).is_none());

    let (directive, _) = type_token(&mut session, &provider, "QuanntileEntrySrtategy", 200);
    assert!(matches!(directive, AdaptiveCorrectionDirective::Replace(_)));
    let applied = session.replacement_outcome(ReplacementOutcome::Applied).unwrap();
    assert_eq!(applied.observed_text(), "QuanntileEntrySrtategy");
    assert_eq!(applied.replacement_text(), "QuantileEntryStrategy");
    assert_eq!(applied.observed_at_ms(), 200);
}

#[test]
fn intervening_input_cancels_pending_correction() {
    let provider = provider_with(&["QuantileEntryStrategy"]);
    let mut session = session();
    let (directive, _) = type_token(&mut session, &provider, "QuanntileEntrySrtategy", 100);
    assert!(matches!(directive, AdaptiveCorrectionDirective::Replace(_)));
    let step = session.process(InputEvent::Invalidate, 110, &provider);
    assert_eq!(step.directive, AdaptiveCorrectionDirective::Pass);
    assert!(session.replacement_outcome(ReplacementOutcome::Applied).is_none());
}

#[test]
fn immediate_undo_restores_the_original() {
    let provider = provider_with(&["QuantileEntryStrategy"]);
    let mut session = session();
    let (correction, _) = type_token(&mut session, &provider, "QuanntileEntrySrtategy", 100);
    let AdaptiveCorrectionDirective::Replace(action) = correction else {
        panic!("technical typo must be corrected before Undo can be tested");
    };
    assert_eq!(action.replacement().as_str(), "QuantileEntryStrategy");
    let applied = session.replacement_outcome(ReplacementOutcome::Applied).unwrap();
    session.arm_undo(&applied, 7);

    let undo = session
        .request_undo(200)
        .expect("applied character-boundary correction must be immediately undoable");
    assert_eq!(undo.replacement().as_str(), "QuanntileEntrySrtategy");
    assert_eq!(undo.boundary(), Boundary::Character(' '));
    assert_eq!(undo.delete_previous_chars(), "QuantileEntryStrategy".chars().count() + 1);
    assert_eq!(session.undo_outcome(UndoOutcome::Applied), Some((7, 200)));
}

#[test]
fn certification_intervening_input_disarms_immediate_undo() {
    let provider = provider_with(&["QuantileEntryStrategy"]);
    let mut session = session();
    let (directive, _) = type_token(&mut session, &provider, "QuanntileEntrySrtategy", 100);
    assert!(matches!(directive, AdaptiveCorrectionDirective::Replace(_)));
    let applied = session.replacement_outcome(ReplacementOutcome::Applied).unwrap();
    session.arm_undo(&applied, 1);

    let step = session.process(InputEvent::character('x'), 150, &provider);
    assert_eq!(step.directive, AdaptiveCorrectionDirective::Pass);
    assert!(session.request_undo(200).is_none());
}

#[test]
fn intervening_input_cancels_inflight_undo_commit() {
    let provider = provider_with(&["QuantileEntryStrategy"]);
    let mut session = session();
    let (directive, _) = type_token(&mut session, &provider, "QuanntileEntrySrtategy", 100);
    assert!(matches!(directive, AdaptiveCorrectionDirective::Replace(_)));
    let applied = session.replacement_outcome(ReplacementOutcome::Applied).unwrap();
    session.arm_undo(&applied, 1);
    assert!(session.request_undo(200).is_some());
    let step = session.process(InputEvent::Invalidate, 210, &provider);
    assert_eq!(step.directive, AdaptiveCorrectionDirective::Pass);
    assert_eq!(session.undo_outcome(UndoOutcome::Applied), None);
}

#[test]
fn certification_nonexecuted_undo_can_be_retried_but_uncertain_undo_cannot() {
    let provider = provider_with(&["QuantileEntryStrategy"]);
    let mut session = session();
    let (directive, _) = type_token(&mut session, &provider, "QuanntileEntrySrtategy", 100);
    assert!(matches!(directive, AdaptiveCorrectionDirective::Replace(_)));
    let applied = session.replacement_outcome(ReplacementOutcome::Applied).unwrap();
    session.arm_undo(&applied, 1);

    assert!(session.request_undo(200).is_some());
    assert_eq!(session.undo_outcome(UndoOutcome::NotExecuted), None);
    assert!(session.request_undo(210).is_some());
    assert_eq!(session.undo_outcome(UndoOutcome::Uncertain), None);
    assert!(session.request_undo(220).is_none());
}

#[test]
fn second_undo_request_while_one_is_in_flight_is_refused() {
    let provider = provider_with(&["QuantileEntryStrategy"]);
    let mut session = session();
    let _ = type_token(&mut session, &provider, "QuanntileEntrySrtategy", 100);
    let applied = session.replacement_outcome(ReplacementOutcome::Applied).unwrap();
    session.arm_undo(&applied, 1);
    assert!(session.request_undo(200).is_some());
    assert!(session.request_undo(201).is_none());
    assert_eq!(session.undo_outcome(UndoOutcome::Applied), Some((1, 200)));
}

#[test]
fn enter_boundary_correction_is_not_undoable() {
    let provider = provider_with(&["QuantileEntryStrategy"]);
    let mut session = session();
    for character in "QuanntileEntrySrtategy".chars() {
        session.process(InputEvent::character(character), 100, &provider);
    }
    let step = session.process(InputEvent::Boundary(Boundary::Enter), 100, &provider);
    assert!(matches!(step.directive, AdaptiveCorrectionDirective::Replace(_)));
    let applied = session.replacement_outcome(ReplacementOutcome::Applied).unwrap();
    session.arm_undo(&applied, 1);
    assert!(session.request_undo(200).is_none());
}
