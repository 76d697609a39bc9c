use sunswitcher::correction::{
    weighted_damerau_cost, CorrectionCandidateProvider, LexicalCorrectionProvider,
    LexicalProviderError, LexicalSnapshot,
};
use sunswitcher::input::{Boundary, CompletedToken, InputBuffer, InputEvent, InputOutcome, PhysicalKey};
use sunswitcher::language::{english_language_pack, russian_language_pack};
use sunswitcher::lexicon::{UserLexicon, UserWord};

fn provider() -> LexicalCorrectionProvider {
    LexicalCorrectionProvider::try_new(
        vec![russian_language_pack().unwrap(), english_language_pack().unwrap()],
        UserLexicon::empty(),
    )
    .unwrap()
}

fn completed_physical_token(text: &str) -> CompletedToken {
    let mut buffer = InputBuffer::new();
    for character in text.chars() {
        let key = PhysicalKey::from_layout_symbol(character);
        buffer.process(InputEvent::typed_character(character, key));
    }
    let InputOutcome::Completed(token) = buffer.process(InputEvent::character(' ')) else {
        panic!("expected physical token completion");
    };
    token
}

// Costs are in hundredths of an edit: 100 is one generic edit.
#[test]
fn repeated_key_deletions_are_cheaper_than_generic_deletions() {
    assert!(weighted_damerau_cost("ддля", "для") < weighted_damerau_cost("адля", "для"));
    assert!(weighted_damerau_cost("ддляя", "для") < 100);
}

#[test]
fn adjacent_transposition_is_a_first_class_typo() {
    assert_eq!(weighted_damerau_cost("дял", "для"), 75);
    assert_eq!(weighted_damerau_cost("hlelo", "hello"), 75);
}

#[test]
fn valid_word_in_any_language_blocks_cross_language_overcorrection() {
    let provider = provider();
    for word in ["для", "hello", "мир", "world"] {
        let token = CompletedToken::new(word, Boundary::Character(' '));
        assert!(provider.candidates(&token).is_empty(), "valid word {word:?}");
    }
}

#[test]
fn literal_punctuation_suffix_is_preserved_while_typo_core_is_corrected() {
    let provider = provider();
    let typo = completed_physical_token("hlelo,");
    assert!(provider
        .candidates(&typo)
        .iter()
        .any(|candidate| candidate.replacement().as_str() == "hello,"));

    let valid = completed_physical_token("hello,");
    assert!(provider.candidates(&valid).is_empty());
}

#[test]
fn punctuation_created_by_layout_transform_is_not_counted_as_a_typo() {
    let provider = provider();
    for (observed, expected) in [("руддщб", "hello,"), ("рдудщб", "hello,")] {
        let token = completed_physical_token(observed);
        assert!(
            provider
                .candidates(&token)
                .iter()
                .any(|candidate| candidate.replacement().as_str() == expected),
            "{observed:?}"
        );
    }
}

#[test]
fn provider_preserves_simple_case_pattern() {
    let provider = provider();
    let title = CompletedToken::new("Lkz", Boundary::Character(' '));
    let upper = CompletedToken::new("РУДДЩ", Boundary::Character(' '));

    assert!(provider
        .candidates(&title)
        .iter()
        .any(|candidate| candidate.replacement().as_str() == "Для"));
    assert!(provider
        .candidates(&upper)
        .iter()
        .any(|candidate| candidate.replacement().as_str() == "HELLO"));
}

#[test]
fn identical_words_cost_nothing_and_one_generic_edit_costs_one_hundred() {
    assert_eq!(weighted_damerau_cost("для", "для"), 0);
    assert_eq!(weighted_damerau_cost("", ""), 0);
    assert_eq!(weighted_damerau_cost("дла", "для"), 100);
    assert_eq!(weighted_damerau_cost("", "для"), 300);
}

#[test]
fn provider_without_languages_is_refused() {
    assert_eq!(
        LexicalCorrectionProvider::try_new(Vec::new(), UserLexicon::empty()).err(),
        Some(LexicalProviderError::NoLanguages)
    );
    assert!(LexicalSnapshot::try_new(Vec::new(), UserLexicon::empty()).is_err());
}

#[test]
fn candidates_are_ranked_by_confidence_and_do_not_change_the_token_back() {
    let provider = provider();
    let token = CompletedToken::new("дял", Boundary::Character(' '));
    let candidates = provider.candidates(&token);
    assert!(!candidates.is_empty());
    assert_eq!(candidates[0].replacement().as_str(), "для");
    for pair in candidates.windows(2) {
        assert!(pair[0].confidence().value() >= pair[1].confidence().value());
    }
    for candidate in &candidates {
        assert_ne!(candidate.replacement().as_str(), "дял");
        assert!(candidate.confidence().value() < 1_000_000);
    }
}

#[test]
fn learned_user_word_becomes_a_typo_target() {
    let lexicon = UserLexicon::try_new(vec![UserWord::try_new("мурзаплекс", 3, 100).unwrap()]).unwrap();
    let provider = LexicalCorrectionProvider::try_new(
        vec![russian_language_pack().unwrap(), english_language_pack().unwrap()],
        lexicon,
    )
    .unwrap();
    let token = CompletedToken::new("мурзаплкес", Boundary::Character(' '));
    assert!(provider
        .candidates(&token)
        .iter()
        .any(|candidate| candidate.replacement().as_str() == "мурзаплекс"));
    let known = CompletedToken::new("мурзаплекс", Boundary::Character(' '));
    assert!(provider.candidates(&known).is_empty());
}

#[test]
fn snapshot_with_new_user_lexicon_keeps_the_languages() {
    let snapshot = LexicalSnapshot::try_new(
        vec![russian_language_pack().unwrap(), english_language_pack().unwrap()],
        UserLexicon::empty(),
    )
    .unwrap();
    let learned = UserLexicon::try_new(vec![UserWord::try_new("мурзаплекс", 1, 5).unwrap()]).unwrap();
    let refreshed = snapshot.with_user_lexicon(learned);
    assert_eq!(refreshed.languages().len(), 2);
    assert_eq!(refreshed.languages()[0].id().as_str(), "ru");
    assert_eq!(refreshed.languages()[1].id().as_str(), "en");
    assert!(refreshed.user_lexicon().contains_normalized("мурзаплекс"));
    assert!(snapshot.user_lexicon().is_empty());
}
