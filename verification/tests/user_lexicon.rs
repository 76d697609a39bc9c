use sunswitcher::lexicon::{UserLexicon, UserLexiconError, UserWord};

fn word(value: &str, use_count: u32, last_used: i64) -> UserWord {
    UserWord::try_new(value, use_count, last_used).unwrap()
}

#[test]
fn user_word_contract_rejects_unrepresentable_values() {
    assert_eq!(
        UserWord::try_new("", 1, 0),
        Err(UserLexiconError::InvalidTerm)
    );
    assert_eq!(
        UserWord::try_new("two words", 1, 0),
        Err(UserLexiconError::InvalidTerm)
    );
    assert_eq!(
        UserWord::try_new("word", 0, 0),
        Err(UserLexiconError::InvalidUseCount)
    );
}

#[test]
fn normalized_duplicates_are_rejected_instead_of_competing() {
    let result = UserLexicon::try_new(vec![
        word("QuantileEntryStrategy", 1, 10),
        word("quantileentrystrategy", 1, 20),
    ]);
    assert!(matches!(
        result,
        Err(UserLexiconError::DuplicateNormalizedTerm(_))
    ));
}

#[test]
fn delete_index_finds_typo_candidates_without_losing_canonical_spelling() {
    let lexicon = UserLexicon::try_new(vec![word("QuantileEntryStrategy", 3, 100)]).unwrap();

    let candidates = lexicon.candidate_entries("quanntileentrysrtategy", 2);
    assert!(candidates.iter().any(|candidate| {
        candidate.term() == "QuantileEntryStrategy"
            && candidate.normalized_term() == "quantileentrystrategy"
    }));
}

#[test]
fn prefix_matches_rank_recency_before_frequency() {
    let lexicon = UserLexicon::try_new(vec![
        word("QuantileEntryStrategy", 20, 100),
        word("QuantileEntryStrategy1", 1, 200),
    ])
    .unwrap();

    let matches = lexicon.prefix_matches("QuantileEntry", 10);
    assert_eq!(matches[0].term(), "QuantileEntryStrategy1");
    assert_eq!(matches[1].term(), "QuantileEntryStrategy");
}

#[test]
fn certification_user_lexicon_supports_known_word_typo_and_prefix_views_from_one_snapshot() {
    let lexicon = UserLexicon::try_new(vec![
        UserWord::try_new("QuantileEntryStrategy", 4, 100).unwrap(),
        UserWord::try_new("QuantileEntryStrategy1", 1, 200).unwrap(),
    ])
    .unwrap();

    assert!(lexicon.contains_normalized("quantileentrystrategy"));
    assert_eq!(
        lexicon.exact("quantileentrystrategy1").unwrap().term(),
        "QuantileEntryStrategy1"
    );
    assert!(
        lexicon
            .candidate_entries("quanntileentrysrtategy", 2)
            .iter()
            .any(|entry| entry.term() == "QuantileEntryStrategy")
    );

    let completions = lexicon.prefix_matches("QuantileEntry", 2);
    assert_eq!(
        completions
            .iter()
            .map(|entry| entry.term())
            .collect::<Vec<_>>(),
        ["QuantileEntryStrategy1", "QuantileEntryStrategy"]
    );
}

#[test]
fn default_lexicon_is_empty() {
    let lexicon = UserLexicon::default();
    assert!(lexicon.is_empty());
    assert!(!lexicon.contains_normalized("word"));
}

#[test]
fn the_least_duplicated_normalized_term_is_reported() {
    for order in [["b", "B", "a", "A"], ["A", "b", "a", "B"]] {
        let entries = order.iter().map(|term| word(term, 1, 1)).collect();
        assert_eq!(
            UserLexicon::try_new(entries).err(),
            Some(UserLexiconError::DuplicateNormalizedTerm("a".to_owned()))
        );
    }
}

#[test]
fn completion_is_the_ranked_head_of_all_matches_whatever_the_entry_order() {
    let build = |order: &[usize]| {
        let all = [
            ("Parser", 4, 10),
            ("parsing", 9, 10),
            ("Partial", 1, 30),
            ("path", 7, 5),
            ("pattern", 7, 5),
            ("query", 50, 99),
        ];
        let entries = order
            .iter()
            .map(|&i| word(all[i].0, all[i].1, all[i].2))
            .collect();
        UserLexicon::try_new(entries).unwrap()
    };
    let forward = build(&[0, 1, 2, 3, 4, 5]);
    let backward = build(&[5, 4, 3, 2, 1, 0]);
    let terms = |lexicon: &UserLexicon, prefix: &str, limit: usize| {
        lexicon
            .prefix_matches(prefix, limit)
            .iter()
            .map(|w| w.term().to_string())
            .collect::<Vec<_>>()
    };
    let ranked = vec!["Partial", "parsing", "Parser", "path", "pattern"];
    assert_eq!(terms(&forward, "PA", 10), ranked);
    assert_eq!(terms(&backward, "pa", 10), ranked);
    for limit in 0..7 {
        let expected: Vec<_> = ranked.iter().take(limit).map(|t| t.to_string()).collect();
        assert_eq!(terms(&forward, "pa", limit), expected);
        assert_eq!(terms(&backward, "pa", limit), expected);
    }
    assert!(terms(&forward, "", 10).is_empty());
    assert!(terms(&forward, "x", 10).is_empty());
}

#[test]
fn spellings_are_refused_exactly_for_unicode_white_space() {
    for code in 0u32..=0x10FFFF {
        let Some(c) = char::from_u32(code) else {
            continue;
        };
        if c == '\0' {
            continue;
        }
        let term: String = ['a', c].iter().collect();
        let accepted = UserWord::try_new(&term, 1, 0).is_ok();
        assert_eq!(accepted, !c.is_whitespace(), "U+{code:04X}");
    }
}

#[test]
fn the_lexicon_does_not_depend_on_the_order_of_its_words() {
    let words = [("Parser", 4, 10), ("alpha", 9, 12), ("Zeta", 30, 5), ("mid", 1, 1)];
    let forward = UserLexicon::try_new(words.iter().map(|w| word(w.0, w.1, w.2)).collect()).unwrap();
    let backward = UserLexicon::try_new(words.iter().rev().map(|w| word(w.0, w.1, w.2)).collect()).unwrap();
    assert_eq!(forward.max_use_count(), 30);
    assert_eq!(backward.max_use_count(), 30);
    for probe in ["parser", "alpha", "zeta", "mid", "missing"] {
        assert_eq!(forward.contains_normalized(probe), backward.contains_normalized(probe));
        assert_eq!(
            forward.exact(probe).map(|w| w.term().to_string()),
            backward.exact(probe).map(|w| w.term().to_string())
        );
    }
    assert_eq!(forward.exact("zeta").unwrap().term(), "Zeta");
    let dup = |order: &[usize]| {
        let all = [("Beta", 1, 1), ("beta", 2, 2), ("Alpha", 1, 1), ("ALPHA", 3, 3)];
        UserLexicon::try_new(order.iter().map(|&i| word(all[i].0, all[i].1, all[i].2)).collect()).err()
    };
    let expected = Some(UserLexiconError::DuplicateNormalizedTerm("alpha".to_string()));
    assert_eq!(dup(&[0, 1, 2, 3]), expected);
    assert_eq!(dup(&[3, 1, 0, 2]), expected);
}
