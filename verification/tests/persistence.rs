use sunswitcher::lexicon::UserWord;
use sunswitcher::persistence::settings::{merge_user_word_row, StoredWordRow};
use sunswitcher::persistence::settings::{
    clipboard_history_limit_from_stored, correction_undo_plan_from_stored,
    dictionary_entry_from_stored, language_pack_from_stored, pending_migrations,
    schema_is_supported, settings_from_stored, undo_hotkey_from_stored, user_lexicon_from_stored,
    user_word_from_stored, validate_correction_text, CURRENT_SCHEMA_VERSION,
    DEFAULT_CLIPBOARD_HISTORY_LIMIT,
};
use sunswitcher::persistence::{
    AppSettings, ClipboardHistoryLimit, CorrectionEventId, SettingsError, StoredValueError,
    UndoHotkey,
};

#[test]
fn default_settings_use_the_explicit_clipboard_history_limit() {
    assert_eq!(CURRENT_SCHEMA_VERSION, 4);
    assert_eq!(
        AppSettings::default().clipboard_history_limit(),
        ClipboardHistoryLimit::default()
    );
    assert_eq!(ClipboardHistoryLimit::default().get(), 1000);
    assert_eq!(DEFAULT_CLIPBOARD_HISTORY_LIMIT, 1000);
    assert_eq!(AppSettings::default().undo_hotkey(), UndoHotkey::Pause);
    assert_eq!(UndoHotkey::default(), UndoHotkey::Pause);
}

#[test]
fn clipboard_history_limit_is_typed_and_round_trips_through_sqlite() {
    assert_eq!(
        ClipboardHistoryLimit::try_new(0),
        Err(SettingsError::ClipboardHistoryLimitMustBePositive)
    );
    let limit = ClipboardHistoryLimit::try_new(250).unwrap();
    let settings = AppSettings::new(limit, UndoHotkey::Pause);
    let stored_limit = i64::from(settings.clipboard_history_limit().get());
    let stored_hotkey = settings.undo_hotkey().as_stored();
    let read_back = settings_from_stored(stored_limit, stored_hotkey).unwrap();
    assert_eq!(read_back.clipboard_history_limit(), limit);
    assert_eq!(read_back, settings);
}

#[test]
fn stored_settings_fail_closed() {
    assert_eq!(
        clipboard_history_limit_from_stored(0),
        Err(StoredValueError::InvalidStoredClipboardHistoryLimit(0))
    );
    assert_eq!(
        clipboard_history_limit_from_stored(-5),
        Err(StoredValueError::InvalidStoredClipboardHistoryLimit(-5))
    );
    assert_eq!(
        clipboard_history_limit_from_stored(i64::from(u32::MAX) + 1),
        Err(StoredValueError::InvalidStoredClipboardHistoryLimit(i64::from(u32::MAX) + 1))
    );
    assert_eq!(clipboard_history_limit_from_stored(7).unwrap().get(), 7);
    assert_eq!(undo_hotkey_from_stored("pause"), Ok(UndoHotkey::Pause));
    assert_eq!(
        undo_hotkey_from_stored("ctrl+z"),
        Err(StoredValueError::InvalidStoredUndoHotkey("ctrl+z".to_owned()))
    );
    assert_eq!(
        settings_from_stored(10, "scroll"),
        Err(StoredValueError::InvalidStoredUndoHotkey("scroll".to_owned()))
    );
    assert_eq!(SettingsError::ClipboardHistoryLimitMustBePositive.message(), "clipboard history limit must be positive");
}

#[test]
fn correction_undo_requires_valid_text_and_is_single_use() {
    assert_eq!(validate_correction_text(""), Err(StoredValueError::InvalidCorrectionText));
    assert_eq!(validate_correction_text("a\0b"), Err(StoredValueError::InvalidCorrectionText));
    assert_eq!(validate_correction_text("fixed"), Ok(()));

    let event = CorrectionEventId::from_row_id(3);
    let plan = correction_undo_plan_from_stored(
        event,
        "QuantileEntryStrategy1",
        "QuantileEntryStrategy",
        None,
    )
    .unwrap();
    assert_eq!(plan.event_id(), event);
    assert_eq!(plan.original_text(), "QuantileEntryStrategy1");
    assert_eq!(plan.replacement_text(), "QuantileEntryStrategy");
    assert_eq!(
        correction_undo_plan_from_stored(event, "QuantileEntryStrategy1", "QuantileEntryStrategy", Some(20)),
        Err(StoredValueError::CorrectionEventAlreadyUndone(3))
    );
}

#[test]
fn stored_rows_must_match_their_normalized_columns() {
    let entry = dictionary_entry_from_stored("Для", "для", 10).unwrap();
    assert_eq!(entry.word(), "для");
    assert_eq!(entry.frequency(), 10);
    assert!(matches!(
        dictionary_entry_from_stored("Для", "Для", 10),
        Err(StoredValueError::InvalidStoredNormalizedTerm { .. })
    ));
    assert_eq!(
        dictionary_entry_from_stored("для", "для", -1),
        Err(StoredValueError::InvalidStoredDictionaryFrequency(-1))
    );
    assert!(dictionary_entry_from_stored("для", "для", 0).is_err());

    let word = user_word_from_stored("QuantileEntryStrategy", "quantileentrystrategy", 1, 2, 30).unwrap();
    assert_eq!(word.term(), "QuantileEntryStrategy");
    assert_eq!(word.use_count(), 2);
    assert_eq!(word.last_used_at_ms(), 30);
    assert_eq!(
        user_word_from_stored("QuantileEntryStrategy", "quantileentrystrategy", 2, 2, 30),
        Err(StoredValueError::InvalidStoredUserTermProtection(2))
    );
    assert_eq!(
        user_word_from_stored("QuantileEntryStrategy", "quantileentrystrategy", 0, -1, 30),
        Err(StoredValueError::InvalidStoredUserTermUseCount(-1))
    );
}

#[test]
fn seed_rows_build_runtime_packs_and_lexicons() {
    let rows = vec![
        ("Для".to_owned(), "для".to_owned(), 100),
        ("привет".to_owned(), "привет".to_owned(), 50),
    ];
    let pack = language_pack_from_stored("ru", &rows).unwrap();
    assert_eq!(pack.id().as_str(), "ru");
    assert!(pack.contains_normalized("для"));
    assert!(pack.contains_normalized("привет"));
    assert_eq!(pack.transforms().len(), 1);
    assert!(language_pack_from_stored("ru", &Vec::new()).is_err());

    let lexicon = user_lexicon_from_stored(&vec![
        ("QuantileEntryStrategy".to_owned(), "quantileentrystrategy".to_owned(), 0, 1, 10),
        ("мурзаплекс".to_owned(), "мурзаплекс".to_owned(), 1, 3, 20),
    ])
    .unwrap();
    assert!(lexicon.contains_normalized("quantileentrystrategy"));
    assert!(lexicon.contains_normalized("мурзаплекс"));
    assert!(user_lexicon_from_stored(&vec![
        ("Word".to_owned(), "word".to_owned(), 0, 1, 10),
        ("word".to_owned(), "word".to_owned(), 0, 1, 10),
    ])
    .is_err());
}

#[test]
fn schema_versions_migrate_in_order_and_newer_schemas_fail_closed() {
    assert!(schema_is_supported(4));
    assert!(schema_is_supported(0));
    assert!(!schema_is_supported(5));
    assert_eq!(pending_migrations(0), vec![1, 2, 3, 4]);
    assert_eq!(pending_migrations(2), vec![3, 4]);
    assert_eq!(pending_migrations(4), Vec::<i64>::new());
}

#[test]
fn user_term_upsert_accumulates_usage_and_makes_protection_sticky() {
    let first = merge_user_word_row(None, &UserWord::try_new("QuantileEntryStrategy1", 1, 200).unwrap(), true).unwrap();
    assert_eq!(first.use_count, 1);
    assert!(first.protected);
    let updated = merge_user_word_row(
        Some(first),
        &UserWord::try_new("quantileentrystrategy1", 1, 150).unwrap(),
        false,
    )
    .unwrap();
    assert_eq!(updated.term, "QuantileEntryStrategy1");
    assert_eq!(updated.normalized_term, "quantileentrystrategy1");
    assert_eq!(updated.use_count, 2);
    assert_eq!(updated.last_used_at_ms, 200);
    assert!(updated.protected);
}

#[test]
fn later_unprotected_use_keeps_the_first_spelling_and_counts_cannot_overflow() {
    let stored = StoredWordRow {
        term: "Rdna2".to_owned(),
        normalized_term: "rdna2".to_owned(),
        protected: false,
        use_count: 4,
        last_used_at_ms: 10,
    };
    let newer = merge_user_word_row(Some(stored.clone()), &UserWord::try_new("RDNA2", 1, 20).unwrap(), false).unwrap();
    assert_eq!(newer.term, "Rdna2");
    assert_eq!(newer.use_count, 5);
    assert_eq!(newer.last_used_at_ms, 20);
    assert!(!newer.protected);
    let older = merge_user_word_row(Some(stored.clone()), &UserWord::try_new("RDNA2", 1, 5).unwrap(), false).unwrap();
    assert_eq!(older.term, "Rdna2");
    assert_eq!(older.last_used_at_ms, 10);
    let full = StoredWordRow { use_count: i64::MAX, ..stored };
    assert!(merge_user_word_row(Some(full), &UserWord::try_new("RDNA2", 1, 30).unwrap(), false).is_none());
}

#[test]
fn case_variants_of_a_learned_word_count_a_use_without_rewriting_its_spelling() {
    let first = merge_user_word_row(None, &UserWord::try_new("QuantileEntryStrategy", 1, 100).unwrap(), false).unwrap();
    let second = merge_user_word_row(
        Some(first),
        &UserWord::try_new("quantileentrystrategy", 1, 200).unwrap(),
        false,
    )
    .unwrap();
    assert_eq!(second.term, "QuantileEntryStrategy");
    assert_eq!(second.use_count, 2);
    assert_eq!(second.last_used_at_ms, 200);
    assert!(!second.protected);
    let restored = merge_user_word_row(
        Some(second),
        &UserWord::try_new("QUANTILEENTRYSTRATEGY", 1, 300).unwrap(),
        true,
    )
    .unwrap();
    assert_eq!(restored.term, "QUANTILEENTRYSTRATEGY");
    assert_eq!(restored.use_count, 3);
    assert!(restored.protected);
}
