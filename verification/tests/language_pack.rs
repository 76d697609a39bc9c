use sunswitcher::input::PhysicalKey;
use sunswitcher::language::{
    english_language_pack, language_pack_from_entries, russian_language_pack, DictionaryEntry,
    KeyboardLayoutMap, LanguageId, LanguagePack, LanguagePackError,
};

#[test]
fn delete_index_finds_transposition_missing_and_duplicate_neighbors() {
    let pack = LanguagePack::try_new(
        LanguageId::try_new("test").unwrap(),
        vec![DictionaryEntry::try_new("для", 100).unwrap()],
        Vec::new(),
    )
    .unwrap();

    for observed in ["дял", "дляя", "дл"] {
        assert!(pack
            .candidate_entries(observed, 2)
            .iter()
            .any(|entry| entry.word() == "для"));
    }
}

// Layout penalties are in hundredths: 15 is 0.15.
#[test]
fn aligned_layout_map_preserves_case_and_rejects_unmapped_text() {
    let map = KeyboardLayoutMap::from_aligned("lkz", "для", 15).unwrap();
    assert_eq!(map.transform("lkz").as_deref(), Some("для"));
    assert_eq!(map.transform("Lkz").as_deref(), Some("Для"));
    assert_eq!(map.transform("lkx"), None);
}

#[test]
fn aligned_layout_map_preserves_shift_semantics_when_target_is_punctuation() {
    let russian_to_latin = KeyboardLayoutMap::from_aligned("бюжэ", ",.;'", 15).unwrap();
    for (source, expected) in [
        ("б", ","),
        ("Б", "<"),
        ("ю", "."),
        ("Ю", ">"),
        ("ж", ";"),
        ("Ж", ":"),
        ("э", "'"),
        ("Э", "\""),
    ] {
        assert_eq!(russian_to_latin.transform(source).as_deref(), Some(expected));
    }

    let latin_to_russian = KeyboardLayoutMap::from_aligned(";", "ж", 15).unwrap();
    assert_eq!(
        latin_to_russian
            .transform_with_physical(":", &[PhysicalKey::Semicolon])
            .as_deref(),
        Some("Ж")
    );
}

#[test]
fn language_pack_contract_rejects_invalid_values_and_merges_duplicates() {
    assert!(LanguageId::try_new("").is_err());
    assert!(DictionaryEntry::try_new("", 1).is_err());
    assert!(KeyboardLayoutMap::from_aligned("ab", "a", 15).is_err());
    assert!(KeyboardLayoutMap::from_aligned("a", "b", 101).is_err());
    let duplicate = LanguagePack::try_new(
        LanguageId::try_new("test").unwrap(),
        vec![
            DictionaryEntry::try_new("для", 100).unwrap(),
            DictionaryEntry::try_new("Для", 5).unwrap(),
        ],
        Vec::new(),
    );
    let merged = duplicate.unwrap();
    assert_eq!(merged.entries().len(), 1);
    assert_eq!(merged.entries()[0].word(), "для");
    assert_eq!(merged.entries()[0].frequency(), 100);
    assert_eq!(merged.max_frequency(), 100);
    let empty = LanguagePack::try_new(LanguageId::try_new("test").unwrap(), Vec::new(), Vec::new());
    assert!(empty.is_err());
}

#[test]
fn seed_packs_know_their_words_and_layouts() {
    let russian = russian_language_pack().unwrap();
    let english = english_language_pack().unwrap();
    assert_eq!(russian.id().as_str(), "ru");
    assert_eq!(english.id().as_str(), "en");
    assert!(russian.contains_normalized("для"));
    assert!(english.contains_normalized("hello"));
    assert!(!english.contains_normalized("для"));
    assert_eq!(russian.transforms().len(), 1);
    assert_eq!(english.transforms().len(), 1);
    assert_eq!(english.transforms()[0].transform("руддщ").as_deref(), Some("hello"));
    assert_eq!(russian.transforms()[0].transform("ghbdtn").as_deref(), Some("привет"));
    assert!(russian.max_frequency() >= 1);
}

#[test]
fn pack_from_entries_builds_the_layout_for_known_languages() {
    let pack = language_pack_from_entries(
        LanguageId::try_new("en").unwrap(),
        vec![DictionaryEntry::try_new("world", 7).unwrap()],
    )
    .unwrap();
    assert_eq!(pack.max_frequency(), 7);
    assert_eq!(pack.transforms().len(), 1);
    let unknown = language_pack_from_entries(
        LanguageId::try_new("xx").unwrap(),
        vec![DictionaryEntry::try_new("world", 7).unwrap()],
    );
    assert_eq!(unknown.unwrap().transforms().len(), 0);
    let empty = language_pack_from_entries(LanguageId::try_new("xx").unwrap(), Vec::new());
    assert_eq!(empty.err(), Some(LanguagePackError::EmptyDictionary));
}

#[test]
fn each_language_pack_error_has_an_input_that_gives_it() {
    assert_eq!(LanguageId::try_new("  ").err(), Some(LanguagePackError::InvalidLanguageId));
    assert_eq!(LanguageId::try_new("e\0n").err(), Some(LanguagePackError::InvalidLanguageId));
    assert_eq!(
        DictionaryEntry::try_new("word", 0).err(),
        Some(LanguagePackError::InvalidDictionaryEntry)
    );
    assert_eq!(
        KeyboardLayoutMap::from_aligned("", "", 15).err(),
        Some(LanguagePackError::InvalidLayoutMap)
    );
    assert_eq!(
        KeyboardLayoutMap::from_aligned("aa", "bc", 15).err(),
        Some(LanguagePackError::InvalidLayoutMap)
    );
    assert_eq!(
        LanguagePack::try_new(LanguageId::try_new("xx").unwrap(), Vec::new(), Vec::new()).err(),
        Some(LanguagePackError::EmptyDictionary)
    );
    let entry = DictionaryEntry::try_new("Для", 3).unwrap();
    assert_eq!(entry.word(), "для");
    assert_eq!(entry.frequency(), 3);
}

#[test]
fn a_source_character_aligned_with_two_targets_is_refused() {
    assert_eq!(
        KeyboardLayoutMap::from_aligned("qwq", "йцк", 15).err(),
        Some(LanguagePackError::InvalidLayoutMap)
    );
    assert!(KeyboardLayoutMap::from_aligned("qwq", "йцй", 15).is_ok());
}
