//! Language data: dictionary entries, keyboard-layout transforms and language packs.

pub mod normalize;
pub mod language_pack;
pub mod packs;

pub use language_pack::{
    DictionaryEntry, KeyboardLayoutMap, LanguageId, LanguagePack, LanguagePackError,
};
pub use normalize::normalize_word;
pub use packs::{english_language_pack, language_pack_from_entries, russian_language_pack};
