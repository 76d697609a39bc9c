//! Typed application settings and correction-history values, and the validation of the stored
//! rows they are read back from.

use vstd::prelude::*;

use crate::language::language_pack::{
    spec_entries_ascending, spec_has_word, spec_top_frequency, spec_valid_language_id,
    DictionaryEntry, LanguageId, LanguagePack, LanguagePackError,
};
use crate::language::normalize::spec_normalize;
use crate::language::packs::{language_pack_from_entries, spec_layout_transforms, spec_layouts_build};
use crate::lexicon::user_lexicon::{
    spec_distinct_normalized, spec_valid_term, UserLexicon, UserLexiconError, UserWord,
};
use crate::text::str_eq;

verus! {

/// The clipboard history limit of a fresh installation.
pub const DEFAULT_CLIPBOARD_HISTORY_LIMIT: u32 = 1000;

/// The newest database schema this library reads.
pub const CURRENT_SCHEMA_VERSION: i64 = 4;

/// How many clipboard entries are kept: at least one.
#[derive(Debug, Clone, Copy, PartialEq, Eq)]
pub struct ClipboardHistoryLimit(u32);

#[derive(Debug, Clone, Copy, PartialEq, Eq)]
pub enum SettingsError {
    ClipboardHistoryLimitMustBePositive,
}

impl SettingsError {
    /// A human-readable description.
    pub fn message(&self) -> (r: &'static str)
        ensures
            r@ == "clipboard history limit must be positive"@,
    {
        "clipboard history limit must be positive"
    }
}

impl View for ClipboardHistoryLimit {
    type V = nat;

    closed spec fn view(&self) -> nat {
        self.0 as nat
    }
}

impl ClipboardHistoryLimit {
    #[verifier::type_invariant]
    spec fn positive(self) -> bool {
        self.0 > 0
    }

    /// Rejects zero.
    pub fn try_new(value: u32) -> (r: Result<Self, SettingsError>)
        ensures
            r is Ok <==> value > 0,
            r matches Ok(limit) ==> limit@ == value,
            r matches Err(e) ==> e == SettingsError::ClipboardHistoryLimitMustBePositive,
    {
        if value == 0 {
            return Err(SettingsError::ClipboardHistoryLimitMustBePositive);
        }
        Ok(ClipboardHistoryLimit(value))
    }

    pub fn get(self) -> (r: u32)
        ensures
            r == self@,
            r > 0,
    {
        proof {
            use_type_invariant(&self);
        }
        self.0
    }
}

impl Default for ClipboardHistoryLimit {
    fn default() -> (r: Self)
        ensures
            r@ == DEFAULT_CLIPBOARD_HISTORY_LIMIT,
    {
        ClipboardHistoryLimit(DEFAULT_CLIPBOARD_HISTORY_LIMIT)
    }
}

/// The key binding that undoes the last automatic correction.
#[derive(Debug, Clone, Copy, PartialEq, Eq, Structural)]
pub enum UndoHotkey {
    Pause,
}

impl UndoHotkey {
    /// The stored name of the binding.
    pub fn as_stored(self) -> (r: &'static str)
        ensures
            self == UndoHotkey::Pause ==> r@ == "pause"@,
    {
        match self {
            UndoHotkey::Pause => "pause",
        }
    }
}

impl Default for UndoHotkey {
    fn default() -> (r: Self)
        ensures
            r == UndoHotkey::Pause,
    {
        UndoHotkey::Pause
    }
}

/// The application settings.
#[derive(Debug, Clone, Copy, PartialEq, Eq)]
pub struct AppSettings {
    clipboard_history_limit: ClipboardHistoryLimit,
    undo_hotkey: UndoHotkey,
}

impl AppSettings {
    pub closed spec fn spec_limit(&self) -> nat {
        self.clipboard_history_limit@
    }

    pub closed spec fn spec_undo_hotkey(&self) -> UndoHotkey {
        self.undo_hotkey
    }

    pub fn new(clipboard_history_limit: ClipboardHistoryLimit, undo_hotkey: UndoHotkey) -> (r: Self)
        ensures
            r.spec_limit() == clipboard_history_limit@,
            r.spec_undo_hotkey() == undo_hotkey,
    {
        AppSettings { clipboard_history_limit, undo_hotkey }
    }

    pub fn clipboard_history_limit(self) -> (r: ClipboardHistoryLimit)
        ensures
            r@ == self.spec_limit(),
    {
        self.clipboard_history_limit
    }

    pub fn undo_hotkey(self) -> (r: UndoHotkey)
        ensures
            r == self.spec_undo_hotkey(),
    {
        self.undo_hotkey
    }
}

impl Default for AppSettings {
    fn default() -> (r: Self)
        ensures
            r.spec_limit() == DEFAULT_CLIPBOARD_HISTORY_LIMIT,
            r.spec_undo_hotkey() == UndoHotkey::Pause,
    {
        AppSettings::new(ClipboardHistoryLimit::default(), UndoHotkey::default())
    }
}

/// The row id of a recorded correction.
#[derive(Debug, Clone, Copy, PartialEq, Eq, Structural)]
pub struct CorrectionEventId(i64);

impl CorrectionEventId {
    pub fn from_row_id(id: i64) -> (r: Self)
        ensures
            r.spec_get() == id,
    {
        CorrectionEventId(id)
    }

    pub fn get(self) -> (r: i64)
        ensures
            r == self.spec_get(),
    {
        self.0
    }

    pub closed spec fn spec_get(self) -> i64 {
        self.0
    }
}

/// A recorded correction that may still be undone.
#[derive(Debug, Clone, PartialEq, Eq)]
pub struct CorrectionUndoPlan {
    event_id: CorrectionEventId,
    original_text: String,
    replacement_text: String,
}

impl CorrectionUndoPlan {
    pub closed spec fn spec_event_id(&self) -> CorrectionEventId {
        self.event_id
    }

    pub closed spec fn spec_original(&self) -> Seq<char> {
        self.original_text@
    }

    pub closed spec fn spec_replacement(&self) -> Seq<char> {
        self.replacement_text@
    }

    pub fn event_id(&self) -> (r: CorrectionEventId)
        ensures
            r == self.spec_event_id(),
    {
        self.event_id
    }

    pub fn original_text(&self) -> (r: &str)
        ensures
            r@ == self.spec_original(),
    {
        self.original_text.as_str()
    }

    pub fn replacement_text(&self) -> (r: &str)
        ensures
            r@ == self.spec_replacement(),
    {
        self.replacement_text.as_str()
    }
}

/// A stored row that does not describe a valid value.
#[derive(Debug, Clone, PartialEq, Eq)]
pub enum StoredValueError {
    LanguagePack(LanguagePackError),
    UserLexicon(UserLexiconError),
    InvalidStoredClipboardHistoryLimit(i64),
    InvalidStoredUndoHotkey(String),
    InvalidStoredDictionaryFrequency(i64),
    InvalidStoredUserTermUseCount(i64),
    InvalidStoredUserTermProtection(i64),
    InvalidCorrectionText,
    CorrectionEventAlreadyUndone(i64),
    InvalidStoredNormalizedTerm { term: String, normalized_term: String },
}

/// A stored clipboard history limit: a positive value that fits in 32 bits.
pub fn clipboard_history_limit_from_stored(value: i64) -> (r: Result<
    ClipboardHistoryLimit,
    StoredValueError,
>)
    ensures
        r is Ok <==> 0 < value <= u32::MAX,
        r matches Ok(limit) ==> limit@ == value,
        r matches Err(e) ==> e == StoredValueError::InvalidStoredClipboardHistoryLimit(value),
{
    if value <= 0 || value > u32::MAX as i64 {
        return Err(StoredValueError::InvalidStoredClipboardHistoryLimit(value));
    }
    match ClipboardHistoryLimit::try_new(value as u32) {
        Ok(limit) => Ok(limit),
        Err(_) => Err(StoredValueError::InvalidStoredClipboardHistoryLimit(value)),
    }
}

/// A stored undo binding: only the known names are accepted.
pub fn undo_hotkey_from_stored(value: &str) -> (r: Result<UndoHotkey, StoredValueError>)
    ensures
        r is Ok <==> value@ == "pause"@,
        r matches Ok(hotkey) ==> hotkey == UndoHotkey::Pause,
        r matches Err(e) ==> (e matches StoredValueError::InvalidStoredUndoHotkey(s) && s@ == value@),
{
    if str_eq(value, "pause") {
        Ok(UndoHotkey::Pause)
    } else {
        Err(StoredValueError::InvalidStoredUndoHotkey(value.to_owned()))
    }
}

/// The settings row.
pub fn settings_from_stored(limit: i64, undo_hotkey: &str) -> (r: Result<AppSettings, StoredValueError>)
    ensures
        r is Ok <==> (0 < limit <= u32::MAX && undo_hotkey@ == "pause"@),
        r matches Ok(s) ==> s.spec_limit() == limit && s.spec_undo_hotkey() == UndoHotkey::Pause,
        !(0 < limit <= u32::MAX) ==> r == Err::<AppSettings, _>(StoredValueError::InvalidStoredClipboardHistoryLimit(limit)),
{
    let limit = clipboard_history_limit_from_stored(limit)?;
    let hotkey = undo_hotkey_from_stored(undo_hotkey)?;
    Ok(AppSettings::new(limit, hotkey))
}

/// Correction history holds non-empty text without NUL.
pub fn validate_correction_text(text: &str) -> (r: Result<(), StoredValueError>)
    ensures
        r is Ok <==> (text@.len() > 0 && !text@.contains('\0')),
        r matches Err(e) ==> e == StoredValueError::InvalidCorrectionText,
{
    if text.is_empty() || crate::text::str_contains(text, '\0') {
        return Err(StoredValueError::InvalidCorrectionText);
    }
    Ok(())
}

/// A correction read back for Undo: refused once it has been undone.
pub fn correction_undo_plan_from_stored(
    event_id: CorrectionEventId,
    original_text: &str,
    replacement_text: &str,
    undone_at_ms: Option<i64>,
) -> (r: Result<CorrectionUndoPlan, StoredValueError>)
    ensures
        r is Ok <==> undone_at_ms is None,
        r matches Ok(plan) ==> plan.spec_event_id() == event_id && plan.spec_original()
            == original_text@ && plan.spec_replacement() == replacement_text@,
        r matches Err(e) ==> e == StoredValueError::CorrectionEventAlreadyUndone(event_id.spec_get()),
{
    if undone_at_ms.is_some() {
        return Err(StoredValueError::CorrectionEventAlreadyUndone(event_id.get()));
    }
    Ok(
        CorrectionUndoPlan {
            event_id,
            original_text: original_text.to_owned(),
            replacement_text: replacement_text.to_owned(),
        },
    )
}

/// A stored dictionary row that describes a valid entry.
pub open spec fn spec_stored_entry_ok(term: Seq<char>, normalized_term: Seq<char>, frequency: i64) -> bool {
    &&& spec_normalize(term) == normalized_term
    &&& 0 < frequency <= u32::MAX
    &&& normalized_term.len() > 0
    &&& !normalized_term.contains('\0')
}

/// The error an invalid stored dictionary row is refused with: the normalized column first,
/// then the frequency's range, then the entry itself.
pub open spec fn spec_stored_entry_error(
    e: StoredValueError,
    term: Seq<char>,
    normalized_term: Seq<char>,
    frequency: i64,
) -> bool {
    if spec_normalize(term) != normalized_term {
        e matches StoredValueError::InvalidStoredNormalizedTerm { term: t, normalized_term: n } && t@
            == term && n@ == normalized_term
    } else if !(0 <= frequency <= u32::MAX) {
        e == StoredValueError::InvalidStoredDictionaryFrequency(frequency)
    } else {
        e == StoredValueError::LanguagePack(LanguagePackError::InvalidDictionaryEntry)
    }
}

/// A stored learned-word row that describes a valid word.
pub open spec fn spec_stored_word_ok(
    term: Seq<char>,
    normalized_term: Seq<char>,
    protection: i64,
    use_count: i64,
) -> bool {
    &&& spec_normalize(term) == normalized_term
    &&& (protection == 0 || protection == 1)
    &&& 0 < use_count <= u32::MAX
    &&& spec_valid_term(term)
}

/// The error an invalid stored learned-word row is refused with: the normalized column first,
/// then the protection flag, the use count's range, the spelling, and a zero use count.
pub open spec fn spec_stored_word_error(
    e: StoredValueError,
    term: Seq<char>,
    normalized_term: Seq<char>,
    protection: i64,
    use_count: i64,
) -> bool {
    if spec_normalize(term) != normalized_term {
        e matches StoredValueError::InvalidStoredNormalizedTerm { term: t, normalized_term: n } && t@
            == term && n@ == normalized_term
    } else if protection != 0 && protection != 1 {
        e == StoredValueError::InvalidStoredUserTermProtection(protection)
    } else if !(0 <= use_count <= u32::MAX) {
        e == StoredValueError::InvalidStoredUserTermUseCount(use_count)
    } else if !spec_valid_term(term) {
        e == StoredValueError::UserLexicon(UserLexiconError::InvalidTerm)
    } else {
        e == StoredValueError::UserLexicon(UserLexiconError::InvalidUseCount)
    }
}

/// A stored dictionary row: its normalized column must be the normalized term, and its
/// frequency a positive 32-bit value.
pub fn dictionary_entry_from_stored(term: &str, normalized_term: &str, frequency: i64) -> (r: Result<
    DictionaryEntry,
    StoredValueError,
>)
    ensures
        r is Ok <==> spec_stored_entry_ok(term@, normalized_term@, frequency),
        r matches Ok(e) ==> e.spec_word() == normalized_term@ && e.spec_frequency() == frequency,
        r matches Err(e) ==> spec_stored_entry_error(e, term@, normalized_term@, frequency),
{
    let normalized = crate::language::normalize::normalize_word(term);
    if !str_eq(normalized.as_str(), normalized_term) {
        return Err(
            StoredValueError::InvalidStoredNormalizedTerm {
                term: term.to_owned(),
                normalized_term: normalized_term.to_owned(),
            },
        );
    }
    if frequency < 0 || frequency > u32::MAX as i64 {
        return Err(StoredValueError::InvalidStoredDictionaryFrequency(frequency));
    }
    match DictionaryEntry::try_new(term, frequency as u32) {
        Ok(entry) => Ok(entry),
        Err(e) => Err(StoredValueError::LanguagePack(e)),
    }
}

/// A stored learned-word row: its normalized column must be the normalized term, its protection
/// flag 0 or 1, and its use count a positive 32-bit value.
pub fn user_word_from_stored(
    term: &str,
    normalized_term: &str,
    protection: i64,
    use_count: i64,
    last_used_at_ms: i64,
) -> (r: Result<UserWord, StoredValueError>)
    ensures
        r is Ok <==> spec_stored_word_ok(term@, normalized_term@, protection, use_count),
        r matches Err(e) ==> spec_stored_word_error(e, term@, normalized_term@, protection, use_count),
        r matches Ok(w) ==> w.spec_term() == term@ && w.spec_normalized() == normalized_term@
            && w.spec_use_count() == use_count && w.spec_last_used() == last_used_at_ms,
{
    let normalized = crate::language::normalize::normalize_word(term);
    if !str_eq(normalized.as_str(), normalized_term) {
        return Err(
            StoredValueError::InvalidStoredNormalizedTerm {
                term: term.to_owned(),
                normalized_term: normalized_term.to_owned(),
            },
        );
    }
    if protection != 0 && protection != 1 {
        return Err(StoredValueError::InvalidStoredUserTermProtection(protection));
    }
    if use_count < 0 || use_count > u32::MAX as i64 {
        return Err(StoredValueError::InvalidStoredUserTermUseCount(use_count));
    }
    match UserWord::try_new(term, use_count as u32, last_used_at_ms) {
        Ok(word) => Ok(word),
        Err(e) => Err(StoredValueError::UserLexicon(e)),
    }
}

/// The highest frequency the stored rows give a normalized word, 0 when absent.
pub open spec fn spec_top_row_frequency(rows: Seq<(String, String, i64)>, word: Seq<char>) -> int
    decreases rows.len(),
{
    if rows.len() == 0 {
        0
    } else {
        let rest = spec_top_row_frequency(rows.drop_last(), word);
        if rows.last().1@ == word && rows.last().2 > rest {
            rows.last().2 as int
        } else {
            rest
        }
    }
}

/// Every stored dictionary row before `n` is valid.
pub open spec fn spec_entry_rows_ok(rows: Seq<(String, String, i64)>, n: int) -> bool {
    forall|k: int| 0 <= k < n ==> spec_stored_entry_ok((#[trigger] rows[k]).0@, rows[k].1@, rows[k].2)
}

/// Some stored dictionary row has this normalized word.
pub open spec fn spec_rows_have_word(rows: Seq<(String, String, i64)>, word: Seq<char>) -> bool {
    exists|k: int| 0 <= k < rows.len() && (#[trigger] rows[k]).1@ == word
}

/// A pack holds exactly the normalized words of the rows, ascending, each with the highest
/// frequency the rows give it.
pub open spec fn spec_pack_from_rows(p: LanguagePack, rows: Seq<(String, String, i64)>) -> bool {
    &&& spec_entries_ascending(p.spec_entries())
    &&& forall|k: int| 0 <= k < rows.len() ==> spec_has_word(p.spec_entries(), (#[trigger] rows[k]).1@)
    &&& forall|i: int|
        0 <= i < p.spec_entries().len() ==> spec_rows_have_word(rows, (#[trigger] p.spec_entries()[i]).spec_word())
    &&& forall|i: int|
        0 <= i < p.spec_entries().len() ==> (#[trigger] p.spec_entries()[i]).spec_frequency()
            == spec_top_row_frequency(rows, p.spec_entries()[i].spec_word())
}

proof fn lemma_top_frequency_of_rows(
    entries: Seq<DictionaryEntry>,
    rows: Seq<(String, String, i64)>,
    word: Seq<char>,
)
    requires
        entries.len() == rows.len(),
        forall|j: int|
            0 <= j < rows.len() ==> (#[trigger] entries[j]).spec_word() == rows[j].1@
                && entries[j].spec_frequency() == rows[j].2,
    ensures
        spec_top_frequency(entries, word) == spec_top_row_frequency(rows, word),
    decreases rows.len(),
{
    if rows.len() > 0 {
        assert forall|j: int| 0 <= j < rows.drop_last().len() implies (#[trigger] entries.drop_last()[j]).spec_word()
            == rows.drop_last()[j].1@ && entries.drop_last()[j].spec_frequency() == rows.drop_last()[j].2 by {
            assert(entries.drop_last()[j] == entries[j]);
        }
        lemma_top_frequency_of_rows(entries.drop_last(), rows.drop_last(), word);
        assert(entries.last() == entries[entries.len() - 1]);
    }
}

/// Builds a language pack from its stored code and dictionary rows (term, normalized term,
/// frequency): every row is validated first, in order, then the code, then the pack is built
/// with the language's layout transforms.
pub fn language_pack_from_stored(code: &str, rows: &Vec<(String, String, i64)>) -> (r: Result<
    LanguagePack,
    StoredValueError,
>)
    ensures
        r is Ok ==> spec_entry_rows_ok(rows@, rows@.len() as int) && spec_valid_language_id(code@)
            && rows@.len() > 0,
        r matches Ok(p) ==> p.spec_id().spec_value() == code@ && spec_pack_from_rows(p, rows@)
            && spec_layout_transforms(code@, p.spec_transforms()),
        !spec_entry_rows_ok(rows@, rows@.len() as int) ==> exists|k: int|
            0 <= k < rows@.len() && spec_entry_rows_ok(rows@, k) && !spec_stored_entry_ok(
                (#[trigger] rows@[k]).0@,
                rows@[k].1@,
                rows@[k].2,
            ) && (r matches Err(e) && spec_stored_entry_error(e, rows@[k].0@, rows@[k].1@, rows@[k].2)),
        spec_entry_rows_ok(rows@, rows@.len() as int) && !spec_valid_language_id(code@) ==> r
            == Err::<LanguagePack, _>(StoredValueError::LanguagePack(LanguagePackError::InvalidLanguageId)),
        spec_entry_rows_ok(rows@, rows@.len() as int) && spec_valid_language_id(code@) ==> (r is Ok
            <==> spec_layouts_build(code@) && rows@.len() > 0),
        spec_entry_rows_ok(rows@, rows@.len() as int) && spec_valid_language_id(code@)
            && !spec_layouts_build(code@) ==> r == Err::<LanguagePack, _>(
            StoredValueError::LanguagePack(LanguagePackError::InvalidLayoutMap),
        ),
        spec_entry_rows_ok(rows@, rows@.len() as int) && spec_valid_language_id(code@)
            && spec_layouts_build(code@) && rows@.len() == 0 ==> r == Err::<LanguagePack, _>(
            StoredValueError::LanguagePack(LanguagePackError::EmptyDictionary),
        ),
{
    let mut entries: Vec<DictionaryEntry> = Vec::new();
    let mut k: usize = 0;
    while k < rows.len()
        invariant
            k <= rows@.len(),
            entries@.len() == k,
            spec_entry_rows_ok(rows@, k as int),
            forall|j: int|
                0 <= j < k ==> (#[trigger] entries@[j]).spec_word() == rows@[j].1@
                    && entries@[j].spec_frequency() == rows@[j].2,
        decreases rows@.len() - k,
    {
        let row = &rows[k];
        let entry = match dictionary_entry_from_stored(row.0.as_str(), row.1.as_str(), row.2) {
            Ok(entry) => entry,
            Err(e) => {
                proof {
                    assert(!spec_entry_rows_ok(rows@, rows@.len() as int));
                }
                return Err(e);
            },
        };
        entries.push(entry);
        proof {
            assert forall|j: int| 0 <= j < k + 1 implies spec_stored_entry_ok(
                (#[trigger] rows@[j]).0@,
                rows@[j].1@,
                rows@[j].2,
            ) by {}
        }
        k = k + 1;
    }
    let ghost given = entries@;
    let id = match LanguageId::try_new(code) {
        Ok(id) => id,
        Err(e) => {
            return Err(StoredValueError::LanguagePack(e));
        },
    };
    match language_pack_from_entries(id, entries) {
        Ok(pack) => {
            proof {
                assert(LanguagePack::spec_built_from(pack, given));
                assert(spec_entries_ascending(pack.spec_entries()));
                assert forall|k: int| 0 <= k < rows@.len() implies spec_has_word(pack.spec_entries(), (#[trigger] rows@[k]).1@) by {
                    assert(given[k].spec_word() == rows@[k].1@);
                }
                assert forall|i: int| 0 <= i < pack.spec_entries().len() implies spec_rows_have_word(
                    rows@,
                    (#[trigger] pack.spec_entries()[i]).spec_word(),
                ) by {
                    let w = pack.spec_entries()[i].spec_word();
                    assert(spec_has_word(given, w));
                    let j = choose|j: int| 0 <= j < given.len() && (#[trigger] given[j]).spec_word() == w;
                    assert(rows@[j].1@ == w);
                }
                assert forall|i: int| 0 <= i < pack.spec_entries().len() implies (#[trigger] pack.spec_entries()[i]).spec_frequency()
                    == spec_top_row_frequency(rows@, pack.spec_entries()[i].spec_word()) by {
                    lemma_top_frequency_of_rows(given, rows@, pack.spec_entries()[i].spec_word());
                }
                assert(spec_pack_from_rows(pack, rows@));
            }
            Ok(pack)
        },
        Err(e) => Err(StoredValueError::LanguagePack(e)),
    }
}

/// Every stored learned-word row before `n` is valid.
pub open spec fn spec_word_rows_ok(rows: Seq<(String, String, i64, i64, i64)>, n: int) -> bool {
    forall|k: int|
        0 <= k < n ==> spec_stored_word_ok((#[trigger] rows[k]).0@, rows[k].1@, rows[k].2, rows[k].3)
}

/// No two stored learned-word rows share a normalized identity.
pub open spec fn spec_word_rows_distinct(rows: Seq<(String, String, i64, i64, i64)>) -> bool {
    forall|i: int, j: int| 0 <= i < j < rows.len() ==> (#[trigger] rows[i]).1@ != (#[trigger] rows[j]).1@
}

/// The word a valid stored row describes.
pub open spec fn spec_word_matches_row(w: UserWord, row: (String, String, i64, i64, i64)) -> bool {
    &&& w.spec_term() == row.0@
    &&& w.spec_normalized() == row.1@
    &&& w.spec_use_count() == row.3
    &&& w.spec_last_used() == row.4
}

/// Some word is the one this row describes.
pub open spec fn spec_some_word_matches(words: Seq<UserWord>, row: (String, String, i64, i64, i64)) -> bool {
    exists|i: int| 0 <= i < words.len() && spec_word_matches_row(#[trigger] words[i], row)
}

/// Some row describes this word.
pub open spec fn spec_some_row_matches(rows: Seq<(String, String, i64, i64, i64)>, w: UserWord) -> bool {
    exists|k: int| 0 <= k < rows.len() && spec_word_matches_row(w, #[trigger] rows[k])
}

/// Builds the learned vocabulary from its stored rows (term, normalized term, protection flag,
/// use count, last use): every row is validated first, in order; then no two rows may share a
/// normalized identity.
pub fn user_lexicon_from_stored(rows: &Vec<(String, String, i64, i64, i64)>) -> (r: Result<
    UserLexicon,
    StoredValueError,
>)
    ensures
        r is Ok <==> spec_word_rows_ok(rows@, rows@.len() as int) && spec_word_rows_distinct(rows@),
        r matches Ok(lexicon) ==> lexicon.spec_entries().len() == rows@.len() && (forall|k: int|
            0 <= k < rows@.len() ==> spec_some_word_matches(lexicon.spec_entries(), #[trigger] rows@[k]))
            && (forall|i: int|
            0 <= i < lexicon.spec_entries().len() ==> spec_some_row_matches(
                rows@,
                #[trigger] lexicon.spec_entries()[i],
            )),
        !spec_word_rows_ok(rows@, rows@.len() as int) ==> exists|k: int|
            0 <= k < rows@.len() && spec_word_rows_ok(rows@, k) && !spec_stored_word_ok(
                (#[trigger] rows@[k]).0@,
                rows@[k].1@,
                rows@[k].2,
                rows@[k].3,
            ) && (r matches Err(e) && spec_stored_word_error(
                e,
                rows@[k].0@,
                rows@[k].1@,
                rows@[k].2,
                rows@[k].3,
            )),
        spec_word_rows_ok(rows@, rows@.len() as int) && !spec_word_rows_distinct(rows@) ==> (r matches Err(
            StoredValueError::UserLexicon(UserLexiconError::DuplicateNormalizedTerm(t)),
        ) && exists|i: int, j: int|
            0 <= i < j < rows@.len() && (#[trigger] rows@[i]).1@ == t@ && (#[trigger] rows@[j]).1@
                == t@),
{
    let mut words: Vec<UserWord> = Vec::new();
    let mut k: usize = 0;
    while k < rows.len()
        invariant
            k <= rows@.len(),
            words@.len() == k,
            spec_word_rows_ok(rows@, k as int),
            forall|j: int| 0 <= j < k ==> spec_word_matches_row(#[trigger] words@[j], rows@[j]),
        decreases rows@.len() - k,
    {
        let row = &rows[k];
        let word = match user_word_from_stored(row.0.as_str(), row.1.as_str(), row.2, row.3, row.4) {
            Ok(word) => word,
            Err(e) => {
                proof {
                    assert(!spec_word_rows_ok(rows@, rows@.len() as int));
                }
                return Err(e);
            },
        };
        words.push(word);
        proof {
            assert forall|j: int| 0 <= j < k + 1 implies spec_stored_word_ok(
                (#[trigger] rows@[j]).0@,
                rows@[j].1@,
                rows@[j].2,
                rows@[j].3,
            ) by {}
            assert forall|j: int| 0 <= j < k + 1 implies spec_word_matches_row(#[trigger] words@[j], rows@[j]) by {}
        }
        k = k + 1;
    }
    let ghost given = words@;
    proof {
        assert(spec_distinct_normalized(given) <==> spec_word_rows_distinct(rows@)) by {
            if spec_distinct_normalized(given) {
                assert forall|i: int, j: int| 0 <= i < j < rows@.len() implies (#[trigger] rows@[i]).1@
                    != (#[trigger] rows@[j]).1@ by {
                    assert(spec_word_matches_row(given[i], rows@[i]));
                    assert(spec_word_matches_row(given[j], rows@[j]));
                }
            }
            if spec_word_rows_distinct(rows@) {
                assert forall|i: int, j: int| 0 <= i < j < given.len() implies (#[trigger] given[i]).spec_normalized()
                    != (#[trigger] given[j]).spec_normalized() by {
                    assert(spec_word_matches_row(given[i], rows@[i]));
                    assert(spec_word_matches_row(given[j], rows@[j]));
                }
            }
        }
    }
    match UserLexicon::try_new(words) {
        Ok(lexicon) => {
            proof {
                broadcast use vstd::seq_lib::group_to_multiset_ensures;

                assert(lexicon.spec_entries().to_multiset().len() == given.to_multiset().len());
                assert forall|k: int| 0 <= k < rows@.len() implies spec_some_word_matches(
                    lexicon.spec_entries(),
                    #[trigger] rows@[k],
                ) by {
                    assert(given.to_multiset().count(given[k]) > 0);
                    assert(lexicon.spec_entries().contains(given[k]));
                    let i = choose|i: int| 0 <= i < lexicon.spec_entries().len() && lexicon.spec_entries()[i] == given[k];
                    assert(spec_word_matches_row(lexicon.spec_entries()[i], rows@[k]));
                }
                assert forall|i: int| 0 <= i < lexicon.spec_entries().len() implies spec_some_row_matches(
                    rows@,
                    #[trigger] lexicon.spec_entries()[i],
                ) by {
                    let w = lexicon.spec_entries()[i];
                    assert(lexicon.spec_entries().to_multiset().count(w) > 0);
                    assert(given.contains(w));
                    let k = choose|k: int| 0 <= k < given.len() && given[k] == w;
                    assert(spec_word_matches_row(given[k], rows@[k]));
                }
            }
            Ok(lexicon)
        },
        Err(e) => {
            proof {
                if e is DuplicateNormalizedTerm {
                    let t = e->DuplicateNormalizedTerm_0;
                    let (i, j) = choose|i: int, j: int|
                        0 <= i < j < given.len() && (#[trigger] given[i]).spec_normalized() == t@
                            && (#[trigger] given[j]).spec_normalized() == t@;
                    assert(spec_word_matches_row(given[i], rows@[i]));
                    assert(spec_word_matches_row(given[j], rows@[j]));
                }
            }
            Err(StoredValueError::UserLexicon(e))
        },
    }
}

/// A learned-word row as the store keeps it: spelling, normalized identity, protection flag,
/// use count and last use.
#[derive(Debug, Clone, PartialEq, Eq)]
pub struct StoredWordRow {
    pub term: String,
    pub normalized_term: String,
    pub protected: bool,
    pub use_count: i64,
    pub last_used_at_ms: i64,
}

/// The content of a stored learned-word row.
pub open spec fn spec_row_model(row: StoredWordRow) -> (Seq<char>, Seq<char>, bool, i64, i64) {
    (row.term@, row.normalized_term@, row.protected, row.use_count, row.last_used_at_ms)
}

/// One more use of a learned word, observed with this spelling and time and (for a restored
/// original) protection: a new word is stored once used; a stored one counts one more use, keeps
/// its latest use time, stays protected once protected, and keeps the spelling of its first
/// accepted observation unless the new observation is protected, which then takes its
/// spelling. A use count that cannot grow any further is refused.
pub open spec fn spec_merged_word_row(
    existing: Option<StoredWordRow>,
    observed: UserWord,
    protected: bool,
) -> Option<(Seq<char>, Seq<char>, bool, i64, i64)> {
    match existing {
        None => Some(
            (observed.spec_term(), observed.spec_normalized(), protected, 1, observed.spec_last_used()),
        ),
        Some(old) => if old.use_count == i64::MAX {
            None
        } else {
            Some(
                (
                    if protected {
                        observed.spec_term()
                    } else {
                        old.term@
                    },
                    old.normalized_term@,
                    old.protected || protected,
                    (old.use_count + 1) as i64,
                    if observed.spec_last_used() >= old.last_used_at_ms {
                        observed.spec_last_used()
                    } else {
                        old.last_used_at_ms
                    },
                ),
            )
        },
    }
}

/// The row the store keeps after one more use of a learned word (see [`spec_merged_word_row`]).
pub fn merge_user_word_row(existing: Option<StoredWordRow>, observed: &UserWord, protected: bool) -> (r: Option<
    StoredWordRow,
>)
    ensures
        match r {
            Some(row) => spec_merged_word_row(existing, *observed, protected) == Some(spec_row_model(row)),
            None => spec_merged_word_row(existing, *observed, protected) is None,
        },
{
    match existing {
        None => Some(
            StoredWordRow {
                term: observed.term().to_owned(),
                normalized_term: observed.normalized_term().to_owned(),
                protected,
                use_count: 1,
                last_used_at_ms: observed.last_used_at_ms(),
            },
        ),
        Some(old) => {
            if old.use_count == i64::MAX {
                return None;
            }
            let newer = observed.last_used_at_ms() >= old.last_used_at_ms;
            let term = if protected {
                observed.term().to_owned()
            } else {
                old.term
            };
            let last_used_at_ms = if newer {
                observed.last_used_at_ms()
            } else {
                old.last_used_at_ms
            };
            Some(
                StoredWordRow {
                    term,
                    normalized_term: old.normalized_term,
                    protected: old.protected || protected,
                    use_count: old.use_count + 1,
                    last_used_at_ms,
                },
            )
        },
    }
}

/// Whether this library can open a database at this schema version.
pub fn schema_is_supported(version: i64) -> (r: bool)
    ensures
        r == (version <= CURRENT_SCHEMA_VERSION),
{
    version <= CURRENT_SCHEMA_VERSION
}

/// The schema versions still to apply, in order, to a database at `version`.
pub fn pending_migrations(version: i64) -> (r: Vec<i64>)
    requires
        version <= CURRENT_SCHEMA_VERSION,
    ensures
        forall|k: int| 0 <= k < r@.len() ==> version < #[trigger] r@[k] <= CURRENT_SCHEMA_VERSION,
        forall|v: i64| version < v <= CURRENT_SCHEMA_VERSION && v >= 1 ==> r@.contains(v),
        forall|a: int, b: int| 0 <= a < b < r@.len() ==> #[trigger] r@[a] < #[trigger] r@[b],
{
    let mut out: Vec<i64> = Vec::new();
    let mut target: i64 = 1;
    while target <= CURRENT_SCHEMA_VERSION
        invariant
            1 <= target <= CURRENT_SCHEMA_VERSION + 1,
            forall|k: int| 0 <= k < out@.len() ==> version < #[trigger] out@[k] < target,
            forall|v: i64| version < v < target && v >= 1 ==> out@.contains(v),
            forall|a: int, b: int| 0 <= a < b < out@.len() ==> #[trigger] out@[a] < #[trigger] out@[b],
        decreases CURRENT_SCHEMA_VERSION + 1 - target,
    {
        if version < target {
            let ghost before = out@;
            out.push(target);
            proof {
                assert forall|v: i64| version < v < target + 1 && v >= 1 implies out@.contains(v) by {
                    if v == target {
                        assert(out@[out@.len() - 1] == v);
                    } else {
                        assert(before.contains(v));
                        let k = choose|k: int| 0 <= k < before.len() && before[k] == v;
                        assert(out@[k] == v);
                    }
                }
            }
        }
        target = target + 1;
    }
    out
}

} // verus!
