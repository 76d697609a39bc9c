//! The built-in languages: their keyboard layouts, the transforms between them, and the seed
//! dictionaries of the English and Russian packs.

use vstd::prelude::*;

use super::language_pack::{
    spec_entries_ascending, spec_has_word, spec_layout_fold, spec_layout_maps, spec_top_frequency,
    spec_valid_language_id, DictionaryEntry, KeyboardLayoutMap, LanguageId, LanguagePack,
    LanguagePackError,
};
use super::normalize::spec_normalize;
use crate::text::str_eq;

verus! {

/// The Latin QWERTY keys whose Russian JCUKEN symbol differs, in keyboard order.
pub const LATIN_QWERTY: &'static str = "`qwertyuiop[]asdfghjkl;'zxcvbnm,.";

/// The Russian JCUKEN symbols of the same keys, in the same order.
pub const RUSSIAN_JCUKEN: &'static str = "ёйцукенгшщзхъфывапролджэячсмитьбю";

/// The cost of reading a word through the other keyboard layout, in hundredths of an edit.
pub const LAYOUT_PENALTY: u32 = 15;

/// A transform built from two aligned layouts with the given penalty.
pub open spec fn spec_is_layout_transform(
    m: KeyboardLayoutMap,
    source: Seq<char>,
    target: Seq<char>,
    penalty: u32,
) -> bool {
    &&& m.spec_map() == spec_layout_maps(source, target).0
    &&& m.spec_physical_map() == spec_layout_maps(source, target).1
    &&& m.spec_penalty() == penalty
}

/// The transforms a language reads mistyped words through: English words typed on the
/// Russian layout, Russian words typed on the Latin layout, none for other languages.
pub open spec fn spec_layout_transforms(id: Seq<char>, transforms: Seq<KeyboardLayoutMap>) -> bool {
    if id == "en"@ {
        transforms.len() == 1 && spec_is_layout_transform(
            transforms[0],
            RUSSIAN_JCUKEN@,
            LATIN_QWERTY@,
            LAYOUT_PENALTY,
        )
    } else if id == "ru"@ {
        transforms.len() == 1 && spec_is_layout_transform(
            transforms[0],
            LATIN_QWERTY@,
            RUSSIAN_JCUKEN@,
            LAYOUT_PENALTY,
        )
    } else {
        transforms.len() == 0
    }
}

/// Two aligned layouts build a transform: they are non-empty, of one length, and no character
/// or key would map to two targets.
pub open spec fn spec_layout_builds(source: Seq<char>, target: Seq<char>) -> bool {
    &&& source.len() > 0
    &&& source.len() == target.len()
    &&& spec_layout_fold(source, target, source.len()) is Some
}

/// The language's layout transforms build: always, except that English and Russian need their
/// aligned layouts to build.
pub open spec fn spec_layouts_build(id: Seq<char>) -> bool {
    if id == "en"@ {
        spec_layout_builds(RUSSIAN_JCUKEN@, LATIN_QWERTY@)
    } else if id == "ru"@ {
        spec_layout_builds(LATIN_QWERTY@, RUSSIAN_JCUKEN@)
    } else {
        true
    }
}

/// The layout transforms of a language.
pub fn layout_transforms(id: &LanguageId) -> (r: Result<Vec<KeyboardLayoutMap>, LanguagePackError>)
    ensures
        r is Ok <==> spec_layouts_build(id.spec_value()),
        r matches Ok(transforms) ==> spec_layout_transforms(id.spec_value(), transforms@),
        r matches Err(e) ==> e == LanguagePackError::InvalidLayoutMap,
        id.spec_value() != "en"@ && id.spec_value() != "ru"@ ==> r is Ok,
{
    if str_eq(id.as_str(), "en") {
        let map = KeyboardLayoutMap::from_aligned(RUSSIAN_JCUKEN, LATIN_QWERTY, LAYOUT_PENALTY)?;
        let mut transforms: Vec<KeyboardLayoutMap> = Vec::new();
        transforms.push(map);
        Ok(transforms)
    } else if str_eq(id.as_str(), "ru") {
        let map = KeyboardLayoutMap::from_aligned(LATIN_QWERTY, RUSSIAN_JCUKEN, LAYOUT_PENALTY)?;
        let mut transforms: Vec<KeyboardLayoutMap> = Vec::new();
        transforms.push(map);
        Ok(transforms)
    } else {
        Ok(Vec::new())
    }
}

/// Builds a pack with the language's layout transforms.
pub fn language_pack_from_entries(id: LanguageId, entries: Vec<DictionaryEntry>) -> (r: Result<
    LanguagePack,
    LanguagePackError,
>)
    ensures
        r is Ok <==> spec_layouts_build(id.spec_value()) && entries@.len() > 0,
        !spec_layouts_build(id.spec_value()) ==> r == Err::<LanguagePack, _>(
            LanguagePackError::InvalidLayoutMap,
        ),
        spec_layouts_build(id.spec_value()) && entries@.len() == 0 ==> r == Err::<LanguagePack, _>(
            LanguagePackError::EmptyDictionary,
        ),
        (id.spec_value() != "en"@ && id.spec_value() != "ru"@) ==> (r is Ok <==> entries@.len()
            > 0),
        r matches Ok(p) ==> p.spec_id() == id && LanguagePack::spec_built_from(p, entries@)
            && spec_layout_transforms(id.spec_value(), p.spec_transforms()),
        r matches Err(e) ==> (e == LanguagePackError::EmptyDictionary && entries@.len() == 0) || e
            == LanguagePackError::InvalidLayoutMap,
        r is Ok ==> entries@.len() > 0,
        (id.spec_value() != "en"@ && id.spec_value() != "ru"@) && entries@.len() == 0 ==> r
            == Err::<LanguagePack, _>(LanguagePackError::EmptyDictionary),
{
    let transforms = layout_transforms(&id)?;
    LanguagePack::try_new(id, entries, transforms)
}

/// A seed dictionary: words with their frequencies.
pub open spec fn spec_seed_view(seed: Seq<(&str, u32)>) -> Seq<(Seq<char>, u32)> {
    seed.map_values(|pair: (&str, u32)| (pair.0@, pair.1))
}

/// A seed pair makes a dictionary entry: its word normalizes to something free of NUL, and its
/// frequency is positive.
pub open spec fn spec_seed_pair_ok(pair: (Seq<char>, u32)) -> bool {
    &&& spec_normalize(pair.0).len() > 0
    &&& !spec_normalize(pair.0).contains('\0')
    &&& pair.1 > 0
}

/// Every seed pair makes a dictionary entry.
pub open spec fn spec_seed_valid(seed: Seq<(Seq<char>, u32)>) -> bool {
    forall|k: int| 0 <= k < seed.len() ==> spec_seed_pair_ok(#[trigger] seed[k])
}

/// Some seed pair has this normalized word.
pub open spec fn spec_seed_has_word(seed: Seq<(Seq<char>, u32)>, word: Seq<char>) -> bool {
    exists|k: int| 0 <= k < seed.len() && spec_normalize((#[trigger] seed[k]).0) == word
}

/// The highest frequency the seed gives a normalized word, 0 when absent.
pub open spec fn spec_top_seed_frequency(seed: Seq<(Seq<char>, u32)>, word: Seq<char>) -> u32
    decreases seed.len(),
{
    if seed.len() == 0 {
        0
    } else {
        let rest = spec_top_seed_frequency(seed.drop_last(), word);
        if spec_normalize(seed.last().0) == word && seed.last().1 > rest {
            seed.last().1
        } else {
            rest
        }
    }
}

/// A pack holds exactly the normalized seed words, ascending, each with the highest frequency
/// the seed gives it.
pub open spec fn spec_pack_from_seed(p: LanguagePack, seed: Seq<(Seq<char>, u32)>) -> bool {
    &&& spec_entries_ascending(p.spec_entries())
    &&& forall|k: int|
        0 <= k < seed.len() ==> spec_has_word(p.spec_entries(), spec_normalize((#[trigger] seed[k]).0))
    &&& forall|i: int|
        0 <= i < p.spec_entries().len() ==> spec_seed_has_word(seed, (#[trigger] p.spec_entries()[i]).spec_word())
    &&& forall|i: int|
        0 <= i < p.spec_entries().len() ==> (#[trigger] p.spec_entries()[i]).spec_frequency()
            == spec_top_seed_frequency(seed, p.spec_entries()[i].spec_word())
}

proof fn lemma_top_frequency_of_seed(entries: Seq<DictionaryEntry>, seed: Seq<(Seq<char>, u32)>, word: Seq<char>)
    requires
        entries.len() == seed.len(),
        forall|j: int|
            0 <= j < seed.len() ==> (#[trigger] entries[j]).spec_word() == spec_normalize(seed[j].0)
                && entries[j].spec_frequency() == seed[j].1,
    ensures
        spec_top_frequency(entries, word) == spec_top_seed_frequency(seed, word),
    decreases seed.len(),
{
    if seed.len() > 0 {
        assert forall|j: int| 0 <= j < seed.drop_last().len() implies (#[trigger] entries.drop_last()[j]).spec_word()
            == spec_normalize(seed.drop_last()[j].0) && entries.drop_last()[j].spec_frequency() == seed.drop_last()[j].1 by {
            assert(entries.drop_last()[j] == entries[j]);
        }
        lemma_top_frequency_of_seed(entries.drop_last(), seed.drop_last(), word);
        assert(entries.last() == entries[entries.len() - 1]);
    }
}

/// Builds a dictionary from word and frequency pairs, one entry per pair, in order.
fn seed_entries(seed: &Vec<(&str, u32)>) -> (r: Result<Vec<DictionaryEntry>, LanguagePackError>)
    ensures
        r is Ok <==> spec_seed_valid(spec_seed_view(seed@)),
        r matches Ok(entries) ==> entries@.len() == seed@.len() && forall|j: int|
            0 <= j < seed@.len() ==> (#[trigger] entries@[j]).spec_word() == spec_normalize(
                spec_seed_view(seed@)[j].0,
            ) && entries@[j].spec_frequency() == spec_seed_view(seed@)[j].1,
        r matches Err(e) ==> e == LanguagePackError::InvalidDictionaryEntry,
{
    let ghost view = spec_seed_view(seed@);
    let mut entries: Vec<DictionaryEntry> = Vec::new();
    let mut i: usize = 0;
    while i < seed.len()
        invariant
            i <= seed@.len(),
            view == spec_seed_view(seed@),
            entries@.len() == i,
            forall|k: int| 0 <= k < i ==> spec_seed_pair_ok(#[trigger] view[k]),
            forall|j: int|
                0 <= j < i ==> (#[trigger] entries@[j]).spec_word() == spec_normalize(view[j].0)
                    && entries@[j].spec_frequency() == view[j].1,
        decreases seed@.len() - i,
    {
        let (word, frequency) = seed[i];
        assert(view[i as int] == (word@, frequency));
        let entry = match DictionaryEntry::try_new(word, frequency) {
            Ok(entry) => entry,
            Err(e) => {
                assert(!spec_seed_pair_ok(view[i as int]));
                return Err(e);
            },
        };
        entries.push(entry);
        i = i + 1;
    }
    Ok(entries)
}

/// Builds a built-in pack from its language code and seed dictionary: the seed first, then the
/// code, then the pack with the language's layout transforms.
fn seed_pack(code: &str, seed: &Vec<(&str, u32)>) -> (r: Result<LanguagePack, LanguagePackError>)
    ensures
        r is Ok <==> spec_seed_valid(spec_seed_view(seed@)) && spec_valid_language_id(code@)
            && spec_layouts_build(code@) && seed@.len() > 0,
        r matches Ok(p) ==> p.spec_id().spec_value() == code@ && spec_pack_from_seed(p, spec_seed_view(seed@))
            && spec_layout_transforms(code@, p.spec_transforms()),
        !spec_seed_valid(spec_seed_view(seed@)) ==> r == Err::<LanguagePack, _>(
            LanguagePackError::InvalidDictionaryEntry,
        ),
        spec_seed_valid(spec_seed_view(seed@)) && !spec_valid_language_id(code@) ==> r == Err::<
            LanguagePack,
            _,
        >(LanguagePackError::InvalidLanguageId),
        spec_seed_valid(spec_seed_view(seed@)) && spec_valid_language_id(code@) && !spec_layouts_build(
            code@,
        ) ==> r == Err::<LanguagePack, _>(LanguagePackError::InvalidLayoutMap),
{
    let ghost view = spec_seed_view(seed@);
    let entries = seed_entries(seed)?;
    let ghost given = entries@;
    let id = LanguageId::try_new(code)?;
    let pack = language_pack_from_entries(id, entries)?;
    proof {
        assert(LanguagePack::spec_built_from(pack, given));
        assert forall|k: int| 0 <= k < view.len() implies spec_has_word(pack.spec_entries(), spec_normalize((#[trigger] view[k]).0)) by {
            assert(given[k].spec_word() == spec_normalize(view[k].0));
        }
        assert forall|i: int| 0 <= i < pack.spec_entries().len() implies spec_seed_has_word(
            view,
            (#[trigger] pack.spec_entries()[i]).spec_word(),
        ) by {
            let w = pack.spec_entries()[i].spec_word();
            assert(spec_has_word(given, w));
            let j = choose|j: int| 0 <= j < given.len() && (#[trigger] given[j]).spec_word() == w;
            assert(spec_normalize(view[j].0) == w);
        }
        assert forall|i: int| 0 <= i < pack.spec_entries().len() implies (#[trigger] pack.spec_entries()[i]).spec_frequency()
            == spec_top_seed_frequency(view, pack.spec_entries()[i].spec_word()) by {
            lemma_top_frequency_of_seed(given, view, pack.spec_entries()[i].spec_word());
        }
    }
    Ok(pack)
}

/// The seed dictionary of the built-in English pack.
pub open spec fn spec_english_seed() -> Seq<(Seq<char>, u32)> {
    seq![
        ("the"@, 1000u32),
        ("and"@, 990u32),
        ("this"@, 970u32),
        ("that"@, 960u32),
        ("hello"@, 950u32),
        ("world"@, 940u32),
        ("for"@, 930u32),
        ("with"@, 920u32),
        ("yes"@, 900u32),
        ("no"@, 890u32),
        ("if"@, 880u32),
        ("can"@, 870u32),
        ("need"@, 860u32),
        ("text"@, 850u32),
        ("word"@, 840u32),
        ("test"@, 830u32),
        ("language"@, 820u32),
        ("work"@, 810u32),
        ("window"@, 800u32),
        ("program"@, 790u32),
        ("correction"@, 780u32),
        ("error"@, 770u32),
        ("errors"@, 760u32),
        ("english"@, 750u32),
        ("russian"@, 740u32),
        ("now"@, 730u32),
        ("later"@, 720u32),
        ("example"@, 710u32),
        ("keyboard"@, 700u32),
        ("sentence"@, 690u32),
    ]
}

/// The built-in English pack: a small seed dictionary, read through the Russian layout too.
pub fn english_language_pack() -> (r: Result<LanguagePack, LanguagePackError>)
    ensures
        r is Ok <==> spec_seed_valid(spec_english_seed()) && spec_valid_language_id("en"@)
            && spec_layout_builds(RUSSIAN_JCUKEN@, LATIN_QWERTY@),
        r matches Ok(p) ==> p.spec_id().spec_value() == "en"@ && spec_pack_from_seed(p, spec_english_seed())
            && spec_layout_transforms("en"@, p.spec_transforms()),
        !spec_seed_valid(spec_english_seed()) ==> r == Err::<LanguagePack, _>(
            LanguagePackError::InvalidDictionaryEntry,
        ),
        spec_seed_valid(spec_english_seed()) && !spec_valid_language_id("en"@) ==> r == Err::<
            LanguagePack,
            _,
        >(LanguagePackError::InvalidLanguageId),
        spec_seed_valid(spec_english_seed()) && spec_valid_language_id("en"@) && !spec_layout_builds(
            RUSSIAN_JCUKEN@, LATIN_QWERTY@,
        ) ==> r == Err::<LanguagePack, _>(LanguagePackError::InvalidLayoutMap),
{
    let seed: Vec<(&str, u32)> = vec![
        ("the", 1000),
        ("and", 990),
        ("this", 970),
        ("that", 960),
        ("hello", 950),
        ("world", 940),
        ("for", 930),
        ("with", 920),
        ("yes", 900),
        ("no", 890),
        ("if", 880),
        ("can", 870),
        ("need", 860),
        ("text", 850),
        ("word", 840),
        ("test", 830),
        ("language", 820),
        ("work", 810),
        ("window", 800),
        ("program", 790),
        ("correction", 780),
        ("error", 770),
        ("errors", 760),
        ("english", 750),
        ("russian", 740),
        ("now", 730),
        ("later", 720),
        ("example", 710),
        ("keyboard", 700),
        ("sentence", 690),
    ];
    proof {
        assert(spec_seed_view(seed@) =~= spec_english_seed());
    }
    seed_pack("en", &seed)
}

/// The seed dictionary of the built-in Russian pack.
pub open spec fn spec_russian_seed() -> Seq<(Seq<char>, u32)> {
    seq![
        ("для"@, 1000u32),
        ("что"@, 980u32),
        ("это"@, 970u32),
        ("как"@, 960u32),
        ("привет"@, 940u32),
        ("жизнь"@, 935u32),
        ("хорошо"@, 930u32),
        ("ёлка"@, 925u32),
        ("можно"@, 920u32),
        ("объект"@, 915u32),
        ("нужно"@, 910u32),
        ("быстро"@, 905u32),
        ("если"@, 900u32),
        ("люди"@, 895u32),
        ("да"@, 890u32),
        ("эхо"@, 885u32),
        ("нет"@, 880u32),
        ("юг"@, 875u32),
        ("мир"@, 860u32),
        ("текст"@, 850u32),
        ("слово"@, 840u32),
        ("тест"@, 830u32),
        ("язык"@, 820u32),
        ("работа"@, 810u32),
        ("окно"@, 800u32),
        ("программа"@, 790u32),
        ("исправление"@, 780u32),
        ("ошибка"@, 770u32),
        ("ошибки"@, 760u32),
        ("русский"@, 750u32),
        ("английский"@, 740u32),
        ("сейчас"@, 730u32),
        ("потом"@, 720u32),
        ("пример"@, 710u32),
        ("клавиатура"@, 700u32),
        ("предложение"@, 690u32),
    ]
}

/// The built-in Russian pack: a small seed dictionary, read through the Latin layout too.
pub fn russian_language_pack() -> (r: Result<LanguagePack, LanguagePackError>)
    ensures
        r is Ok <==> spec_seed_valid(spec_russian_seed()) && spec_valid_language_id("ru"@)
            && spec_layout_builds(LATIN_QWERTY@, RUSSIAN_JCUKEN@),
        r matches Ok(p) ==> p.spec_id().spec_value() == "ru"@ && spec_pack_from_seed(p, spec_russian_seed())
            && spec_layout_transforms("ru"@, p.spec_transforms()),
        !spec_seed_valid(spec_russian_seed()) ==> r == Err::<LanguagePack, _>(
            LanguagePackError::InvalidDictionaryEntry,
        ),
        spec_seed_valid(spec_russian_seed()) && !spec_valid_language_id("ru"@) ==> r == Err::<
            LanguagePack,
            _,
        >(LanguagePackError::InvalidLanguageId),
        spec_seed_valid(spec_russian_seed()) && spec_valid_language_id("ru"@) && !spec_layout_builds(
            LATIN_QWERTY@, RUSSIAN_JCUKEN@,
        ) ==> r == Err::<LanguagePack, _>(LanguagePackError::InvalidLayoutMap),
{
    let seed: Vec<(&str, u32)> = vec![
        ("для", 1000),
        ("что", 980),
        ("это", 970),
        ("как", 960),
        ("привет", 940),
        ("жизнь", 935),
        ("хорошо", 930),
        ("ёлка", 925),
        ("можно", 920),
        ("объект", 915),
        ("нужно", 910),
        ("быстро", 905),
        ("если", 900),
        ("люди", 895),
        ("да", 890),
        ("эхо", 885),
        ("нет", 880),
        ("юг", 875),
        ("мир", 860),
        ("текст", 850),
        ("слово", 840),
        ("тест", 830),
        ("язык", 820),
        ("работа", 810),
        ("окно", 800),
        ("программа", 790),
        ("исправление", 780),
        ("ошибка", 770),
        ("ошибки", 760),
        ("русский", 750),
        ("английский", 740),
        ("сейчас", 730),
        ("потом", 720),
        ("пример", 710),
        ("клавиатура", 700),
        ("предложение", 690),
    ];
    proof {
        assert(spec_seed_view(seed@) =~= spec_russian_seed());
        reveal_strlit("ru");
        reveal_strlit("en");
        assert("ru"@[0] != "en"@[0]);
        assert(spec_layouts_build("ru"@) == spec_layout_builds(LATIN_QWERTY@, RUSSIAN_JCUKEN@));
    }
    seed_pack("ru", &seed)
}

} // verus!
