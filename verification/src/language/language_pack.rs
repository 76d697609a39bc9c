//! Language identities, dictionary entries, keyboard-layout transforms and the language pack
//! that indexes a dictionary for exact lookup and typo candidates.

use vstd::prelude::*;

use crate::input::input_buffer::{spec_key_of_symbol, spec_shifted_symbol};
use crate::input::PhysicalKey;
use crate::lexicon::delete_index::{spec_min, spec_shares_form, DeleteIndex, MAX_INDEX_DELETIONS};
use crate::order::{lemma_chars_lt_irreflexive, lemma_chars_lt_transitive, lemma_chars_lt_trichotomy, spec_chars_lt, chars_order};
use crate::language::normalize::{normalize_chars, spec_normalize};
use crate::text::{
    char_is_alphabetic, char_is_whitespace, char_uppercase, chars_contain, chars_of, is_alphabetic,
    is_whitespace, push_char, string_from_chars, uppercase_of,
};

verus! {

/// The largest layout penalty, in hundredths of an edit.
pub const MAX_LAYOUT_PENALTY: u32 = 100;

/// A language code: not blank, free of NUL.
pub open spec fn spec_valid_language_id(v: Seq<char>) -> bool {
    &&& !v.contains('\0')
    &&& exists|i: int| 0 <= i < v.len() && !char_is_whitespace(#[trigger] v[i])
}

#[derive(Debug, Clone, PartialEq, Eq, Hash)]
pub struct LanguageId {
    value: String,
}

#[derive(Debug, Clone, Copy, PartialEq, Eq)]
pub enum LanguagePackError {
    InvalidLanguageId,
    InvalidDictionaryEntry,
    InvalidLayoutMap,
    EmptyDictionary,
}

impl LanguageId {
    pub closed spec fn spec_value(&self) -> Seq<char> {
        self.value@
    }

    /// Rejects a code that is empty or only whitespace, or that holds NUL.
    pub fn try_new(value: &str) -> (r: Result<Self, LanguagePackError>)
        ensures
            spec_valid_language_id(value@) <==> r is Ok,
            r matches Ok(id) ==> id.spec_value() == value@,
            r matches Err(e) ==> e == LanguagePackError::InvalidLanguageId,
    {
        let chars = chars_of(value);
        let mut blank = true;
        let mut i: usize = 0;
        while i < chars.len()
            invariant
                i <= chars.len(),
                chars@ == value@,
                blank <==> forall|j: int| 0 <= j < i ==> char_is_whitespace(#[trigger] chars@[j]),
            decreases chars.len() - i,
        {
            if !is_whitespace(chars[i]) {
                blank = false;
            }
            i = i + 1;
        }
        let has_nul = chars_contain(chars.as_slice(), '\0');
        if blank || has_nul {
            return Err(LanguagePackError::InvalidLanguageId);
        }
        Ok(LanguageId { value: value.to_owned() })
    }

    pub fn as_str(&self) -> (r: &str)
        ensures
            r@ == self.spec_value(),
    {
        self.value.as_str()
    }
}

/// A dictionary word (already normalized) and its frequency.
#[derive(Debug, PartialEq, Eq)]
pub struct DictionaryEntry {
    word: String,
    frequency: u32,
}

impl DictionaryEntry {
    #[verifier::type_invariant]
    spec fn well_formed(self) -> bool {
        &&& self.word@.len() > 0
        &&& !self.word@.contains('\0')
        &&& self.frequency > 0
    }

    pub closed spec fn spec_word(&self) -> Seq<char> {
        self.word@
    }

    pub closed spec fn spec_frequency(&self) -> u32 {
        self.frequency
    }

    /// Normalizes the word; rejects an empty result, one holding NUL, or a zero frequency.
    pub fn try_new(word: &str, frequency: u32) -> (r: Result<Self, LanguagePackError>)
        ensures
            r is Ok <==> (spec_normalize(word@).len() > 0 && !spec_normalize(word@).contains('\0')
                && frequency > 0),
            r matches Ok(e) ==> e.spec_word() == spec_normalize(word@) && e.spec_frequency()
                == frequency,
            r matches Err(e) ==> e == LanguagePackError::InvalidDictionaryEntry,
    {
        let chars = chars_of(word);
        let normalized = normalize_chars(chars.as_slice());
        if normalized.len() == 0 || chars_contain(normalized.as_slice(), '\0') || frequency == 0 {
            return Err(LanguagePackError::InvalidDictionaryEntry);
        }
        Ok(DictionaryEntry { word: string_from_chars(normalized.as_slice()), frequency })
    }

    pub fn word(&self) -> (r: &str)
        ensures
            r@ == self.spec_word(),
    {
        self.word.as_str()
    }

    pub fn frequency(&self) -> (r: u32)
        ensures
            r == self.spec_frequency(),
            r > 0,
    {
        proof {
            use_type_invariant(self);
        }
        self.frequency
    }

    /// A second copy of the same entry.
    pub fn duplicate(&self) -> (r: Self)
        ensures
            r.spec_word() == self.spec_word(),
            r.spec_frequency() == self.spec_frequency(),
    {
        proof {
            use_type_invariant(self);
        }
        DictionaryEntry { word: self.word.clone(), frequency: self.frequency }
    }
}

/// What a key-value list gives for `key`: the value of its first pair with that key.
pub open spec fn spec_lookup<K>(pairs: Seq<(K, char)>, key: K) -> Option<char>
    decreases pairs.len(),
{
    if pairs.len() == 0 {
        None
    } else if pairs[0].0 == key {
        Some(pairs[0].1)
    } else {
        spec_lookup(pairs.drop_first(), key)
    }
}

/// Adds `key -> target` unless the key is already there; fails when it is there with another
/// target.
pub open spec fn spec_insert_unique<K>(pairs: Option<Seq<(K, char)>>, key: K, target: char) -> Option<
    Seq<(K, char)>,
> {
    match pairs {
        None => None,
        Some(p) => match spec_lookup(p, key) {
            Some(previous) => if previous == target {
                Some(p)
            } else {
                None
            },
            None => Some(p.push((key, target))),
        },
    }
}

/// The uppercase form of a character when it is a single character.
pub open spec fn spec_single_uppercase(c: char) -> Option<char> {
    if char_uppercase(c).len() == 1 {
        Some(char_uppercase(c)[0])
    } else {
        None
    }
}

/// The character and key maps after one aligned pair: the character itself, its physical key
/// when that key is layout-ambiguous, and, for a letter with a single-character uppercase, the
/// uppercase source mapped to the shifted target (the target's uppercase when it is a letter,
/// else the shifted symbol of the target's key).
pub open spec fn spec_layout_step(
    state: Option<(Seq<(char, char)>, Seq<(PhysicalKey, char)>)>,
    source: char,
    target: char,
) -> Option<(Seq<(char, char)>, Seq<(PhysicalKey, char)>)> {
    match state {
        None => None,
        Some((map, keys)) => {
            let map1 = spec_insert_unique(Some(map), source, target);
            let source_key = spec_key_of_symbol(source);
            let keys1 = if source_key != PhysicalKey::Other {
                spec_insert_unique(Some(keys), source_key, target)
            } else {
                Some(keys)
            };
            let upper = if char_is_alphabetic(source) {
                spec_single_uppercase(source)
            } else {
                None
            };
            let shifted = if char_is_alphabetic(target) {
                spec_single_uppercase(target)
            } else {
                spec_shifted_symbol(spec_key_of_symbol(target))
            };
            let map2 = if upper is Some && shifted is Some {
                spec_insert_unique(map1, upper->0, shifted->0)
            } else {
                map1
            };
            if map2 is Some && keys1 is Some {
                Some((map2->0, keys1->0))
            } else {
                None
            }
        },
    }
}

/// The maps built from the first `n` aligned pairs.
pub open spec fn spec_layout_fold(source: Seq<char>, target: Seq<char>, n: nat) -> Option<
    (Seq<(char, char)>, Seq<(PhysicalKey, char)>),
>
    decreases n,
{
    if n == 0 {
        Some((Seq::empty(), Seq::empty()))
    } else {
        spec_layout_step(
            spec_layout_fold(source, target, (n - 1) as nat),
            source[n - 1],
            target[n - 1],
        )
    }
}

/// The maps built from all aligned pairs, when building succeeds.
pub open spec fn spec_layout_maps(source: Seq<char>, target: Seq<char>) -> (
    Seq<(char, char)>,
    Seq<(PhysicalKey, char)>,
) {
    spec_layout_fold(source, target, source.len())->0
}

/// What one typed character becomes: its own mapping, else the mapping of its physical key
/// (uppercased when the character is the key's shifted symbol and the target is a letter).
pub open spec fn spec_map_char(
    map: Seq<(char, char)>,
    keys: Seq<(PhysicalKey, char)>,
    c: char,
    key: PhysicalKey,
) -> Option<char> {
    match spec_lookup(map, c) {
        Some(mapped) => Some(mapped),
        None => match spec_lookup(keys, key) {
            Some(base) => if spec_shifted_symbol(key) == Some(c) && char_is_alphabetic(base) {
                match spec_single_uppercase(base) {
                    Some(upper) => Some(upper),
                    None => Some(base),
                }
            } else {
                Some(base)
            },
            None => None,
        },
    }
}

/// The transformed text: present when every character maps and at least one changes.
pub open spec fn spec_transform(
    map: Seq<(char, char)>,
    keys: Seq<(PhysicalKey, char)>,
    text: Seq<char>,
    physical: Seq<PhysicalKey>,
) -> Option<Seq<char>> {
    if text.len() == physical.len() && (forall|i: int|
        0 <= i < text.len() ==> (#[trigger] spec_map_char(map, keys, text[i], physical[i])) is Some)
        && (exists|i: int|
        0 <= i < text.len() && (#[trigger] spec_map_char(map, keys, text[i], physical[i]))->0
            != text[i]) {
        Some(Seq::new(text.len(), |i: int| spec_map_char(map, keys, text[i], physical[i])->0))
    } else {
        None
    }
}

/// The physical keys of a text typed on a Latin QWERTY layout.
pub open spec fn spec_keys_of_text(text: Seq<char>) -> Seq<PhysicalKey> {
    Seq::new(text.len(), |i: int| spec_key_of_symbol(text[i]))
}

/// A character mapping between two keyboard layouts, with the cost of assuming it.
#[derive(Debug)]
pub struct KeyboardLayoutMap {
    map: Vec<(char, char)>,
    physical_map: Vec<(PhysicalKey, char)>,
    penalty: u32,
}

proof fn lemma_lookup_push<K>(pairs: Seq<(K, char)>, x: (K, char), key: K)
    ensures
        spec_lookup(pairs.push(x), key) == (if spec_lookup(pairs, key) is Some {
            spec_lookup(pairs, key)
        } else if x.0 == key {
            Some(x.1)
        } else {
            None
        }),
    decreases pairs.len(),
{
    if pairs.len() > 0 {
        assert(pairs.push(x)[0] == pairs[0]);
        assert(pairs.push(x).drop_first() =~= pairs.drop_first().push(x));
        lemma_lookup_push(pairs.drop_first(), x, key);
    } else {
        assert(pairs.push(x).drop_first() =~= Seq::<(K, char)>::empty());
        reveal_with_fuel(spec_lookup, 2);
    }
}

fn lookup_char(pairs: &Vec<(char, char)>, key: char) -> (r: Option<char>)
    ensures
        r == spec_lookup(pairs@, key),
{
    let mut i: usize = 0;
    assert(pairs@.skip(0) =~= pairs@);
    while i < pairs.len()
        invariant
            i <= pairs@.len(),
            spec_lookup(pairs@, key) == spec_lookup(pairs@.skip(i as int), key),
        decreases pairs@.len() - i,
    {
        assert(pairs@.skip(i as int)[0] == pairs@[i as int]);
        assert(pairs@.skip(i as int).drop_first() =~= pairs@.skip(i + 1));
        if pairs[i].0 == key {
            return Some(pairs[i].1);
        }
        i = i + 1;
    }
    None
}

fn lookup_key(pairs: &Vec<(PhysicalKey, char)>, key: PhysicalKey) -> (r: Option<char>)
    ensures
        r == spec_lookup(pairs@, key),
{
    let mut i: usize = 0;
    assert(pairs@.skip(0) =~= pairs@);
    while i < pairs.len()
        invariant
            i <= pairs@.len(),
            spec_lookup(pairs@, key) == spec_lookup(pairs@.skip(i as int), key),
        decreases pairs@.len() - i,
    {
        assert(pairs@.skip(i as int)[0] == pairs@[i as int]);
        assert(pairs@.skip(i as int).drop_first() =~= pairs@.skip(i + 1));
        if pairs[i].0 == key {
            return Some(pairs[i].1);
        }
        i = i + 1;
    }
    None
}

/// Adds a character mapping; false when the character already maps elsewhere.
fn insert_unique_mapping(map: &mut Vec<(char, char)>, source: char, target: char) -> (r: bool)
    ensures
        r <==> spec_insert_unique(Some(old(map)@), source, target) is Some,
        r ==> final(map)@ == spec_insert_unique(Some(old(map)@), source, target)->0,
{
    match lookup_char(map, source) {
        Some(previous) => previous == target,
        None => {
            map.push((source, target));
            true
        },
    }
}

/// Adds a physical-key mapping; false when the key already maps elsewhere.
fn insert_unique_physical_mapping(
    map: &mut Vec<(PhysicalKey, char)>,
    source: PhysicalKey,
    target: char,
) -> (r: bool)
    ensures
        r <==> spec_insert_unique(Some(old(map)@), source, target) is Some,
        r ==> final(map)@ == spec_insert_unique(Some(old(map)@), source, target)->0,
{
    match lookup_key(map, source) {
        Some(previous) => previous == target,
        None => {
            map.push((source, target));
            true
        },
    }
}

/// The uppercase form of a character when it is a single character.
fn single_uppercase(c: char) -> (r: Option<char>)
    ensures
        r == spec_single_uppercase(c),
{
    let upper = uppercase_of(c);
    if upper.len() == 1 {
        Some(upper[0])
    } else {
        None
    }
}

impl KeyboardLayoutMap {
    #[verifier::type_invariant]
    spec fn well_formed(self) -> bool {
        self.penalty <= MAX_LAYOUT_PENALTY
    }

    /// The character mappings, looked up with `spec_lookup`.
    pub closed spec fn spec_map(&self) -> Seq<(char, char)> {
        self.map@
    }

    /// The mappings of layout-ambiguous physical keys, looked up with `spec_lookup`.
    pub closed spec fn spec_physical_map(&self) -> Seq<(PhysicalKey, char)> {
        self.physical_map@
    }

    /// The cost of assuming this transform, in hundredths of an edit.
    pub closed spec fn spec_penalty(&self) -> u32 {
        self.penalty
    }

    /// Builds the map from two strings aligned key by key. Fails when the penalty exceeds one
    /// edit, when the strings are empty or of different lengths, or when a character or key
    /// would map to two different targets.
    pub fn from_aligned(source: &str, target: &str, penalty: u32) -> (r: Result<
        Self,
        LanguagePackError,
    >)
        ensures
            r is Ok <==> (penalty <= MAX_LAYOUT_PENALTY && source@.len() > 0 && source@.len()
                == target@.len() && spec_layout_fold(source@, target@, source@.len()) is Some),
            r matches Ok(m) ==> m.spec_map() == spec_layout_maps(source@, target@).0
                && m.spec_physical_map() == spec_layout_maps(source@, target@).1 && m.spec_penalty()
                == penalty,
            r matches Err(e) ==> e == LanguagePackError::InvalidLayoutMap,
    {
        if penalty > MAX_LAYOUT_PENALTY {
            return Err(LanguagePackError::InvalidLayoutMap);
        }
        let source_chars = chars_of(source);
        let target_chars = chars_of(target);
        if source_chars.len() == 0 || source_chars.len() != target_chars.len() {
            return Err(LanguagePackError::InvalidLayoutMap);
        }
        let mut map: Vec<(char, char)> = Vec::new();
        let mut physical_map: Vec<(PhysicalKey, char)> = Vec::new();
        let mut i: usize = 0;
        while i < source_chars.len()
            invariant
                i <= source_chars@.len(),
                source_chars@ == source@,
                target_chars@ == target@,
                source_chars@.len() == target_chars@.len(),
                spec_layout_fold(source@, target@, i as nat) == Some((map@, physical_map@)),
            decreases source_chars@.len() - i,
        {
            let source_char = source_chars[i];
            let target_char = target_chars[i];
            let ghost before = (map@, physical_map@);
            if !insert_unique_mapping(&mut map, source_char, target_char) {
                proof {
                    lemma_layout_fold_stays_failed(source@, target@, (i + 1) as nat, source@.len());
                }
                return Err(LanguagePackError::InvalidLayoutMap);
            }
            let source_physical = PhysicalKey::from_layout_symbol(source_char);
            let target_physical = PhysicalKey::from_layout_symbol(target_char);
            if source_physical.is_layout_ambiguous() {
                if !insert_unique_physical_mapping(&mut physical_map, source_physical, target_char) {
                    proof {
                        lemma_layout_fold_stays_failed(source@, target@, (i + 1) as nat, source@.len());
                    }
                    return Err(LanguagePackError::InvalidLayoutMap);
                }
            }
            if is_alphabetic(source_char) {
                if let Some(source_upper) = single_uppercase(source_char) {
                    let shifted_target = if is_alphabetic(target_char) {
                        single_uppercase(target_char)
                    } else {
                        target_physical.shifted_symbol()
                    };
                    if let Some(shifted_target) = shifted_target {
                        if !insert_unique_mapping(&mut map, source_upper, shifted_target) {
                            proof {
                                lemma_layout_fold_stays_failed(source@, target@, (i + 1) as nat, source@.len());
                            }
                            return Err(LanguagePackError::InvalidLayoutMap);
                        }
                    }
                }
            }
            i = i + 1;
        }
        Ok(KeyboardLayoutMap { map, physical_map, penalty })
    }

    /// Transforms text typed on the source layout, taking each character's physical key to be
    /// the Latin QWERTY key that produces it.
    pub fn transform(&self, text: &str) -> (r: Option<String>)
        ensures
            r is Some <==> spec_transform(
                self.spec_map(),
                self.spec_physical_map(),
                text@,
                spec_keys_of_text(text@),
            ) is Some,
            r matches Some(s) ==> s@ == spec_transform(
                self.spec_map(),
                self.spec_physical_map(),
                text@,
                spec_keys_of_text(text@),
            )->0,
    {
        let chars = chars_of(text);
        let mut keys: Vec<PhysicalKey> = Vec::new();
        let mut i: usize = 0;
        while i < chars.len()
            invariant
                i <= chars@.len(),
                chars@ == text@,
                keys@ == spec_keys_of_text(text@).take(i as int),
            decreases chars@.len() - i,
        {
            keys.push(PhysicalKey::from_layout_symbol(chars[i]));
            assert(spec_keys_of_text(text@).take(i + 1) =~= spec_keys_of_text(text@).take(i as int).push(spec_key_of_symbol(chars@[i as int])));
            i = i + 1;
        }
        assert(keys@ =~= spec_keys_of_text(text@));
        self.transform_with_physical(text, keys.as_slice())
    }

    /// Transforms text whose characters came from the given physical keys. `None` when the
    /// lengths differ, when a character maps to nothing, or when nothing would change.
    pub fn transform_with_physical(&self, text: &str, physical_keys: &[PhysicalKey]) -> (r: Option<
        String,
    >)
        ensures
            r is Some <==> spec_transform(
                self.spec_map(),
                self.spec_physical_map(),
                text@,
                physical_keys@,
            ) is Some,
            r matches Some(s) ==> s@ == spec_transform(
                self.spec_map(),
                self.spec_physical_map(),
                text@,
                physical_keys@,
            )->0,
    {
        let chars = chars_of(text);
        if chars.len() != physical_keys.len() {
            return None;
        }
        let ghost map = self.map@;
        let ghost keys = self.physical_map@;
        let mut transformed = String::new();
        let mut changed = false;
        let mut i: usize = 0;
        while i < chars.len()
            invariant
                i <= chars@.len(),
                chars@ == text@,
                chars@.len() == physical_keys@.len(),
                map == self.map@,
                keys == self.physical_map@,
                forall|j: int| 0 <= j < i ==> (#[trigger] spec_map_char(map, keys, chars@[j], physical_keys@[j])) is Some,
                transformed@ == Seq::new(i as nat, |j: int| spec_map_char(map, keys, chars@[j], physical_keys@[j])->0),
                changed <==> exists|j: int| 0 <= j < i && (#[trigger] spec_map_char(map, keys, chars@[j], physical_keys@[j]))->0 != chars@[j],
            decreases chars@.len() - i,
        {
            let character = chars[i];
            let physical_key = physical_keys[i];
            let mapped = match lookup_char(&self.map, character) {
                Some(mapped) => mapped,
                None => match lookup_key(&self.physical_map, physical_key) {
                    Some(base_target) => {
                        if physical_key.is_shifted_symbol(character) && is_alphabetic(base_target) {
                            match single_uppercase(base_target) {
                                Some(upper) => upper,
                                None => base_target,
                            }
                        } else {
                            base_target
                        }
                    },
                    None => {
                        assert(spec_map_char(map, keys, text@[i as int], physical_keys@[i as int]) is None);
                        return None;
                    },
                },
            };
            assert(spec_map_char(map, keys, chars@[i as int], physical_keys@[i as int]) == Some(mapped));
            if mapped != character {
                changed = true;
            }
            let ghost before = transformed@;
            push_char(&mut transformed, mapped);
            assert(transformed@ =~= Seq::new((i + 1) as nat, |j: int| spec_map_char(map, keys, chars@[j], physical_keys@[j])->0));
            i = i + 1;
        }
        if changed {
            Some(transformed)
        } else {
            None
        }
    }

    /// The cost of assuming this transform, in hundredths of an edit (at most one edit).
    pub fn penalty(&self) -> (r: u32)
        ensures
            r == self.spec_penalty(),
            r <= MAX_LAYOUT_PENALTY,
    {
        proof {
            use_type_invariant(self);
        }
        self.penalty
    }
}

/// Once a prefix of the aligned pairs fails, every longer prefix fails.
/// The character map built from the first `n` aligned pairs (empty when building failed).
spec fn spec_fold_map(source: Seq<char>, target: Seq<char>, n: nat) -> Seq<(char, char)> {
    match spec_layout_fold(source, target, n) {
        Some(state) => state.0,
        None => Seq::empty(),
    }
}

proof fn lemma_insert_unique_keeps<K>(pairs: Seq<(K, char)>, key: K, target: char)
    requires
        spec_insert_unique(Some(pairs), key, target) is Some,
    ensures
        spec_lookup(spec_insert_unique(Some(pairs), key, target)->0, key) == Some(target),
        forall|x: K|
            spec_lookup(pairs, x) is Some ==> #[trigger] spec_lookup(
                spec_insert_unique(Some(pairs), key, target)->0,
                x,
            ) == spec_lookup(pairs, x),
{
    if spec_lookup(pairs, key) is None {
        lemma_lookup_push(pairs, (key, target), key);
        assert forall|x: K| spec_lookup(pairs, x) is Some implies #[trigger] spec_lookup(
            spec_insert_unique(Some(pairs), key, target)->0,
            x,
        ) == spec_lookup(pairs, x) by {
            lemma_lookup_push(pairs, (key, target), x);
        }
    }
}

proof fn lemma_layout_fold_maps_sources(source: Seq<char>, target: Seq<char>, n: nat)
    requires
        n <= source.len(),
        source.len() == target.len(),
        spec_layout_fold(source, target, n) is Some,
    ensures
        forall|j: int|
            0 <= j < n ==> spec_lookup(spec_fold_map(source, target, n), #[trigger] source[j])
                == Some(target[j]),
    decreases n,
{
    if n > 0 {
        let prev = spec_layout_fold(source, target, (n - 1) as nat);
        assert(prev is Some);
        lemma_layout_fold_maps_sources(source, target, (n - 1) as nat);
        let map = spec_fold_map(source, target, (n - 1) as nat);
        let c = source[n - 1];
        let t = target[n - 1];
        let map1 = spec_insert_unique(Some(map), c, t);
        assert(map1 is Some);
        lemma_insert_unique_keeps(map, c, t);
        let upper = if char_is_alphabetic(c) {
            spec_single_uppercase(c)
        } else {
            None
        };
        let shifted = if char_is_alphabetic(t) {
            spec_single_uppercase(t)
        } else {
            spec_shifted_symbol(spec_key_of_symbol(t))
        };
        if upper is Some && shifted is Some {
            lemma_insert_unique_keeps(map1->0, upper->0, shifted->0);
        }
        let next = spec_fold_map(source, target, n);
        assert forall|j: int| 0 <= j < n implies spec_lookup(next, #[trigger] source[j]) == Some(target[j]) by {
            if j < n - 1 {
                assert(spec_lookup(map, source[j]) == Some(target[j]));
                assert(spec_lookup(map1->0, source[j]) == Some(target[j]));
            } else {
                assert(spec_lookup(map1->0, source[j]) == Some(target[j]));
            }
        }
    }
}

/// A source character aligned with two different targets is refused: building the map from
/// such a pair of layouts fails.
pub proof fn lemma_conflicting_pair_is_refused(source: Seq<char>, target: Seq<char>, i: int, j: int)
    requires
        source.len() == target.len(),
        0 <= i < j < source.len(),
        source[i] == source[j],
        target[i] != target[j],
    ensures
        spec_layout_fold(source, target, source.len()) is None,
{
    if spec_layout_fold(source, target, source.len()) is Some {
        lemma_layout_fold_maps_sources(source, target, source.len());
        assert(spec_lookup(spec_fold_map(source, target, source.len()), source[i]) == Some(target[i]));
        assert(spec_lookup(spec_fold_map(source, target, source.len()), source[j]) == Some(target[j]));
    }
}

/// A layout map built from two aligned layouts reads the source layout's text as the target
/// layout's text: every source character maps to its aligned target character, so the source
/// (when it differs from the target) transforms into exactly the target.
pub proof fn lemma_layout_map_transforms_source(m: KeyboardLayoutMap, source: Seq<char>, target: Seq<char>)
    requires
        source.len() > 0,
        source.len() == target.len(),
        spec_layout_fold(source, target, source.len()) is Some,
        m.spec_map() == spec_layout_maps(source, target).0,
        m.spec_physical_map() == spec_layout_maps(source, target).1,
        source != target,
    ensures
        spec_transform(m.spec_map(), m.spec_physical_map(), source, spec_keys_of_text(source)) == Some(
            target,
        ),
{
    lemma_layout_fold_maps_sources(source, target, source.len());
    let keys = spec_keys_of_text(source);
    assert forall|i: int| 0 <= i < source.len() implies #[trigger] spec_map_char(
        m.spec_map(),
        m.spec_physical_map(),
        source[i],
        keys[i],
    ) == Some(target[i]) by {
        assert(spec_lookup(m.spec_map(), source[i]) == Some(target[i]));
    }
    if forall|i: int| 0 <= i < source.len() ==> source[i] == target[i] {
        assert(source =~= target);
    }
    let i = choose|i: int| !(0 <= i < source.len() ==> source[i] == target[i]);
    assert(spec_map_char(m.spec_map(), m.spec_physical_map(), source[i], keys[i])->0 != source[i]);
    assert(Seq::new(source.len(), |i: int| spec_map_char(m.spec_map(), m.spec_physical_map(), source[i], keys[i])->0)
        =~= target);
}

proof fn lemma_layout_fold_stays_failed(source: Seq<char>, target: Seq<char>, n: nat, m: nat)
    requires
        n <= m,
        spec_layout_fold(source, target, n) is None,
    ensures
        spec_layout_fold(source, target, m) is None,
    decreases m - n,
{
    if n < m {
        lemma_layout_fold_stays_failed(source, target, n, (m - 1) as nat);
    }
}


/// Dictionary words strictly ascending.
pub open spec fn spec_entries_ascending(s: Seq<DictionaryEntry>) -> bool {
    forall|i: int, j: int|
        0 <= i < j < s.len() ==> spec_chars_lt(
            (#[trigger] s[i]).spec_word(),
            (#[trigger] s[j]).spec_word(),
        )
}

/// Whether some entry of `s` has this word.
pub open spec fn spec_has_word(s: Seq<DictionaryEntry>, word: Seq<char>) -> bool {
    exists|i: int| 0 <= i < s.len() && (#[trigger] s[i]).spec_word() == word
}

/// The highest frequency that `s` gives `word`, 0 when absent.
pub open spec fn spec_top_frequency(s: Seq<DictionaryEntry>, word: Seq<char>) -> u32
    decreases s.len(),
{
    if s.len() == 0 {
        0
    } else {
        let rest = spec_top_frequency(s.drop_last(), word);
        if s.last().spec_word() == word && s.last().spec_frequency() > rest {
            s.last().spec_frequency()
        } else {
            rest
        }
    }
}

/// The highest frequency of any entry, 1 for no entries.
pub open spec fn spec_max_frequency(s: Seq<DictionaryEntry>) -> u32
    decreases s.len(),
{
    if s.len() == 0 {
        1
    } else if s.len() == 1 {
        s[0].spec_frequency()
    } else {
        let rest = spec_max_frequency(s.drop_last());
        if s.last().spec_frequency() > rest {
            s.last().spec_frequency()
        } else {
            rest
        }
    }
}

/// The words of the entries, in order.
pub open spec fn spec_words(s: Seq<DictionaryEntry>) -> Seq<Seq<char>> {
    Seq::new(s.len(), |i: int| s[i].spec_word())
}

/// One language: its dictionary (one entry per word, carrying the highest frequency given),
/// indexed for exact lookup and typo candidates, and its keyboard-layout transforms.
#[derive(Debug)]
pub struct LanguagePack {
    id: LanguageId,
    entries: Vec<DictionaryEntry>,
    words: Vec<Vec<char>>,
    delete_index: DeleteIndex,
    transforms: Vec<KeyboardLayoutMap>,
    max_frequency: u32,
}

proof fn lemma_top_frequency_absent(s: Seq<DictionaryEntry>, word: Seq<char>)
    requires
        !spec_has_word(s, word),
    ensures
        spec_top_frequency(s, word) == 0,
    decreases s.len(),
{
    if s.len() > 0 {
        assert forall|i: int| 0 <= i < s.drop_last().len() implies (#[trigger] s.drop_last()[i]).spec_word() != word by {
            assert(s[i] == s.drop_last()[i]);
        }
        lemma_top_frequency_absent(s.drop_last(), word);
        assert(s[s.len() - 1] == s.last());
    }
}

proof fn lemma_top_frequency_step(s: Seq<DictionaryEntry>, i: int, word: Seq<char>)
    requires
        0 <= i < s.len(),
    ensures
        spec_top_frequency(s.take(i + 1), word) == (if s[i].spec_word() == word
            && s[i].spec_frequency() > spec_top_frequency(s.take(i), word) {
            s[i].spec_frequency()
        } else {
            spec_top_frequency(s.take(i), word)
        }),
{
    assert(s.take(i + 1).drop_last() =~= s.take(i));
    assert(s.take(i + 1).last() == s[i]);
}

proof fn lemma_max_frequency_bounds(s: Seq<DictionaryEntry>)
    requires
        s.len() > 0,
    ensures
        forall|i: int| 0 <= i < s.len() ==> (#[trigger] s[i]).spec_frequency() <= spec_max_frequency(s),
        exists|i: int| 0 <= i < s.len() && (#[trigger] s[i]).spec_frequency() == spec_max_frequency(s),
    decreases s.len(),
{
    if s.len() > 1 {
        let init = s.drop_last();
        lemma_max_frequency_bounds(init);
        assert forall|i: int| 0 <= i < s.len() implies (#[trigger] s[i]).spec_frequency() <= spec_max_frequency(s) by {
            if i < s.len() - 1 {
                assert(init[i] == s[i]);
            }
        }
        let j = choose|j: int| 0 <= j < init.len() && (#[trigger] init[j]).spec_frequency() == spec_max_frequency(init);
        assert(init[j] == s[j]);
        assert(s[s.len() - 1] == s.last());
        if s.last().spec_frequency() > spec_max_frequency(init) {
            assert(s[s.len() - 1].spec_frequency() == spec_max_frequency(s));
        } else {
            assert(s[j].spec_frequency() == spec_max_frequency(s));
        }
    } else {
        assert(s[0].spec_frequency() == spec_max_frequency(s));
    }
}

proof fn lemma_top_frequency_at_most_max(s: Seq<DictionaryEntry>, word: Seq<char>)
    requires
        s.len() > 0,
    ensures
        spec_top_frequency(s, word) <= spec_max_frequency(s),
    decreases s.len(),
{
    if s.len() > 1 {
        lemma_top_frequency_at_most_max(s.drop_last(), word);
        assert(spec_max_frequency(s) >= spec_max_frequency(s.drop_last()));
        assert(spec_max_frequency(s) >= s.last().spec_frequency());
    } else {
        assert(s.drop_last().len() == 0);
        assert(spec_top_frequency(s.drop_last(), word) == 0);
        assert(s.last() == s[0]);
    }
}

proof fn lemma_top_frequency_at_least(s: Seq<DictionaryEntry>, i: int)
    requires
        0 <= i < s.len(),
    ensures
        s[i].spec_frequency() <= spec_top_frequency(s, s[i].spec_word()),
    decreases s.len(),
{
    if i < s.len() - 1 {
        assert(s.drop_last()[i] == s[i]);
        lemma_top_frequency_at_least(s.drop_last(), i);
    } else {
        assert(s.last() == s[i]);
    }
}

/// A pack's highest frequency is the highest frequency among the entries it was built from.
pub proof fn lemma_pack_max_frequency(p: LanguagePack, entries: Seq<DictionaryEntry>)
    requires
        LanguagePack::spec_built_from(p, entries),
        entries.len() > 0,
    ensures
        spec_max_frequency(p.spec_entries()) == spec_max_frequency(entries),
{
    lemma_max_frequency_bounds(entries);
    let j = choose|j: int| 0 <= j < entries.len() && (#[trigger] entries[j]).spec_frequency() == spec_max_frequency(entries);
    assert(spec_has_word(p.spec_entries(), entries[j].spec_word()));
    let k = choose|k: int| 0 <= k < p.spec_entries().len() && (#[trigger] p.spec_entries()[k]).spec_word() == entries[j].spec_word();
    lemma_top_frequency_at_least(entries, j);
    lemma_max_frequency_bounds(p.spec_entries());
    let m = choose|m: int| 0 <= m < p.spec_entries().len() && (#[trigger] p.spec_entries()[m]).spec_frequency() == spec_max_frequency(p.spec_entries());
    lemma_top_frequency_at_most_max(entries, p.spec_entries()[m].spec_word());
    assert(p.spec_entries()[k].spec_frequency() <= spec_max_frequency(p.spec_entries()));
}

impl LanguagePack {
    #[verifier::type_invariant]
    spec fn well_formed(self) -> bool {
        &&& spec_entries_ascending(self.entries@)
        &&& self.words@.len() == self.entries@.len()
        &&& forall|k: int| 0 <= k < self.entries@.len() ==> (#[trigger] self.words@[k])@
            == self.entries@[k].spec_word()
        &&& self.delete_index.indexes(spec_words(self.entries@))
        &&& self.delete_index.spec_max_deletions() == MAX_INDEX_DELETIONS
        &&& self.max_frequency == spec_max_frequency(self.entries@)
    }

    pub closed spec fn spec_id(&self) -> LanguageId {
        self.id
    }

    /// The entries, ascending by word.
    pub closed spec fn spec_entries(&self) -> Seq<DictionaryEntry> {
        self.entries@
    }

    pub closed spec fn spec_transforms(&self) -> Seq<KeyboardLayoutMap> {
        self.transforms@
    }

    /// The pack's dictionary is `entries` with one entry per word, ascending by word, each
    /// carrying the highest frequency `entries` gives that word.
    pub open spec fn spec_built_from(p: Self, entries: Seq<DictionaryEntry>) -> bool {
        &&& spec_entries_ascending(p.spec_entries())
        &&& forall|k: int|
            0 <= k < p.spec_entries().len() ==> spec_has_word(
                entries,
                (#[trigger] p.spec_entries()[k]).spec_word(),
            )
        &&& forall|j: int|
            0 <= j < entries.len() ==> spec_has_word(
                p.spec_entries(),
                (#[trigger] entries[j]).spec_word(),
            )
        &&& forall|k: int|
            0 <= k < p.spec_entries().len() ==> (#[trigger] p.spec_entries()[k]).spec_frequency()
                == spec_top_frequency(entries, p.spec_entries()[k].spec_word())
    }

    /// Builds the pack. Fails on an empty dictionary. A word given more than once keeps its
    /// highest frequency.
    pub fn try_new(
        id: LanguageId,
        entries: Vec<DictionaryEntry>,
        transforms: Vec<KeyboardLayoutMap>,
    ) -> (r: Result<Self, LanguagePackError>)
        ensures
            r is Ok <==> entries@.len() > 0,
            r matches Err(e) ==> e == LanguagePackError::EmptyDictionary,
            r matches Ok(p) ==> p.spec_id() == id && p.spec_transforms() == transforms@
                && Self::spec_built_from(p, entries@),
    {
        if entries.len() == 0 {
            return Err(LanguagePackError::EmptyDictionary);
        }
        let mut out: Vec<DictionaryEntry> = Vec::new();
        let mut out_words: Vec<Vec<char>> = Vec::new();
        let mut i: usize = 0;
        while i < entries.len()
            invariant
                i <= entries@.len(),
                out_words@.len() == out@.len(),
                forall|k: int| 0 <= k < out@.len() ==> (#[trigger] out_words@[k])@ == out@[k].spec_word(),
                spec_entries_ascending(out@),
                forall|k: int| 0 <= k < out@.len() ==> spec_has_word(entries@.take(i as int), (#[trigger] out@[k]).spec_word()),
                forall|j: int| 0 <= j < i ==> spec_has_word(out@, (#[trigger] entries@[j]).spec_word()),
                forall|k: int| 0 <= k < out@.len() ==> (#[trigger] out@[k]).spec_frequency() == spec_top_frequency(entries@.take(i as int), out@[k].spec_word()),
            decreases entries@.len() - i,
        {
            let entry = &entries[i];
            proof {
                use_type_invariant(entry);
            }
            let word = chars_of(entry.word.as_str());
            let ghost w = word@;
            let mut p: usize = 0;
            let mut searching = true;
            while searching && p < out_words.len()
                invariant
                    p <= out_words@.len(),
                    out_words@.len() == out@.len(),
                    forall|k: int| 0 <= k < out@.len() ==> (#[trigger] out_words@[k])@ == out@[k].spec_word(),
                    forall|q: int| 0 <= q < p ==> spec_chars_lt((#[trigger] out@[q]).spec_word(), w),
                    !searching ==> p < out@.len() && !spec_chars_lt(out@[p as int].spec_word(), w),
                    word@ == w,
                decreases out_words@.len() - p + (if searching { 1int } else { 0int }),
            {
                if chars_order(out_words[p].as_slice(), word.as_slice()) < 0 {
                    p = p + 1;
                } else {
                    searching = false;
                }
            }
            let ghost old_out = out@;
            let ghost prefix = entries@.take(i as int);
            let ghost next = entries@.take(i + 1);
            proof {
                assert(next.last() == entries@[i as int]);
                assert(next.drop_last() =~= prefix);
                assert forall|k: int| 0 <= k < out@.len() implies spec_has_word(next, (#[trigger] out@[k]).spec_word()) by {
                    let j = choose|j: int| 0 <= j < prefix.len() && (#[trigger] prefix[j]).spec_word() == out@[k].spec_word();
                    assert(next[j] == prefix[j]);
                }
            }
            if p < out.len() && crate::text::chars_eq(out_words[p].as_slice(), word.as_slice()) {
                if entry.frequency > out[p].frequency {
                    out.set(p, entry.duplicate());
                }
                proof {
                    assert forall|k: int| 0 <= k < out@.len() implies (#[trigger] out@[k]).spec_frequency() == spec_top_frequency(next, out@[k].spec_word()) by {
                        lemma_top_frequency_step(entries@, i as int, out@[k].spec_word());
                        if k != p {
                            if k < p {
                                assert(spec_chars_lt(old_out[k].spec_word(), old_out[p as int].spec_word()));
                            } else {
                                assert(spec_chars_lt(old_out[p as int].spec_word(), old_out[k].spec_word()));
                            }
                            lemma_chars_lt_irreflexive(w);
                        }
                    }
                    assert forall|j: int| 0 <= j < i + 1 implies spec_has_word(out@, (#[trigger] entries@[j]).spec_word()) by {
                        if j == i {
                            assert(out@[p as int].spec_word() == w);
                        } else {
                            let k = choose|k: int| 0 <= k < old_out.len() && (#[trigger] old_out[k]).spec_word() == entries@[j].spec_word();
                            assert(out@[k].spec_word() == old_out[k].spec_word());
                        }
                    }
                    assert forall|k: int| 0 <= k < out@.len() implies spec_has_word(next, (#[trigger] out@[k]).spec_word()) by {
                        assert(out@[k].spec_word() == old_out[k].spec_word());
                    }
                }
            } else {
                proof {
                    assert forall|q: int| p <= q < old_out.len() implies spec_chars_lt(w, (#[trigger] old_out[q]).spec_word()) by {
                        lemma_chars_lt_trichotomy(old_out[p as int].spec_word(), w);
                        if q > p {
                            lemma_chars_lt_transitive(w, old_out[p as int].spec_word(), old_out[q].spec_word());
                        }
                    }
                    assert(!spec_has_word(prefix, w)) by {
                        if spec_has_word(prefix, w) {
                            let j = choose|j: int| 0 <= j < prefix.len() && (#[trigger] prefix[j]).spec_word() == w;
                            assert(entries@[j] == prefix[j]);
                            let k = choose|k: int| 0 <= k < old_out.len() && (#[trigger] old_out[k]).spec_word() == entries@[j].spec_word();
                            lemma_chars_lt_irreflexive(w);
                        }
                    }
                    lemma_top_frequency_absent(prefix, w);
                }
                let ghost old_words = out_words@;
                out.insert(p, entry.duplicate());
                out_words.insert(p, word);
                proof {
                    assert forall|k: int| 0 <= k < out@.len() implies (#[trigger] out_words@[k])@ == out@[k].spec_word() by {
                        if k > p {
                            assert(out_words@[k] == old_words[k - 1]);
                            assert(out@[k] == old_out[k - 1]);
                        } else if k < p {
                            assert(out_words@[k] == old_words[k]);
                            assert(out@[k] == old_out[k]);
                        }
                    }
                    assert forall|j: int| 0 <= j < i + 1 implies spec_has_word(out@, (#[trigger] entries@[j]).spec_word()) by {
                        if j == i {
                            assert(out@[p as int].spec_word() == w);
                        } else {
                            let k = choose|k: int| 0 <= k < old_out.len() && (#[trigger] old_out[k]).spec_word() == entries@[j].spec_word();
                            if k < p {
                                assert(out@[k] == old_out[k]);
                            } else {
                                assert(out@[k + 1] == old_out[k]);
                            }
                        }
                    }
                }
            }
            i = i + 1;
        }
        proof {
            assert(entries@.take(entries@.len() as int) =~= entries@);
        }
        let max_frequency = max_entry_frequency(&out);
        let delete_index = DeleteIndex::build(&out_words, MAX_INDEX_DELETIONS);
        proof {
            assert(out_words@.map_values(|t: Vec<char>| t@) =~= spec_words(out@));
        }
        Ok(LanguagePack { id, entries: out, words: out_words, delete_index, transforms, max_frequency })
    }

    pub fn id(&self) -> (r: &LanguageId)
        ensures
            *r == self.spec_id(),
    {
        &self.id
    }

    pub fn transforms(&self) -> (r: &[KeyboardLayoutMap])
        ensures
            r@ == self.spec_transforms(),
    {
        self.transforms.as_slice()
    }

    /// The entries, ascending by word.
    pub fn entries(&self) -> (r: &[DictionaryEntry])
        ensures
            r@ == self.spec_entries(),
    {
        self.entries.as_slice()
    }

    /// The highest frequency in the dictionary.
    pub fn max_frequency(&self) -> (r: u32)
        ensures
            r == spec_max_frequency(self.spec_entries()),
    {
        proof {
            use_type_invariant(self);
        }
        self.max_frequency
    }

    /// The position of the entry with this word.
    fn position(&self, word: &[char]) -> (r: Option<usize>)
        ensures
            r matches Some(i) ==> i < self.spec_entries().len() && self.spec_entries()[i as int].spec_word() == word@,
            r is None ==> !spec_has_word(self.spec_entries(), word@),
    {
        proof {
            use_type_invariant(self);
        }
        let mut lo: usize = 0;
        let mut hi: usize = self.words.len();
        while lo < hi
            invariant
                lo <= hi <= self.entries@.len(),
                self.words@.len() == self.entries@.len(),
                forall|k: int| 0 <= k < self.entries@.len() ==> (#[trigger] self.words@[k])@ == self.entries@[k].spec_word(),
                spec_entries_ascending(self.entries@),
                forall|k: int| 0 <= k < lo ==> spec_chars_lt((#[trigger] self.entries@[k]).spec_word(), word@),
                forall|k: int| hi <= k < self.entries@.len() ==> spec_chars_lt(word@, (#[trigger] self.entries@[k]).spec_word()),
            decreases hi - lo,
        {
            let mid = lo + (hi - lo) / 2;
            let o = chars_order(self.words[mid].as_slice(), word);
            if o == 0 {
                return Some(mid);
            } else if o < 0 {
                proof {
                    assert forall|k: int| 0 <= k < mid + 1 implies spec_chars_lt((#[trigger] self.entries@[k]).spec_word(), word@) by {
                        if k < mid {
                            lemma_chars_lt_transitive(self.entries@[k].spec_word(), self.entries@[mid as int].spec_word(), word@);
                        }
                    }
                }
                lo = mid + 1;
            } else {
                proof {
                    assert forall|k: int| mid <= k < self.entries@.len() implies spec_chars_lt(word@, (#[trigger] self.entries@[k]).spec_word()) by {
                        if k > mid {
                            lemma_chars_lt_transitive(word@, self.entries@[mid as int].spec_word(), self.entries@[k].spec_word());
                        }
                    }
                }
                hi = mid;
            }
        }
        proof {
            if spec_has_word(self.entries@, word@) {
                let k = choose|k: int| 0 <= k < self.entries@.len() && (#[trigger] self.entries@[k]).spec_word() == word@;
                lemma_chars_lt_irreflexive(word@);
            }
        }
        None
    }

    /// Whether the dictionary holds this (normalized) word.
    pub fn contains_normalized(&self, word: &str) -> (r: bool)
        ensures
            r == spec_has_word(self.spec_entries(), word@),
    {
        let chars = chars_of(word);
        self.position(chars.as_slice()).is_some()
    }

    /// Typo candidates: the entries that share a deletion form with `observed` (at most
    /// `max_deletions` deletions from `observed`, capped at two; at most two from the entry),
    /// ascending by word.
    pub fn candidate_entries(&self, observed: &str, max_deletions: usize) -> (r: Vec<&DictionaryEntry>)
        ensures
            forall|m: int| 0 <= m < r@.len() ==> self.spec_entries().contains(*#[trigger] r@[m]),
            forall|i: int| 0 <= i < self.spec_entries().len() ==> (spec_shares_form(observed@, (#[trigger] self.spec_entries()[i]).spec_word(), spec_min(max_deletions as nat, MAX_INDEX_DELETIONS as nat), MAX_INDEX_DELETIONS as nat) <==> r@.contains(&self.spec_entries()[i])),
            forall|a: int, b: int| 0 <= a < b < r@.len() ==> spec_chars_lt((#[trigger] r@[a]).spec_word(), (#[trigger] r@[b]).spec_word()),
    {
        proof {
            use_type_invariant(self);
        }
        let entry_count = self.entries.len();
        let chars = chars_of(observed);
        let indices = self.delete_index.candidate_indices(chars.as_slice(), max_deletions, Ghost(spec_words(self.entries@)));
        let mut out: Vec<&DictionaryEntry> = Vec::new();
        let mut m: usize = 0;
        while m < indices.len()
            invariant
                m <= indices@.len(),
                out@.len() == m,
                forall|k: int| 0 <= k < indices@.len() ==> #[trigger] indices@[k] < self.entries@.len(),
                forall|k: int| 0 <= k < m ==> *out@[k] == self.entries@[indices@[k] as int],
            decreases indices@.len() - m,
        {
            out.push(&self.entries[indices[m]]);
            m = m + 1;
        }
        proof {
            assert forall|k: int| 0 <= k < out@.len() implies self.entries@.contains(*#[trigger] out@[k]) by {
                assert(self.entries@[indices@[k] as int] == *out@[k]);
            }
            assert forall|i: int| 0 <= i < self.entries@.len() implies (spec_shares_form(observed@, (#[trigger] self.entries@[i]).spec_word(), spec_min(max_deletions as nat, MAX_INDEX_DELETIONS as nat), MAX_INDEX_DELETIONS as nat) <==> out@.contains(&self.entries@[i])) by {
                assert(spec_words(self.entries@)[i] == self.entries@[i].spec_word());
                if out@.contains(&self.entries@[i]) {
                    let k = choose|k: int| 0 <= k < out@.len() && out@[k] == &self.entries@[i];
                    let j = indices@[k] as int;
                    assert(self.entries@[j] == self.entries@[i]);
                    if j != i {
                        lemma_chars_lt_irreflexive(self.entries@[i].spec_word());
                    }
                    assert(indices@.contains(i as usize));
                }
                if spec_shares_form(observed@, self.entries@[i].spec_word(), spec_min(max_deletions as nat, MAX_INDEX_DELETIONS as nat), MAX_INDEX_DELETIONS as nat) {
                    assert(i < entry_count);
                    let iu = i as usize;
                    assert(indices@.contains(iu));
                    let k = choose|k: int| 0 <= k < indices@.len() && indices@[k] == iu;
                    assert(*out@[k] == self.entries@[i]);
                    assert(out@[k] == &self.entries@[i]);
                }
            }
            assert forall|a: int, b: int| 0 <= a < b < out@.len() implies spec_chars_lt((#[trigger] out@[a]).spec_word(), (#[trigger] out@[b]).spec_word()) by {
                assert(indices@[a] < indices@[b]);
            }
        }
        out
    }
}

/// The highest frequency of any entry, 1 for no entries.
fn max_entry_frequency(entries: &Vec<DictionaryEntry>) -> (r: u32)
    ensures
        r == spec_max_frequency(entries@),
{
    let mut max_frequency: u32 = 1;
    let mut k: usize = 0;
    while k < entries.len()
        invariant
            k <= entries@.len(),
            max_frequency == spec_max_frequency(entries@.take(k as int)),
        decreases entries@.len() - k,
    {
        let frequency = entries[k].frequency;
        proof {
            assert(entries@.take(k + 1).drop_last() =~= entries@.take(k as int));
        }
        if k == 0 || frequency > max_frequency {
            max_frequency = frequency;
        }
        k = k + 1;
    }
    proof {
        assert(entries@.take(entries@.len() as int) =~= entries@);
    }
    max_frequency
}

} // verus!
