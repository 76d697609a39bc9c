//! Lexical correction: reads a completed token literally and through each keyboard-layout
//! transform, finds dictionary and user words within a small weighted edit distance, and ranks
//! them. Costs are in hundredths of an edit; confidences in millionths.

use std::sync::Arc;

use vstd::prelude::*;

use super::correction_engine::{
    spec_valid_replacement, Confidence, CorrectionCandidate, CorrectionCandidateProvider,
    ReplacementText, CONFIDENCE_SCALE,
};
use crate::order::{
    chars_order, lemma_chars_le_total, lemma_chars_le_transitive, sort_ranked, spec_chars_le,
    spec_chars_lt, Ranked,
};
use crate::language::language_pack::{spec_has_word, spec_max_frequency};
use crate::lexicon::delete_index::{spec_min as spec_min_deletions, spec_shares_form, MAX_INDEX_DELETIONS};
use crate::lexicon::user_lexicon::{spec_max_use_count, UserLexicon};
use crate::input::{CompletedToken, PhysicalKey};
use crate::language::language_pack::{spec_transform, KeyboardLayoutMap, LanguagePack};
use crate::language::normalize::{normalize_chars, spec_normalize};
use crate::text::{
    char_is_alphabetic, char_is_alphanumeric, char_is_lowercase, char_is_uppercase,
    char_uppercase, chars_of, is_alphabetic, is_alphanumeric, is_lowercase, is_uppercase,
    string_from_chars, uppercase_of,
};

verus! {

/// Deleting, inserting or substituting a character.
pub const GENERIC_EDIT_COST: u128 = 100;

/// Deleting a character that repeats a neighbour: a double key press.
pub const REPEATED_DELETE_COST: u128 = 45;

/// Swapping two adjacent characters.
pub const TRANSPOSE_COST: u128 = 75;

/// The highest confidence a lexical candidate gets, in millionths.
pub const MAX_LEXICAL_CONFIDENCE: u32 = 999_000;

/// The cost of deleting `s[i]`: cheaper when it repeats a neighbour.
pub open spec fn spec_delete_cost(s: Seq<char>, i: int) -> nat {
    if (i > 0 && s[i] == s[i - 1]) || (i + 1 < s.len() && s[i] == s[i + 1]) {
        REPEATED_DELETE_COST as nat
    } else {
        GENERIC_EDIT_COST as nat
    }
}

pub open spec fn spec_min(a: nat, b: nat) -> nat {
    if a <= b {
        a
    } else {
        b
    }
}

/// The weighted Damerau-Levenshtein cost of turning `s.take(i)` into `t.take(j)`: deletions
/// (cheaper for repeated characters), insertions and substitutions, and adjacent transpositions.
pub open spec fn spec_edit_cost(s: Seq<char>, t: Seq<char>, i: nat, j: nat) -> nat
    decreases i + j,
{
    if i == 0 && j == 0 {
        0
    } else if i == 0 {
        spec_edit_cost(s, t, 0, (j - 1) as nat) + GENERIC_EDIT_COST as nat
    } else if j == 0 {
        spec_edit_cost(s, t, (i - 1) as nat, 0) + spec_delete_cost(s, i - 1)
    } else {
        let substitution = if s[i - 1] == t[j - 1] {
            0
        } else {
            GENERIC_EDIT_COST as nat
        };
        let best = spec_min(
            spec_min(
                spec_edit_cost(s, t, (i - 1) as nat, j) + spec_delete_cost(s, i - 1),
                spec_edit_cost(s, t, i, (j - 1) as nat) + GENERIC_EDIT_COST as nat,
            ),
            spec_edit_cost(s, t, (i - 1) as nat, (j - 1) as nat) + substitution,
        );
        if i > 1 && j > 1 && s[i - 1] == t[j - 2] && s[i - 2] == t[j - 1] {
            spec_min(best, spec_edit_cost(s, t, (i - 2) as nat, (j - 2) as nat) + TRANSPOSE_COST as nat)
        } else {
            best
        }
    }
}

/// The weighted edit cost between two whole character sequences.
pub open spec fn spec_weighted_cost(s: Seq<char>, t: Seq<char>) -> nat {
    spec_edit_cost(s, t, s.len(), t.len())
}

fn delete_cost(s: &[char], i: usize) -> (r: u128)
    requires
        i < s@.len(),
    ensures
        r == spec_delete_cost(s@, i as int),
{
    let repeats_left = i > 0 && s[i] == s[i - 1];
    let repeats_right = i + 1 < s.len() && s[i] == s[i + 1];
    if repeats_left || repeats_right {
        REPEATED_DELETE_COST
    } else {
        GENERIC_EDIT_COST
    }
}

/// The weighted edit cost between two character slices, by dynamic programming over prefixes.
pub fn chars_edit_cost(s: &[char], t: &[char]) -> (r: u128)
    ensures
        r == spec_weighted_cost(s@, t@),
{
    let n = s.len();
    let m = t.len();
    let mut first: Vec<u128> = Vec::new();
    first.push(0);
    let mut j: usize = 0;
    while j < m
        invariant
            m == t@.len(),
            j <= m,
            first@.len() == j + 1,
            forall|b: int|
                0 <= b <= j ==> (#[trigger] first@[b]) == spec_edit_cost(s@, t@, 0, b as nat)
                    && first@[b] <= GENERIC_EDIT_COST * b,
        decreases m - j,
    {
        let value = first[j] + GENERIC_EDIT_COST;
        first.push(value);
        j = j + 1;
    }
    let mut table: Vec<Vec<u128>> = Vec::new();
    table.push(first);
    let mut i: usize = 0;
    while i < n
        invariant
            n == s@.len(),
            m == t@.len(),
            i <= n,
            table@.len() == i + 1,
            forall|a: int| 0 <= a <= i ==> (#[trigger] table@[a])@.len() == m + 1,
            forall|a: int, b: int|
                0 <= a <= i && 0 <= b <= m ==> (#[trigger] table@[a]@[b]) == spec_edit_cost(
                    s@,
                    t@,
                    a as nat,
                    b as nat,
                ) && table@[a]@[b] <= GENERIC_EDIT_COST * (a + b),
        decreases n - i,
    {
        let above = table[i][0];
        let mut row: Vec<u128> = Vec::new();
        row.push(above + delete_cost(s, i));
        let mut j: usize = 0;
        while j < m
            invariant
                n == s@.len(),
                m == t@.len(),
                i < n,
                j <= m,
                table@.len() == i + 1,
                forall|a: int| 0 <= a <= i ==> (#[trigger] table@[a])@.len() == m + 1,
                forall|a: int, b: int|
                    0 <= a <= i && 0 <= b <= m ==> (#[trigger] table@[a]@[b]) == spec_edit_cost(
                        s@,
                        t@,
                        a as nat,
                        b as nat,
                    ) && table@[a]@[b] <= GENERIC_EDIT_COST * (a + b),
                row@.len() == j + 1,
                forall|b: int|
                    0 <= b <= j ==> (#[trigger] row@[b]) == spec_edit_cost(s@, t@, (i + 1) as nat, b as nat)
                        && row@[b] <= GENERIC_EDIT_COST * (i + 1 + b),
            decreases m - j,
        {
            let substitution = if s[i] == t[j] {
                0
            } else {
                GENERIC_EDIT_COST
            };
            let deletion = table[i][j + 1] + delete_cost(s, i);
            let insertion = row[j] + GENERIC_EDIT_COST;
            let replaced = table[i][j] + substitution;
            let mut best = if deletion <= insertion {
                deletion
            } else {
                insertion
            };
            if replaced < best {
                best = replaced;
            }
            if i > 0 && j > 0 && s[i] == t[j - 1] && s[i - 1] == t[j] {
                let transposed = table[i - 1][j - 1] + TRANSPOSE_COST;
                if transposed < best {
                    best = transposed;
                }
            }
            row.push(best);
            j = j + 1;
        }
        table.push(row);
        i = i + 1;
    }
    table[n][m]
}

proof fn lemma_diagonal_cost_zero(s: Seq<char>, i: nat)
    requires
        i <= s.len(),
    ensures
        spec_edit_cost(s, s, i, i) == 0,
    decreases i,
{
    if i > 0 {
        lemma_diagonal_cost_zero(s, (i - 1) as nat);
    }
}

/// A word is its own cheapest spelling: turning it into itself costs nothing.
pub proof fn lemma_identical_words_cost_nothing(s: Seq<char>)
    ensures
        spec_weighted_cost(s, s) == 0,
{
    lemma_diagonal_cost_zero(s, s.len());
}

proof fn lemma_equal_prefix_cost_zero(s: Seq<char>, t: Seq<char>, i: nat)
    requires
        i <= s.len(),
        i <= t.len(),
        forall|a: int| 0 <= a < i ==> s[a] == t[a],
    ensures
        spec_edit_cost(s, t, i, i) == 0,
    decreases i,
{
    if i > 0 {
        lemma_equal_prefix_cost_zero(s, t, (i - 1) as nat);
    }
}

proof fn lemma_equal_suffix_keeps_cost(s: Seq<char>, t: Seq<char>, from: nat, i: nat, bound: nat)
    requires
        from <= i <= s.len(),
        s.len() == t.len(),
        spec_edit_cost(s, t, from, from) <= bound,
        forall|a: int| from <= a < s.len() ==> s[a] == t[a],
    ensures
        spec_edit_cost(s, t, i, i) <= bound,
    decreases i - from,
{
    if i > from {
        lemma_equal_suffix_keeps_cost(s, t, from, (i - 1) as nat, bound);
        assert(s[i - 1] == t[i - 1]);
    }
}

/// Swapping two adjacent characters, anywhere in a word (the first two included), costs at
/// most one transposition.
pub proof fn lemma_adjacent_swap_costs_a_transposition(s: Seq<char>, k: int)
    requires
        0 <= k,
        k + 1 < s.len(),
    ensures
        spec_weighted_cost(s, s.update(k, s[k + 1]).update(k + 1, s[k])) <= TRANSPOSE_COST,
{
    let t = s.update(k, s[k + 1]).update(k + 1, s[k]);
    assert(t.len() == s.len());
    lemma_equal_prefix_cost_zero(s, t, k as nat);
    let i = (k + 2) as nat;
    assert(s[i - 1] == t[i - 2] && s[i - 2] == t[i - 1]);
    assert(spec_edit_cost(s, t, i, i) <= spec_edit_cost(s, t, k as nat, k as nat) + TRANSPOSE_COST);
    lemma_equal_suffix_keeps_cost(s, t, i, s.len(), TRANSPOSE_COST as nat);
}

/// A token whose normalized text, or normalized core between literal punctuation, is the
/// normalized identity of a word the user has learned gets no correction candidates at all:
/// exact learned words are protected from speculative correction.
pub proof fn lemma_learned_word_gets_no_candidates(
    languages: Seq<LanguagePack>,
    user: UserLexicon,
    text: Seq<char>,
    keys: Seq<PhysicalKey>,
    r: Seq<CorrectionCandidate>,
    i: int,
)
    requires
        spec_provider_output(languages, user, text, keys, r),
        0 <= i < user.spec_entries().len(),
        user.spec_entries()[i].spec_normalized() == spec_normalize(text) || (spec_token_view(text, keys) is Some
            && user.spec_entries()[i].spec_normalized() == spec_normalize(spec_token_view(text, keys)->0.core)),
    ensures
        r.len() == 0,
{
}

/// A token whose normalized text, or normalized core between literal punctuation, is a word
/// of any enabled language's dictionary gets no correction candidates: a valid word in any
/// language is never corrected.
pub proof fn lemma_dictionary_word_gets_no_candidates(
    languages: Seq<LanguagePack>,
    user: UserLexicon,
    text: Seq<char>,
    keys: Seq<PhysicalKey>,
    r: Seq<CorrectionCandidate>,
    l: int,
    e: int,
)
    requires
        spec_provider_output(languages, user, text, keys, r),
        0 <= l < languages.len(),
        0 <= e < languages[l].spec_entries().len(),
        languages[l].spec_entries()[e].spec_word() == spec_normalize(text) || (spec_token_view(text, keys) is Some
            && languages[l].spec_entries()[e].spec_word() == spec_normalize(spec_token_view(text, keys)->0.core)),
    ensures
        r.len() == 0,
{
    assert(spec_has_word(languages[l].spec_entries(), languages[l].spec_entries()[e].spec_word()));
}

proof fn lemma_shifted_diagonal_keeps_cost(s: Seq<char>, t: Seq<char>, from: nat, i: nat, bound: nat)
    requires
        1 <= from <= i <= s.len(),
        t.len() + 1 == s.len(),
        spec_edit_cost(s, t, from, (from - 1) as nat) <= bound,
        forall|a: int| from <= a < s.len() ==> s[a] == t[a - 1],
    ensures
        spec_edit_cost(s, t, i, (i - 1) as nat) <= bound,
    decreases i - from,
{
    if i > from {
        lemma_shifted_diagonal_keeps_cost(s, t, from, (i - 1) as nat, bound);
        assert(s[i - 1] == t[i - 2]);
    }
}

/// Deleting one of two equal neighbouring characters (a double key press) costs at most a
/// repeated-key deletion.
pub proof fn lemma_double_press_costs_a_repeated_delete(s: Seq<char>, k: int)
    requires
        0 <= k,
        k + 1 < s.len(),
        s[k] == s[k + 1],
    ensures
        spec_weighted_cost(s, s.remove(k)) <= REPEATED_DELETE_COST,
{
    let t = s.remove(k);
    lemma_equal_prefix_cost_zero(s, t, k as nat);
    assert(spec_delete_cost(s, k) == REPEATED_DELETE_COST);
    assert(spec_edit_cost(s, t, (k + 1) as nat, k as nat) <= REPEATED_DELETE_COST);
    lemma_shifted_diagonal_keeps_cost(s, t, (k + 1) as nat, s.len(), REPEATED_DELETE_COST as nat);
}

/// Replacing one character costs at most one generic edit.
pub proof fn lemma_one_substitution_costs_an_edit(s: Seq<char>, k: int, c: char)
    requires
        0 <= k < s.len(),
    ensures
        spec_weighted_cost(s, s.update(k, c)) <= GENERIC_EDIT_COST,
{
    let t = s.update(k, c);
    lemma_equal_prefix_cost_zero(s, t, k as nat);
    assert(spec_edit_cost(s, t, (k + 1) as nat, (k + 1) as nat) <= GENERIC_EDIT_COST);
    lemma_equal_suffix_keeps_cost(s, t, (k + 1) as nat, s.len(), GENERIC_EDIT_COST as nat);
}

/// The weighted edit cost between two strings, in hundredths of an edit.
pub fn weighted_damerau_cost(observed: &str, target: &str) -> (r: u128)
    ensures
        r == spec_weighted_cost(observed@, target@),
{
    let s = crate::text::chars_of(observed);
    let t = crate::text::chars_of(target);
    chars_edit_cost(s.as_slice(), t.as_slice())
}

/// The largest edit cost accepted for an observed word of `n` characters.
pub open spec fn spec_max_edit_cost(n: nat) -> nat {
    if n <= 2 {
        0
    } else if n == 3 {
        80
    } else if n == 4 {
        100
    } else {
        200
    }
}

fn max_edit_cost(n: usize) -> (r: u128)
    ensures
        r == spec_max_edit_cost(n as nat),
{
    if n <= 2 {
        0
    } else if n == 3 {
        80
    } else if n == 4 {
        100
    } else {
        200
    }
}

/// The integer square root.
pub open spec fn spec_is_isqrt(x: nat, r: nat) -> bool {
    r * r <= x < (r + 1) * (r + 1)
}

/// The integer square root (the unique `r` with `r * r <= x < (r + 1) * (r + 1)`).
pub open spec fn spec_isqrt(x: nat) -> nat {
    choose|r: nat| #[trigger] spec_is_isqrt(x, r)
}

fn isqrt(x: u128) -> (r: u128)
    requires
        x < 0x1_0000_0000_0000_0000_0000,
    ensures
        spec_is_isqrt(x as nat, r as nat),
        r < 0x100_0000_0000,
{
    let mut lo: u128 = 0;
    let mut hi: u128 = 0x100_0000_0000;
    assert(hi * hi > x) by (nonlinear_arith)
        requires
            hi == 0x100_0000_0000u128,
            x < 0x1_0000_0000_0000_0000_0000,
    ;
    while lo + 1 < hi
        invariant
            lo < hi <= 0x100_0000_0000,
            lo * lo <= x,
            x < hi * hi,
        decreases hi - lo,
    {
        let mid = lo + (hi - lo) / 2;
        assert(mid * mid <= 0x100_0000_0000u128 * 0x100_0000_0000u128) by (nonlinear_arith)
            requires
                mid < 0x100_0000_0000u128,
        ;
        if mid * mid <= x {
            lo = mid;
        } else {
            hi = mid;
        }
    }
    assert(hi == lo + 1);
    lo
}

/// The confidence of a candidate, in millionths: 96% from how little it was edited relative to
/// its length (at least three characters, plus one and a half), 4% from the square root of its
/// frequency relative to the most frequent word, capped below certainty.
pub open spec fn spec_confidence(cost: nat, target_chars: nat, weight: nat, max_weight: nat) -> nat {
    let length = if target_chars < 3 {
        3
    } else {
        target_chars
    };
    let denominator = 50 * (2 * length + 3);
    let lost = (CONFIDENCE_SCALE as nat * cost) / denominator;
    let quality = if lost >= CONFIDENCE_SCALE {
        0
    } else {
        (CONFIDENCE_SCALE - lost) as nat
    };
    let scale = if max_weight == 0 {
        1
    } else {
        max_weight
    };
    let ratio = spec_isqrt(weight * 1_000_000_000_000 / scale);
    let score = (96 * quality + 4 * ratio) / 100;
    if score > MAX_LEXICAL_CONFIDENCE {
        MAX_LEXICAL_CONFIDENCE as nat
    } else {
        score
    }
}

proof fn lemma_isqrt_unique(x: nat, r: nat, q: nat)
    requires
        spec_is_isqrt(x, r),
        spec_is_isqrt(x, q),
    ensures
        r == q,
{
    if r < q {
        assert((r + 1) * (r + 1) <= q * q) by (nonlinear_arith)
            requires
                r + 1 <= q,
        ;
    } else if q < r {
        assert((q + 1) * (q + 1) <= r * r) by (nonlinear_arith)
            requires
                q + 1 <= r,
        ;
    }
}

fn candidate_confidence(
    cost: u128,
    target_chars: usize,
    weight: u32,
    max_weight: u32,
) -> (r: Confidence)
    requires
        cost <= 300,
    ensures
        r@ == spec_confidence(cost as nat, target_chars as nat, weight as nat, max_weight as nat),
{
    let length: u128 = if target_chars < 3 {
        3
    } else {
        target_chars as u128
    };
    let denominator: u128 = 50 * (2 * length + 3);
    assert(CONFIDENCE_SCALE as u128 * cost <= 300_000_000) by (nonlinear_arith)
        requires
            cost <= 300,
            CONFIDENCE_SCALE == 1_000_000,
    ;
    let lost: u128 = (CONFIDENCE_SCALE as u128 * cost) / denominator;
    let quality: u128 = if lost >= CONFIDENCE_SCALE as u128 {
        0
    } else {
        CONFIDENCE_SCALE as u128 - lost
    };
    let scale: u128 = if max_weight == 0 {
        1
    } else {
        max_weight as u128
    };
    let scaled: u128 = (weight as u128) * 1_000_000_000_000 / scale;
    assert(scaled <= 0xFFFF_FFFFu128 * 1_000_000_000_000) by (nonlinear_arith)
        requires
            scaled as int == (weight as int) * 1_000_000_000_000 / (scale as int),
            scale >= 1,
            weight <= 0xFFFF_FFFFu32,
    ;
    let ratio = isqrt(scaled);
    proof {
        lemma_isqrt_unique(
            scaled as nat,
            ratio as nat,
            spec_isqrt(scaled as nat),
        );
    }
    assert(ratio <= 0x100_0000_0000);
    let score: u128 = (96 * quality + 4 * ratio) / 100;
    let capped: u32 = if score > MAX_LEXICAL_CONFIDENCE as u128 {
        MAX_LEXICAL_CONFIDENCE
    } else {
        score as u32
    };
    match Confidence::try_new(capped) {
        Ok(confidence) => confidence,
        Err(_) => Confidence::certain(),
    }
}


/// The number of leading positions that are flagged.
pub open spec fn spec_leading(e: Seq<bool>) -> nat
    decreases e.len(),
{
    if e.len() > 0 && e[0] {
        1 + spec_leading(e.drop_first())
    } else {
        0
    }
}

/// The number of trailing positions that are flagged.
pub open spec fn spec_trailing(e: Seq<bool>) -> nat
    decreases e.len(),
{
    if e.len() > 0 && e.last() {
        1 + spec_trailing(e.drop_last())
    } else {
        0
    }
}

/// A word read literally: the edge characters before it, the word, the edge characters after.
pub struct WordView {
    pub prefix: Seq<char>,
    pub core: Seq<char>,
    pub suffix: Seq<char>,
}

/// Splits text at its flagged edge characters; absent when every character is an edge.
pub open spec fn spec_split(text: Seq<char>, edges: Seq<bool>) -> Option<WordView> {
    let start = spec_leading(edges);
    if start >= edges.len() {
        None
    } else {
        let end = edges.len() - spec_trailing(edges);
        Some(
            WordView {
                prefix: text.take(start as int),
                core: text.subrange(start as int, end),
                suffix: text.skip(end),
            },
        )
    }
}

/// Punctuation typed on a layout-ambiguous key: it may be literal punctuation, not a letter.
pub open spec fn spec_token_edges(text: Seq<char>, keys: Seq<PhysicalKey>) -> Seq<bool> {
    Seq::new(
        text.len(),
        |i: int| keys[i] != PhysicalKey::Other && !char_is_alphanumeric(text[i]),
    )
}

/// Characters that are neither letters nor digits.
pub open spec fn spec_symbol_edges(text: Seq<char>) -> Seq<bool> {
    Seq::new(text.len(), |i: int| !char_is_alphanumeric(text[i]))
}

/// A typed token read literally: layout-ambiguous punctuation at its edges stays punctuation.
pub open spec fn spec_token_view(text: Seq<char>, keys: Seq<PhysicalKey>) -> Option<WordView> {
    if text.len() != keys.len() {
        None
    } else {
        spec_split(text, spec_token_edges(text, keys))
    }
}

/// A word's letters, with their case.
#[derive(Debug, Clone, Copy, PartialEq, Eq, Structural)]
pub enum CasePattern {
    Lower,
    Upper,
    Title,
    Mixed,
}

pub open spec fn spec_letters_lower(s: Seq<char>) -> bool {
    forall|i: int| 0 <= i < s.len() && char_is_alphabetic(#[trigger] s[i]) ==> char_is_lowercase(s[i])
}

pub open spec fn spec_letters_upper(s: Seq<char>) -> bool {
    forall|i: int| 0 <= i < s.len() && char_is_alphabetic(#[trigger] s[i]) ==> char_is_uppercase(s[i])
}

/// The first letter is uppercase and every later letter lowercase.
pub open spec fn spec_title_letters(s: Seq<char>) -> bool {
    exists|i: int|
        0 <= i < s.len() && char_is_alphabetic(#[trigger] s[i]) && char_is_uppercase(s[i]) && (
        forall|j: int| 0 <= j < i ==> !char_is_alphabetic(#[trigger] s[j])) && (forall|j: int|
            i < j < s.len() && char_is_alphabetic(#[trigger] s[j]) ==> char_is_lowercase(s[j]))
}

/// The case pattern of a word's letters.
pub open spec fn spec_case_pattern(s: Seq<char>) -> CasePattern {
    if spec_letters_lower(s) {
        CasePattern::Lower
    } else if spec_letters_upper(s) {
        CasePattern::Upper
    } else if spec_title_letters(s) {
        CasePattern::Title
    } else {
        CasePattern::Mixed
    }
}

/// Each character replaced by its uppercase mapping.
pub open spec fn spec_uppercase_all(s: Seq<char>) -> Seq<char>
    decreases s.len(),
{
    if s.len() == 0 {
        Seq::empty()
    } else {
        spec_uppercase_all(s.drop_last()) + char_uppercase(s.last())
    }
}

/// A canonical word written in a case pattern; a mixed pattern keeps the canonical spelling.
pub open spec fn spec_apply_case(pattern: CasePattern, canonical: Seq<char>) -> Seq<char> {
    match pattern {
        CasePattern::Lower | CasePattern::Mixed => canonical,
        CasePattern::Upper => spec_uppercase_all(canonical),
        CasePattern::Title => if canonical.len() == 0 {
            Seq::empty()
        } else {
            char_uppercase(canonical[0]) + spec_normalize(canonical.drop_first())
        },
    }
}

/// One reading of the token: the normalized word to look up, the cost of the reading, the
/// literal edges to put back, and the case to write the correction in.
pub struct VariantModel {
    pub text: Seq<char>,
    pub penalty: nat,
    pub prefix: Seq<char>,
    pub suffix: Seq<char>,
    pub case_pattern: CasePattern,
}

pub open spec fn spec_variant_of(view: WordView, penalty: nat) -> VariantModel {
    VariantModel {
        text: spec_normalize(view.core),
        penalty,
        prefix: view.prefix,
        suffix: view.suffix,
        case_pattern: spec_case_pattern(view.core),
    }
}

/// The reading of the token through a keyboard-layout transform, when the transform applies and
/// leaves a word between symbol edges.
pub open spec fn spec_transformed_variant(
    m: KeyboardLayoutMap,
    text: Seq<char>,
    keys: Seq<PhysicalKey>,
) -> Option<VariantModel> {
    match spec_transform(m.spec_map(), m.spec_physical_map(), text, keys) {
        Some(t) => match spec_split(t, spec_symbol_edges(t)) {
            Some(view) => Some(spec_variant_of(view, m.spec_penalty() as nat)),
            None => None,
        },
        None => None,
    }
}

/// The literal reading first, then the reading through each transform (absent where the
/// transform does not apply).
pub open spec fn spec_raw_variants(
    transforms: Seq<KeyboardLayoutMap>,
    text: Seq<char>,
    keys: Seq<PhysicalKey>,
    view: WordView,
) -> Seq<Option<VariantModel>> {
    Seq::new(
        transforms.len() + 1,
        |i: int|
            if i == 0 {
                Some(spec_variant_of(view, 0))
            } else {
                spec_transformed_variant(transforms[i - 1], text, keys)
            },
    )
}

/// Two readings that would produce the same corrections.
pub open spec fn spec_same_reading(a: VariantModel, b: VariantModel) -> bool {
    &&& a.text == b.text
    &&& a.prefix == b.prefix
    &&& a.suffix == b.suffix
    &&& a.case_pattern == b.case_pattern
}

/// The lowest penalty among the first `n` readings that match `key`, or `key`'s own.
pub open spec fn spec_min_penalty(raw: Seq<Option<VariantModel>>, key: VariantModel, n: nat) -> nat
    decreases n,
{
    if n == 0 {
        key.penalty
    } else {
        let rest = spec_min_penalty(raw, key, (n - 1) as nat);
        match raw[n - 1] {
            Some(w) => if spec_same_reading(w, key) && w.penalty < rest {
                w.penalty
            } else {
                rest
            },
            None => rest,
        }
    }
}

/// A reading's penalty once equal readings are merged: the lowest among them.
pub open spec fn spec_effective_penalty(raw: Seq<Option<VariantModel>>, v: int) -> nat {
    spec_min_penalty(raw, raw[v]->0, raw.len())
}

/// The transforms of all languages, in order.
pub open spec fn spec_all_transforms(languages: Seq<LanguagePack>) -> Seq<KeyboardLayoutMap>
    decreases languages.len(),
{
    if languages.len() == 0 {
        Seq::empty()
    } else {
        spec_all_transforms(languages.drop_last()) + languages.last().spec_transforms()
    }
}

/// A word split into its literal prefix, core and suffix.
#[derive(Debug)]
struct LiteralWordView {
    prefix: Vec<char>,
    core: Vec<char>,
    suffix: Vec<char>,
}

impl LiteralWordView {
    spec fn model(&self) -> WordView {
        WordView { prefix: self.prefix@, core: self.core@, suffix: self.suffix@ }
    }
}

spec fn view_model(v: Option<LiteralWordView>) -> Option<WordView> {
    match v {
        Some(w) => Some(w.model()),
        None => None,
    }
}

fn copy_range(s: &[char], from: usize, to: usize) -> (r: Vec<char>)
    requires
        from <= to <= s@.len(),
    ensures
        r@ == s@.subrange(from as int, to as int),
{
    let mut out: Vec<char> = Vec::new();
    let mut k: usize = from;
    while k < to
        invariant
            from <= k <= to <= s@.len(),
            out@ == s@.subrange(from as int, k as int),
        decreases to - k,
    {
        out.push(s[k]);
        k = k + 1;
        assert(out@ =~= s@.subrange(from as int, k as int));
    }
    out
}

fn split_word(chars: &[char], edges: &[bool]) -> (r: Option<LiteralWordView>)
    requires
        chars@.len() == edges@.len(),
    ensures
        view_model(r) == spec_split(chars@, edges@),
{
    let n = edges.len();
    let mut start: usize = 0;
    assert(edges@.skip(0) =~= edges@);
    while start < n && edges[start]
        invariant
            n == edges@.len(),
            start <= n,
            spec_leading(edges@) == start + spec_leading(edges@.skip(start as int)),
        decreases n - start,
    {
        assert(edges@.skip(start as int)[0] == edges@[start as int]);
        assert(edges@.skip(start as int).drop_first() =~= edges@.skip(start + 1));
        start = start + 1;
    }
    if start == n {
        return None;
    }
    assert(spec_leading(edges@.skip(start as int)) == 0) by {
        assert(edges@.skip(start as int)[0] == edges@[start as int]);
    }
    let mut end: usize = n;
    assert(edges@.take(n as int) =~= edges@);
    while edges[end - 1]
        invariant
            n == edges@.len(),
            start < end <= n,
            !edges@[start as int],
            spec_trailing(edges@) == (n - end) + spec_trailing(edges@.take(end as int)),
        decreases end,
    {
        assert(edges@.take(end as int).last() == edges@[end - 1]);
        assert(edges@.take(end as int).drop_last() =~= edges@.take(end - 1));
        end = end - 1;
    }
    assert(spec_trailing(edges@.take(end as int)) == 0) by {
        assert(edges@.take(end as int).last() == edges@[end - 1]);
    }
    Some(
        LiteralWordView {
            prefix: copy_range(chars, 0, start),
            core: copy_range(chars, start, end),
            suffix: copy_range(chars, end, n),
        },
    )
}

/// The token read literally.
fn token_view(token: &CompletedToken) -> (r: Option<LiteralWordView>)
    ensures
        view_model(r) == spec_token_view(token.spec_text(), token.spec_keys()),
{
    let chars = chars_of(token.text());
    let keys = token.physical_keys();
    if chars.len() != keys.len() {
        return None;
    }
    let mut edges: Vec<bool> = Vec::new();
    let mut i: usize = 0;
    while i < chars.len()
        invariant
            i <= chars@.len(),
            chars@.len() == keys@.len(),
            edges@ == spec_token_edges(chars@, keys@).take(i as int),
        decreases chars@.len() - i,
    {
        let edge = keys[i].is_layout_ambiguous() && !is_alphanumeric(chars[i]);
        edges.push(edge);
        i = i + 1;
        assert(edges@ =~= spec_token_edges(chars@, keys@).take(i as int));
    }
    assert(edges@ =~= spec_token_edges(chars@, keys@));
    split_word(chars.as_slice(), edges.as_slice())
}

/// Transformed text read between symbol edges.
fn transformed_view(chars: &[char]) -> (r: Option<LiteralWordView>)
    ensures
        view_model(r) == spec_split(chars@, spec_symbol_edges(chars@)),
{
    let mut edges: Vec<bool> = Vec::new();
    let mut i: usize = 0;
    while i < chars.len()
        invariant
            i <= chars@.len(),
            edges@ == spec_symbol_edges(chars@).take(i as int),
        decreases chars@.len() - i,
    {
        edges.push(!is_alphanumeric(chars[i]));
        i = i + 1;
        assert(edges@ =~= spec_symbol_edges(chars@).take(i as int));
    }
    assert(edges@ =~= spec_symbol_edges(chars@));
    split_word(chars, edges.as_slice())
}

impl CasePattern {
    /// The case pattern of a word's letters.
    fn detect(s: &[char]) -> (r: Self)
        ensures
            r == spec_case_pattern(s@),
    {
        let mut all_lower = true;
        let mut all_upper = true;
        let mut first: Option<usize> = None;
        let mut rest_lower = true;
        let mut i: usize = 0;
        while i < s.len()
            invariant
                i <= s@.len(),
                all_lower <==> forall|j: int| 0 <= j < i && char_is_alphabetic(#[trigger] s@[j]) ==> char_is_lowercase(s@[j]),
                all_upper <==> forall|j: int| 0 <= j < i && char_is_alphabetic(#[trigger] s@[j]) ==> char_is_uppercase(s@[j]),
                first is None <==> forall|j: int| 0 <= j < i ==> !char_is_alphabetic(#[trigger] s@[j]),
                first matches Some(f) ==> f < i && char_is_alphabetic(s@[f as int]) && forall|j: int| 0 <= j < f ==> !char_is_alphabetic(#[trigger] s@[j]),
                first matches Some(f) ==> (rest_lower <==> forall|j: int| f < j < i && char_is_alphabetic(#[trigger] s@[j]) ==> char_is_lowercase(s@[j])),
                first is None ==> rest_lower,
            decreases s@.len() - i,
        {
            let c = s[i];
            if is_alphabetic(c) {
                let lower = is_lowercase(c);
                let upper = is_uppercase(c);
                if !lower {
                    all_lower = false;
                }
                if !upper {
                    all_upper = false;
                }
                match first {
                    None => {
                        first = Some(i);
                    },
                    Some(_) => {
                        if !lower {
                            rest_lower = false;
                        }
                    },
                }
            }
            i = i + 1;
        }
        if all_lower {
            return CasePattern::Lower;
        }
        if all_upper {
            return CasePattern::Upper;
        }
        let title = match first {
            Some(f) => is_uppercase(s[f]) && rest_lower,
            None => false,
        };
        proof {
            if title {
                let f = first->0 as int;
                assert(char_is_alphabetic(s@[f]) && char_is_uppercase(s@[f]));
            }
            if spec_title_letters(s@) {
                let t = choose|t: int| 0 <= t < s@.len() && char_is_alphabetic(#[trigger] s@[t]) && char_is_uppercase(s@[t]) && (
                    forall|j: int| 0 <= j < t ==> !char_is_alphabetic(#[trigger] s@[j])) && (forall|j: int|
                    t < j < s@.len() && char_is_alphabetic(#[trigger] s@[j]) ==> char_is_lowercase(s@[j]));
                assert(first is Some);
                let f = first->0 as int;
                assert(f == t);
            }
        }
        if title {
            CasePattern::Title
        } else {
            CasePattern::Mixed
        }
    }

    /// Writes a canonical word in this case pattern.
    fn apply(self, canonical: &[char]) -> (r: Vec<char>)
        ensures
            r@ == spec_apply_case(self, canonical@),
    {
        match self {
            CasePattern::Lower | CasePattern::Mixed => copy_range(canonical, 0, canonical.len()),
            CasePattern::Upper => {
                let mut out: Vec<char> = Vec::new();
                let mut i: usize = 0;
                while i < canonical.len()
                    invariant
                        i <= canonical@.len(),
                        out@ == spec_uppercase_all(canonical@.take(i as int)),
                    decreases canonical@.len() - i,
                {
                    let mut upper = uppercase_of(canonical[i]);
                    assert(canonical@.take(i + 1).drop_last() =~= canonical@.take(i as int));
                    out.append(&mut upper);
                    i = i + 1;
                }
                assert(canonical@.take(canonical@.len() as int) =~= canonical@);
                out
            },
            CasePattern::Title => {
                if canonical.len() == 0 {
                    return Vec::new();
                }
                let mut out = uppercase_of(canonical[0]);
                let rest = copy_range(canonical, 1, canonical.len());
                let mut lowered = normalize_chars(rest.as_slice());
                assert(rest@ =~= canonical@.drop_first());
                out.append(&mut lowered);
                out
            },
        }
    }
}


/// A reading of the token, as computed.
#[derive(Debug)]
struct ObservedVariant {
    text: Vec<char>,
    layout_penalty: u32,
    prefix: Vec<char>,
    suffix: Vec<char>,
    case_pattern: CasePattern,
}

impl ObservedVariant {
    spec fn model(&self) -> VariantModel {
        VariantModel {
            text: self.text@,
            penalty: self.layout_penalty as nat,
            prefix: self.prefix@,
            suffix: self.suffix@,
            case_pattern: self.case_pattern,
        }
    }
}

spec fn variant_model(v: Option<ObservedVariant>) -> Option<VariantModel> {
    match v {
        Some(w) => Some(w.model()),
        None => None,
    }
}

spec fn variants_model(s: Seq<Option<ObservedVariant>>) -> Seq<Option<VariantModel>> {
    Seq::new(s.len(), |i: int| variant_model(s[i]))
}

spec fn maps_model(s: Seq<&KeyboardLayoutMap>) -> Seq<KeyboardLayoutMap> {
    Seq::new(s.len(), |i: int| *s[i])
}

fn variant_of(view: &LiteralWordView, penalty: u32) -> (r: ObservedVariant)
    ensures
        r.model() == spec_variant_of(view.model(), penalty as nat),
{
    let prefix = copy_range(view.prefix.as_slice(), 0, view.prefix.len());
    let suffix = copy_range(view.suffix.as_slice(), 0, view.suffix.len());
    assert(prefix@ =~= view.prefix@);
    assert(suffix@ =~= view.suffix@);
    ObservedVariant {
        text: normalize_chars(view.core.as_slice()),
        layout_penalty: penalty,
        prefix,
        suffix,
        case_pattern: CasePattern::detect(view.core.as_slice()),
    }
}

/// The literal reading, then the reading through each transform.
fn raw_variants(
    transforms: &Vec<&KeyboardLayoutMap>,
    token: &CompletedToken,
    view: &LiteralWordView,
) -> (r: Vec<Option<ObservedVariant>>)
    ensures
        variants_model(r@) == spec_raw_variants(
            maps_model(transforms@),
            token.spec_text(),
            token.spec_keys(),
            view.model(),
        ),
        forall|i: int| 0 <= i < r@.len() ==> match #[trigger] r@[i] {
            Some(w) => w.layout_penalty <= 100,
            None => true,
        },
{
    let ghost target = spec_raw_variants(
        maps_model(transforms@),
        token.spec_text(),
        token.spec_keys(),
        view.model(),
    );
    let mut out: Vec<Option<ObservedVariant>> = Vec::new();
    out.push(Some(variant_of(view, 0)));
    let mut i: usize = 0;
    while i < transforms.len()
        invariant
            i <= transforms@.len(),
            target == spec_raw_variants(maps_model(transforms@), token.spec_text(), token.spec_keys(), view.model()),
            variants_model(out@) == target.take(i + 1),
            out@.len() == i + 1,
            target.len() == transforms@.len() + 1,
            forall|k: int| 0 <= k < out@.len() ==> match #[trigger] out@[k] {
                Some(w) => w.layout_penalty <= 100,
                None => true,
            },
        decreases transforms@.len() - i,
    {
        let transform = transforms[i];
        let next = match transform.transform_with_physical(token.text(), token.physical_keys()) {
            Some(transformed) => {
                let chars = chars_of(transformed.as_str());
                match transformed_view(chars.as_slice()) {
                    Some(tv) => Some(variant_of(&tv, transform.penalty())),
                    None => None,
                }
            },
            None => None,
        };
        assert(variant_model(next) == target[i + 1]);
        let ghost before = out@;
        out.push(next);
        proof {
            assert forall|k: int| 0 <= k < out@.len() implies match #[trigger] out@[k] {
                Some(w) => w.layout_penalty <= 100,
                None => true,
            } by {
                if k < i + 1 {
                    assert(out@[k] == before[k]);
                }
            }
            assert forall|k: int| 0 <= k < i + 2 implies #[trigger] variants_model(out@)[k] == target.take(i + 2)[k] by {
                if k < i + 1 {
                    assert(out@[k] == before[k]);
                    assert(variants_model(before)[k] == target.take(i + 1)[k]);
                }
            }
        }
        i = i + 1;
        assert(variants_model(out@) =~= target.take(i + 1));
    }
    assert(target.take(transforms@.len() as int + 1) =~= target);
    out
}

fn same_reading(a: &ObservedVariant, b: &ObservedVariant) -> (r: bool)
    ensures
        r == spec_same_reading(a.model(), b.model()),
{
    crate::text::chars_eq(a.text.as_slice(), b.text.as_slice())
        && crate::text::chars_eq(a.prefix.as_slice(), b.prefix.as_slice())
        && crate::text::chars_eq(a.suffix.as_slice(), b.suffix.as_slice())
        && a.case_pattern == b.case_pattern
}

/// The penalty of reading `raw[v]` once equal readings are merged.
fn effective_penalty(raw: &Vec<Option<ObservedVariant>>, v: usize) -> (r: u32)
    requires
        v < raw@.len(),
        raw@[v as int] is Some,
    ensures
        r == spec_effective_penalty(variants_model(raw@), v as int),
{
    let key = match &raw[v] {
        Some(key) => key,
        None => {
            return 0;
        },
    };
    let ghost models = variants_model(raw@);
    assert(models[v as int]->0 == key.model());
    let mut best: u32 = key.layout_penalty;
    let mut i: usize = 0;
    while i < raw.len()
        invariant
            i <= raw@.len(),
            models == variants_model(raw@),
            best == spec_min_penalty(models, key.model(), i as nat),
        decreases raw@.len() - i,
    {
        match &raw[i] {
            Some(other) => {
                if same_reading(other, key) && other.layout_penalty < best {
                    best = other.layout_penalty;
                }
            },
            None => {},
        }
        i = i + 1;
    }
    best
}


/// A dictionary or user word as a correction of one reading: the replacement (the reading's
/// literal edges around the written word) and its confidence. Absent unless the word shares a
/// deletion form with the reading, lies within the edit budget of the reading's length, is not
/// the literal reading itself, and gives a valid replacement that differs from the token.
pub open spec fn spec_scored(
    variant: VariantModel,
    penalty: nat,
    word: Seq<char>,
    written: Seq<char>,
    weight: nat,
    max_weight: nat,
    text: Seq<char>,
) -> Option<(Seq<char>, nat)> {
    let cost = spec_weighted_cost(variant.text, word);
    let replacement = variant.prefix + written + variant.suffix;
    if spec_shares_form(variant.text, word, MAX_INDEX_DELETIONS as nat, MAX_INDEX_DELETIONS as nat)
        && cost <= spec_max_edit_cost(variant.text.len()) && !(cost == 0 && penalty == 0)
        && replacement != text && spec_valid_replacement(replacement) {
        Some((replacement, spec_confidence(cost + penalty, word.len(), weight, max_weight)))
    } else {
        None
    }
}

/// The correction that entry `e` of a language offers through a reading with this penalty.
pub open spec fn spec_language_offer(
    language: LanguagePack,
    variant: VariantModel,
    penalty: nat,
    text: Seq<char>,
    e: int,
) -> Option<(Seq<char>, nat)> {
    let entry = language.spec_entries()[e];
    spec_scored(
        variant,
        penalty,
        entry.spec_word(),
        spec_apply_case(variant.case_pattern, entry.spec_word()),
        entry.spec_frequency() as nat,
        spec_max_frequency(language.spec_entries()) as nat,
        text,
    )
}

/// The correction that learned word `u` offers through a reading with this penalty.
pub open spec fn spec_user_offer(
    user: UserLexicon,
    variant: VariantModel,
    penalty: nat,
    text: Seq<char>,
    u: int,
) -> Option<(Seq<char>, nat)> {
    let word = user.spec_entries()[u];
    spec_scored(
        variant,
        penalty,
        word.spec_normalized(),
        word.spec_term(),
        word.spec_use_count() as nat,
        spec_max_use_count(user.spec_entries()) as nat,
        text,
    )
}

/// The correction that entry `e` of language `l` offers through reading `v` of that language.
pub open spec fn spec_language_candidate(
    languages: Seq<LanguagePack>,
    text: Seq<char>,
    keys: Seq<PhysicalKey>,
    l: int,
    v: int,
    e: int,
) -> Option<(Seq<char>, nat)> {
    if 0 <= l < languages.len() && spec_token_view(text, keys) is Some {
        let language = languages[l];
        let raw = spec_raw_variants(
            language.spec_transforms(),
            text,
            keys,
            spec_token_view(text, keys)->0,
        );
        if 0 <= v < raw.len() && raw[v] is Some && 0 <= e < language.spec_entries().len() {
            spec_language_offer(language, raw[v]->0, spec_effective_penalty(raw, v), text, e)
        } else {
            None
        }
    } else {
        None
    }
}

/// The correction that learned word `u` offers through reading `v` (read through the
/// transforms of every language). A learned word keeps its own spelling.
pub open spec fn spec_user_candidate(
    languages: Seq<LanguagePack>,
    user: UserLexicon,
    text: Seq<char>,
    keys: Seq<PhysicalKey>,
    v: int,
    u: int,
) -> Option<(Seq<char>, nat)> {
    if spec_token_view(text, keys) is Some {
        let raw = spec_raw_variants(
            spec_all_transforms(languages),
            text,
            keys,
            spec_token_view(text, keys)->0,
        );
        if 0 <= v < raw.len() && raw[v] is Some && 0 <= u < user.spec_entries().len() {
            spec_user_offer(user, raw[v]->0, spec_effective_penalty(raw, v), text, u)
        } else {
            None
        }
    } else {
        None
    }
}

/// Some reading of the token offers `replacement` with confidence `confidence`.
pub open spec fn spec_offered(
    languages: Seq<LanguagePack>,
    user: UserLexicon,
    text: Seq<char>,
    keys: Seq<PhysicalKey>,
    replacement: Seq<char>,
    confidence: nat,
) -> bool {
    ||| exists|l: int, v: int, e: int|
        #[trigger] spec_language_candidate(languages, text, keys, l, v, e) == Some(
            (replacement, confidence),
        )
    ||| exists|v: int, u: int|
        #[trigger] spec_user_candidate(languages, user, text, keys, v, u) == Some(
            (replacement, confidence),
        )
}

/// A word the dictionaries or the user already know.
pub open spec fn spec_known_word(
    languages: Seq<LanguagePack>,
    user: UserLexicon,
    word: Seq<char>,
) -> bool {
    ||| exists|i: int|
        0 <= i < user.spec_entries().len() && (#[trigger] user.spec_entries()[i]).spec_normalized()
            == word
    ||| exists|l: int| 0 <= l < languages.len() && spec_has_word((#[trigger] languages[l]).spec_entries(), word)
}

/// The provider offers nothing: the token normalizes to nothing, is all literal punctuation, or
/// is (or holds, between literal punctuation) a known word.
pub open spec fn spec_fails_closed(
    languages: Seq<LanguagePack>,
    user: UserLexicon,
    text: Seq<char>,
    keys: Seq<PhysicalKey>,
) -> bool {
    ||| spec_normalize(text).len() == 0
    ||| spec_known_word(languages, user, spec_normalize(text))
    ||| spec_token_view(text, keys) is None
    ||| spec_known_word(languages, user, spec_normalize(spec_token_view(text, keys)->0.core))
}

/// What the provider returns for a token: nothing when the token fails closed; otherwise every
/// offered replacement once, with the highest confidence offered for it, best first (higher
/// confidence, then replacement order).
pub open spec fn spec_provider_output(
    languages: Seq<LanguagePack>,
    user: UserLexicon,
    text: Seq<char>,
    keys: Seq<PhysicalKey>,
    r: Seq<CorrectionCandidate>,
) -> bool {
    &&& spec_fails_closed(languages, user, text, keys) ==> r.len() == 0
    &&& !spec_fails_closed(languages, user, text, keys) ==> {
        &&& forall|k: int|
            0 <= k < r.len() ==> spec_offered(
                languages,
                user,
                text,
                keys,
                (#[trigger] r[k]).spec_replacement(),
                r[k].spec_confidence(),
            )
        &&& forall|k: int, c: nat|
            0 <= k < r.len() && #[trigger] spec_offered(
                languages,
                user,
                text,
                keys,
                r[k].spec_replacement(),
                c,
            ) ==> c <= r[k].spec_confidence()
        &&& forall|replacement: Seq<char>, c: nat|
            #[trigger] spec_offered(languages, user, text, keys, replacement, c) ==> exists|k: int|
                0 <= k < r.len() && (#[trigger] r[k]).spec_replacement() == replacement
        &&& forall|a: int, b: int|
            0 <= a < b < r.len() ==> (#[trigger] r[a]).spec_confidence() > (
            #[trigger] r[b]).spec_confidence() || (r[a].spec_confidence() == r[b].spec_confidence()
                && spec_chars_lt(r[a].spec_replacement(), r[b].spec_replacement()))
    }
}

/// A candidate kept while ranking: its replacement, confidence, total cost and weight.
#[derive(Debug)]
struct RankedCandidate {
    replacement: Vec<char>,
    confidence: u32,
    total_cost: u128,
    frequency: u32,
}

impl RankedCandidate {
    spec fn model(&self) -> (Seq<char>, nat) {
        (self.replacement@, self.confidence as nat)
    }

    /// Higher confidence; then lower total cost; then higher weight.
    fn is_better_than(&self, other: &Self) -> (r: bool)
        ensures
            self.confidence > other.confidence ==> r,
            r ==> self.confidence >= other.confidence,
    {
        self.confidence > other.confidence || (self.confidence == other.confidence && (
        self.total_cost < other.total_cost || (self.total_cost == other.total_cost
            && self.frequency > other.frequency)))
    }
}

/// The candidate for a replacement in a ranking.
pub open spec fn spec_covers(best: Seq<(Seq<char>, nat)>, offer: (Seq<char>, nat)) -> bool {
    exists|i: int| 0 <= i < best.len() && (#[trigger] best[i]).0 == offer.0 && best[i].1 >= offer.1
}

spec fn ranking_model(best: Seq<RankedCandidate>) -> Seq<(Seq<char>, nat)> {
    Seq::new(best.len(), |i: int| best[i].model())
}

/// No replacement occurs twice.
pub open spec fn spec_distinct_replacements(best: Seq<(Seq<char>, nat)>) -> bool {
    forall|i: int, j: int| 0 <= i < j < best.len() ==> (#[trigger] best[i]).0 != (#[trigger] best[j]).0
}

spec fn option_ranked_model(c: Option<RankedCandidate>) -> Option<(Seq<char>, nat)> {
    match c {
        Some(c) => Some(c.model()),
        None => None,
    }
}

/// Keeps the better candidate for each replacement.
fn insert_ranked(best: &mut Vec<RankedCandidate>, candidate: RankedCandidate)
    requires
        spec_distinct_replacements(ranking_model(old(best)@)),
    ensures
        spec_distinct_replacements(ranking_model(final(best)@)),
        forall|i: int| 0 <= i < final(best)@.len() ==> #[trigger] final(best)@[i].model() == candidate.model()
            || ranking_model(old(best)@).contains(final(best)@[i].model()),
        spec_covers(ranking_model(final(best)@), candidate.model()),
        forall|offer: (Seq<char>, nat)| spec_covers(ranking_model(old(best)@), offer) ==> spec_covers(ranking_model(final(best)@), offer),
{
    let ghost before = ranking_model(best@);
    let mut i: usize = 0;
    while i < best.len()
        invariant
            i <= best@.len(),
            before == ranking_model(best@),
            before == ranking_model(old(best)@),
            spec_distinct_replacements(before),
            forall|k: int| 0 <= k < i ==> (#[trigger] best@[k]).replacement@ != candidate.replacement@,
        decreases best@.len() - i,
    {
        if crate::text::chars_eq(best[i].replacement.as_slice(), candidate.replacement.as_slice()) {
            let ghost old_item = best@[i as int].model();
            if candidate.is_better_than(&best[i]) {
                best.set(i, candidate);
            }
            proof {
                let after = ranking_model(best@);
                assert forall|a: int, b: int| 0 <= a < b < after.len() implies (#[trigger] after[a]).0 != (#[trigger] after[b]).0 by {
                    assert(before[a].0 != before[b].0);
                }
                assert(after[i as int].0 == candidate.replacement@);
                assert(after[i as int].1 >= candidate.confidence);
                assert(spec_covers(after, candidate.model()));
                assert forall|offer: (Seq<char>, nat)| spec_covers(before, offer) implies spec_covers(after, offer) by {
                    let k = choose|k: int| 0 <= k < before.len() && (#[trigger] before[k]).0 == offer.0 && before[k].1 >= offer.1;
                    assert(after[k].0 == before[k].0);
                }
                assert forall|k: int| 0 <= k < best@.len() implies #[trigger] best@[k].model() == candidate.model() || before.contains(best@[k].model()) by {
                    if best@[k].model() != candidate.model() {
                        assert(before[k] == best@[k].model());
                    }
                }
            }
            return;
        }
        i = i + 1;
    }
    best.push(candidate);
    proof {
        let after = ranking_model(best@);
        assert forall|k: int| 0 <= k < before.len() implies after[k] == before[k] by {}
        assert(after[before.len() as int] == candidate.model());
        assert forall|offer: (Seq<char>, nat)| spec_covers(before, offer) implies spec_covers(after, offer) by {
            let k = choose|k: int| 0 <= k < before.len() && (#[trigger] before[k]).0 == offer.0 && before[k].1 >= offer.1;
            assert(after[k] == before[k]);
        }
        assert forall|k: int| 0 <= k < best@.len() implies #[trigger] best@[k].model() == candidate.model() || before.contains(best@[k].model()) by {
            if k < before.len() {
                assert(before[k] == best@[k].model());
            }
        }
    }
}

/// Scores a word against one reading.
fn score(
    variant: &ObservedVariant,
    penalty: u32,
    word: &[char],
    written: &[char],
    weight: u32,
    max_weight: u32,
    text: &[char],
) -> (r: Option<RankedCandidate>)
    requires
        penalty <= 100,
        spec_shares_form(variant.text@, word@, MAX_INDEX_DELETIONS as nat, MAX_INDEX_DELETIONS as nat),
    ensures
        match r {
            Some(c) => spec_scored(variant.model(), penalty as nat, word@, written@, weight as nat, max_weight as nat, text@) == Some(c.model()),
            None => spec_scored(variant.model(), penalty as nat, word@, written@, weight as nat, max_weight as nat, text@) is None,
        },
{
    let cost = chars_edit_cost(variant.text.as_slice(), word);
    if cost > max_edit_cost(variant.text.len()) {
        return None;
    }
    if cost == 0 && penalty == 0 {
        return None;
    }
    let mut replacement = copy_range(variant.prefix.as_slice(), 0, variant.prefix.len());
    let mut middle = copy_range(written, 0, written.len());
    let mut tail = copy_range(variant.suffix.as_slice(), 0, variant.suffix.len());
    replacement.append(&mut middle);
    replacement.append(&mut tail);
    assert(replacement@ =~= variant.prefix@ + written@ + variant.suffix@);
    if crate::text::chars_eq(replacement.as_slice(), text) {
        return None;
    }
    if replacement.len() == 0 || crate::text::chars_contain(replacement.as_slice(), '\0') {
        return None;
    }
    let total = cost + penalty as u128;
    let confidence = candidate_confidence(total, word.len(), weight, max_weight);
    Some(RankedCandidate { replacement, confidence: confidence.value(), total_cost: total, frequency: weight })
}


/// Orders a ranking by confidence, highest first, then by replacement.
impl Ranked for RankedCandidate {
    closed spec fn spec_precedes(a: Self, b: Self) -> bool {
        ||| a.confidence > b.confidence
        ||| (a.confidence == b.confidence && spec_chars_le(a.replacement@, b.replacement@))
    }

    proof fn lemma_precedes_total(a: Self, b: Self) {
        lemma_chars_le_total(a.replacement@, b.replacement@);
    }

    proof fn lemma_precedes_transitive(a: Self, b: Self, c: Self) {
        if a.confidence == b.confidence && b.confidence == c.confidence {
            lemma_chars_le_transitive(a.replacement@, b.replacement@, c.replacement@);
        }
    }

    fn precedes(&self, other: &Self) -> (r: bool) {
        if self.confidence != other.confidence {
            return self.confidence > other.confidence;
        }
        chars_order(self.replacement.as_slice(), other.replacement.as_slice()) <= 0
    }
}

proof fn lemma_permutation_keeps_items(a: Seq<RankedCandidate>, b: Seq<RankedCandidate>)
    requires
        a.to_multiset() == b.to_multiset(),
        spec_distinct_replacements(ranking_model(a)),
    ensures
        spec_distinct_replacements(ranking_model(b)),
        forall|i: int| 0 <= i < b.len() ==> a.contains(#[trigger] b[i]),
        forall|j: int| 0 <= j < a.len() ==> b.contains(#[trigger] a[j]),
{
    broadcast use vstd::seq_lib::group_to_multiset_ensures;

    assert forall|i: int| 0 <= i < b.len() implies a.contains(#[trigger] b[i]) by {
        assert(b.contains(b[i]));
        assert(b.to_multiset().count(b[i]) > 0);
        assert(a.to_multiset().count(b[i]) > 0);
    }
    assert forall|j: int| 0 <= j < a.len() implies b.contains(#[trigger] a[j]) by {
        assert(a.contains(a[j]));
        assert(a.to_multiset().count(a[j]) > 0);
        assert(b.to_multiset().count(a[j]) > 0);
    }
    assert(a.no_duplicates()) by {
        assert forall|i: int, j: int| 0 <= i < a.len() && 0 <= j < a.len() && i != j implies a[i]
            != a[j] by {
            if i < j {
                assert(ranking_model(a)[i].0 != ranking_model(a)[j].0);
            } else {
                assert(ranking_model(a)[j].0 != ranking_model(a)[i].0);
            }
        }
    }
    a.lemma_multiset_has_no_duplicates();
    assert forall|x: RankedCandidate| b.to_multiset().contains(x) implies b.to_multiset().count(x) == 1 by {}
    b.lemma_multiset_has_no_duplicates_conv();
    assert forall|i: int, j: int| 0 <= i < j < b.len() implies (#[trigger] ranking_model(b)[i]).0
        != (#[trigger] ranking_model(b)[j]).0 by {
        if b[i].replacement@ == b[j].replacement@ {
            assert(b[i] != b[j]);
            assert(a.contains(b[i]));
            assert(a.contains(b[j]));
            let p = choose|p: int| 0 <= p < a.len() && a[p] == b[i];
            let q = choose|q: int| 0 <= q < a.len() && a[q] == b[j];
            assert(p != q);
            if p < q {
                assert(ranking_model(a)[p].0 != ranking_model(a)[q].0);
            } else {
                assert(ranking_model(a)[q].0 != ranking_model(a)[p].0);
            }
        }
    }
}

/// Every correction the provider may offer is a valid replacement text, with a confidence no
/// higher than the lexical cap.
pub proof fn lemma_offered_is_valid(
    languages: Seq<LanguagePack>,
    user: UserLexicon,
    text: Seq<char>,
    keys: Seq<PhysicalKey>,
    replacement: Seq<char>,
    confidence: nat,
)
    requires
        spec_offered(languages, user, text, keys, replacement, confidence),
    ensures
        spec_valid_replacement(replacement),
        confidence <= MAX_LEXICAL_CONFIDENCE,
{
    if exists|l: int, v: int, e: int|
        #[trigger] spec_language_candidate(languages, text, keys, l, v, e) == Some(
            (replacement, confidence),
        ) {
        let (l, v, e) = choose|l: int, v: int, e: int|
            #[trigger] spec_language_candidate(languages, text, keys, l, v, e) == Some(
                (replacement, confidence),
            );
        assert(spec_language_candidate(languages, text, keys, l, v, e) == Some((replacement, confidence)));
    } else {
        let (v, u) = choose|v: int, u: int|
            #[trigger] spec_user_candidate(languages, user, text, keys, v, u) == Some(
                (replacement, confidence),
            );
        assert(spec_user_candidate(languages, user, text, keys, v, u) == Some((replacement, confidence)));
    }
}

/// Hands out a second handle to a shared value with `Arc::clone`; both handles point at the
/// same value.
#[verifier::external_body]
fn share<T>(value: &Arc<T>) -> (r: Arc<T>)
    ensures
        r == *value,
{
    Arc::clone(value)
}

#[derive(Debug, Clone, Copy, PartialEq, Eq)]
pub enum LexicalProviderError {
    NoLanguages,
}

/// The dictionaries a provider reads: one or more language packs and the learned vocabulary.
#[derive(Debug)]
pub struct LexicalSnapshot {
    languages: Arc<Vec<LanguagePack>>,
    user_lexicon: Arc<UserLexicon>,
}

impl LexicalSnapshot {
    #[verifier::type_invariant]
    spec fn well_formed(self) -> bool {
        (*self.languages)@.len() > 0
    }

    pub closed spec fn spec_languages(&self) -> Seq<LanguagePack> {
        (*self.languages)@
    }

    pub closed spec fn spec_user_lexicon(&self) -> UserLexicon {
        *self.user_lexicon
    }

    /// Fails when no language is given.
    pub fn try_new(languages: Vec<LanguagePack>, user_lexicon: UserLexicon) -> (r: Result<
        Self,
        LexicalProviderError,
    >)
        ensures
            r is Ok <==> languages@.len() > 0,
            r matches Ok(s) ==> s.spec_languages() == languages@ && s.spec_user_lexicon()
                == user_lexicon,
            r matches Err(e) ==> e == LexicalProviderError::NoLanguages,
    {
        if languages.len() == 0 {
            return Err(LexicalProviderError::NoLanguages);
        }
        Ok(LexicalSnapshot { languages: Arc::new(languages), user_lexicon: Arc::new(user_lexicon) })
    }

    pub fn languages(&self) -> (r: &[LanguagePack])
        ensures
            r@ == self.spec_languages(),
            r@.len() > 0,
    {
        proof {
            use_type_invariant(self);
        }
        self.languages.as_slice()
    }

    pub fn user_lexicon(&self) -> (r: &UserLexicon)
        ensures
            *r == self.spec_user_lexicon(),
    {
        &self.user_lexicon
    }

    /// The same languages with another learned vocabulary.
    pub fn with_user_lexicon(&self, user_lexicon: UserLexicon) -> (r: Self)
        ensures
            r.spec_languages() == self.spec_languages(),
            r.spec_user_lexicon() == user_lexicon,
    {
        proof {
            use_type_invariant(self);
        }
        LexicalSnapshot { languages: share(&self.languages), user_lexicon: Arc::new(user_lexicon) }
    }
}

/// Offers corrections from the dictionaries of a snapshot.
#[derive(Debug)]
pub struct LexicalCorrectionProvider {
    snapshot: Arc<LexicalSnapshot>,
}

impl LexicalCorrectionProvider {
    pub closed spec fn spec_snapshot(&self) -> LexicalSnapshot {
        *self.snapshot
    }

    /// Fails when no language is given.
    pub fn try_new(languages: Vec<LanguagePack>, user_lexicon: UserLexicon) -> (r: Result<
        Self,
        LexicalProviderError,
    >)
        ensures
            r is Ok <==> languages@.len() > 0,
            r matches Ok(p) ==> p.spec_snapshot().spec_languages() == languages@
                && p.spec_snapshot().spec_user_lexicon() == user_lexicon,
            r matches Err(e) ==> e == LexicalProviderError::NoLanguages,
    {
        let snapshot = LexicalSnapshot::try_new(languages, user_lexicon)?;
        Ok(LexicalCorrectionProvider { snapshot: Arc::new(snapshot) })
    }

    pub fn from_snapshot(snapshot: Arc<LexicalSnapshot>) -> (r: Self)
        ensures
            r.spec_snapshot() == *snapshot,
    {
        LexicalCorrectionProvider { snapshot }
    }

    pub fn snapshot(&self) -> (r: &LexicalSnapshot)
        ensures
            *r == self.spec_snapshot(),
    {
        &*self.snapshot
    }

    pub fn languages(&self) -> (r: &[LanguagePack])
        ensures
            r@ == self.spec_snapshot().spec_languages(),
    {
        self.snapshot.languages()
    }

    pub fn user_lexicon(&self) -> (r: &UserLexicon)
        ensures
            *r == self.spec_snapshot().spec_user_lexicon(),
    {
        self.snapshot.user_lexicon()
    }

    /// Whether any dictionary or the learned vocabulary holds this normalized word.
    fn contains_normalized(&self, word: &[char]) -> (r: bool)
        ensures
            r == spec_known_word(
                self.spec_snapshot().spec_languages(),
                self.spec_snapshot().spec_user_lexicon(),
                word@,
            ),
    {
        let text = string_from_chars(word);
        if self.user_lexicon().contains_normalized(text.as_str()) {
            return true;
        }
        let languages = self.languages();
        let mut l: usize = 0;
        while l < languages.len()
            invariant
                l <= languages@.len(),
                text@ == word@,
                languages@ == self.spec_snapshot().spec_languages(),
                forall|k: int| 0 <= k < l ==> !spec_has_word((#[trigger] languages@[k]).spec_entries(), word@),
            decreases languages@.len() - l,
        {
            if languages[l].contains_normalized(text.as_str()) {
                assert(spec_has_word(languages@[l as int].spec_entries(), word@));
                return true;
            }
            l = l + 1;
        }
        false
    }
}


/// Ranks the dictionary words of one language against one reading.
fn rank_language_variant(
    best: &mut Vec<RankedCandidate>,
    language: &LanguagePack,
    variant: &ObservedVariant,
    penalty: u32,
    text: &[char],
)
    requires
        spec_distinct_replacements(ranking_model(old(best)@)),
        penalty <= 100,
    ensures
        spec_distinct_replacements(ranking_model(final(best)@)),
        forall|i: int| 0 <= i < final(best)@.len() ==> ranking_model(old(best)@).contains(
            #[trigger] final(best)@[i].model(),
        ) || exists|e: int|
            0 <= e < language.spec_entries().len() && spec_language_offer(
                *language,
                variant.model(),
                penalty as nat,
                text@,
                e,
            ) == Some(final(best)@[i].model()),
        forall|e: int|
            0 <= e < language.spec_entries().len() ==> match #[trigger] spec_language_offer(
                *language,
                variant.model(),
                penalty as nat,
                text@,
                e,
            ) {
                Some(o) => spec_covers(ranking_model(final(best)@), o),
                None => true,
            },
        forall|offer: (Seq<char>, nat)| spec_covers(ranking_model(old(best)@), offer) ==> spec_covers(ranking_model(final(best)@), offer),
{
    let ghost start = ranking_model(best@);
    let ghost entries = language.spec_entries();
    let observed = string_from_chars(variant.text.as_slice());
    let candidates = language.candidate_entries(observed.as_str(), MAX_INDEX_DELETIONS);
    let max_frequency = language.max_frequency();
    proof {
        assert forall|i: int| 0 <= i < best@.len() implies start.contains(#[trigger] best@[i].model()) by {
            assert(start[i] == best@[i].model());
        }
    }
    let mut k: usize = 0;
    while k < candidates.len()
        invariant
            k <= candidates@.len(),
            start == ranking_model(old(best)@),
            entries == language.spec_entries(),
            observed@ == variant.text@,
            penalty <= 100,
            max_frequency == spec_max_frequency(entries),
            forall|m: int| 0 <= m < candidates@.len() ==> entries.contains(*#[trigger] candidates@[m]),
            forall|i: int| 0 <= i < entries.len() ==> (spec_shares_form(observed@, (#[trigger] entries[i]).spec_word(), spec_min_deletions(MAX_INDEX_DELETIONS as nat, MAX_INDEX_DELETIONS as nat), MAX_INDEX_DELETIONS as nat) <==> candidates@.contains(&entries[i])),
            spec_distinct_replacements(ranking_model(best@)),
            forall|i: int| 0 <= i < best@.len() ==> start.contains(#[trigger] best@[i].model()) || exists|e: int|
                0 <= e < entries.len() && spec_language_offer(*language, variant.model(), penalty as nat, text@, e) == Some(best@[i].model()),
            forall|e: int| 0 <= e < entries.len() && (exists|m: int| 0 <= m < k && *candidates@[m] == entries[e]) ==> match #[trigger] spec_language_offer(*language, variant.model(), penalty as nat, text@, e) {
                Some(o) => spec_covers(ranking_model(best@), o),
                None => true,
            },
            forall|offer: (Seq<char>, nat)| spec_covers(start, offer) ==> spec_covers(ranking_model(best@), offer),
        decreases candidates@.len() - k,
    {
        let entry = candidates[k];
        let ghost e0 = choose|e: int| 0 <= e < entries.len() && entries[e] == *entry;
        proof {
            assert(entries.contains(*candidates@[k as int]));
            assert(candidates@.contains(&entries[e0]));
        }
        let word = chars_of(entry.word());
        let written = variant.case_pattern.apply(word.as_slice());
        let ghost before = ranking_model(best@);
        let scored = score(variant, penalty, word.as_slice(), written.as_slice(), entry.frequency(), max_frequency, text);
        let ghost scored_model = option_ranked_model(scored);
        proof {
            assert(spec_language_offer(*language, variant.model(), penalty as nat, text@, e0) == scored_model);
        }
        match scored {
            Some(c) => {
                insert_ranked(best, c);
            },
            None => {},
        }
        proof {
            let after = ranking_model(best@);
            assert forall|i: int| 0 <= i < best@.len() implies start.contains(#[trigger] best@[i].model()) || exists|e: int|
                0 <= e < entries.len() && spec_language_offer(*language, variant.model(), penalty as nat, text@, e) == Some(best@[i].model()) by {
                if scored_model is None {
                    assert(before[i] == best@[i].model());
                }
                if before.contains(best@[i].model()) {
                    let j = choose|j: int| 0 <= j < before.len() && before[j] == best@[i].model();
                    assert(before[j] == best@[i].model());
                } else {
                    assert(scored_model == Some(best@[i].model()));
                    assert(spec_language_offer(*language, variant.model(), penalty as nat, text@, e0) == Some(best@[i].model()));
                }
            }
            assert forall|e: int| 0 <= e < entries.len() && (exists|m: int| 0 <= m < k + 1 && *candidates@[m] == entries[e]) implies match #[trigger] spec_language_offer(*language, variant.model(), penalty as nat, text@, e) {
                Some(o) => spec_covers(after, o),
                None => true,
            } by {
                if entries[e] == *entry {
                    assert(spec_language_offer(*language, variant.model(), penalty as nat, text@, e) == spec_language_offer(*language, variant.model(), penalty as nat, text@, e0));
                } else {
                    let m = choose|m: int| 0 <= m < k + 1 && *candidates@[m] == entries[e];
                    assert(m < k);
                    match spec_language_offer(*language, variant.model(), penalty as nat, text@, e) {
                        Some(o) => {
                            assert(spec_covers(before, o));
                        },
                        None => {},
                    }
                }
            }
        }
        k = k + 1;
    }
    proof {
        assert forall|e: int| 0 <= e < entries.len() implies match #[trigger] spec_language_offer(*language, variant.model(), penalty as nat, text@, e) {
            Some(o) => spec_covers(ranking_model(best@), o),
            None => true,
        } by {
            match spec_language_offer(*language, variant.model(), penalty as nat, text@, e) {
                Some(o) => {
                    assert(candidates@.contains(&entries[e]));
                    let m = choose|m: int| 0 <= m < candidates@.len() && candidates@[m] == &entries[e];
                    assert(*candidates@[m] == entries[e]);
                },
                None => {},
            }
        }
    }
}

/// Ranks the learned words against one reading.
fn rank_user_variant(
    best: &mut Vec<RankedCandidate>,
    user: &UserLexicon,
    variant: &ObservedVariant,
    penalty: u32,
    text: &[char],
)
    requires
        spec_distinct_replacements(ranking_model(old(best)@)),
        penalty <= 100,
    ensures
        spec_distinct_replacements(ranking_model(final(best)@)),
        forall|i: int| 0 <= i < final(best)@.len() ==> ranking_model(old(best)@).contains(
            #[trigger] final(best)@[i].model(),
        ) || exists|e: int|
            0 <= e < user.spec_entries().len() && spec_user_offer(
                *user,
                variant.model(),
                penalty as nat,
                text@,
                e,
            ) == Some(final(best)@[i].model()),
        forall|e: int|
            0 <= e < user.spec_entries().len() ==> match #[trigger] spec_user_offer(
                *user,
                variant.model(),
                penalty as nat,
                text@,
                e,
            ) {
                Some(o) => spec_covers(ranking_model(final(best)@), o),
                None => true,
            },
        forall|offer: (Seq<char>, nat)| spec_covers(ranking_model(old(best)@), offer) ==> spec_covers(ranking_model(final(best)@), offer),
{
    let ghost start = ranking_model(best@);
    let ghost entries = user.spec_entries();
    let observed = string_from_chars(variant.text.as_slice());
    let candidates = user.candidate_entries(observed.as_str(), MAX_INDEX_DELETIONS);
    let max_frequency = user.max_use_count();
    proof {
        assert forall|i: int| 0 <= i < best@.len() implies start.contains(#[trigger] best@[i].model()) by {
            assert(start[i] == best@[i].model());
        }
    }
    let mut k: usize = 0;
    while k < candidates.len()
        invariant
            k <= candidates@.len(),
            start == ranking_model(old(best)@),
            entries == user.spec_entries(),
            observed@ == variant.text@,
            penalty <= 100,
            max_frequency == spec_max_use_count(entries),
            forall|m: int| 0 <= m < candidates@.len() ==> entries.contains(*#[trigger] candidates@[m]),
            forall|i: int| 0 <= i < entries.len() ==> (spec_shares_form(observed@, (#[trigger] entries[i]).spec_normalized(), spec_min_deletions(MAX_INDEX_DELETIONS as nat, MAX_INDEX_DELETIONS as nat), MAX_INDEX_DELETIONS as nat) <==> candidates@.contains(&entries[i])),
            spec_distinct_replacements(ranking_model(best@)),
            forall|i: int| 0 <= i < best@.len() ==> start.contains(#[trigger] best@[i].model()) || exists|e: int|
                0 <= e < entries.len() && spec_user_offer(*user, variant.model(), penalty as nat, text@, e) == Some(best@[i].model()),
            forall|e: int| 0 <= e < entries.len() && (exists|m: int| 0 <= m < k && *candidates@[m] == entries[e]) ==> match #[trigger] spec_user_offer(*user, variant.model(), penalty as nat, text@, e) {
                Some(o) => spec_covers(ranking_model(best@), o),
                None => true,
            },
            forall|offer: (Seq<char>, nat)| spec_covers(start, offer) ==> spec_covers(ranking_model(best@), offer),
        decreases candidates@.len() - k,
    {
        let entry = candidates[k];
        let ghost e0 = choose|e: int| 0 <= e < entries.len() && entries[e] == *entry;
        proof {
            assert(entries.contains(*candidates@[k as int]));
            assert(candidates@.contains(&entries[e0]));
        }
        let word = chars_of(entry.normalized_term());
        let written = chars_of(entry.term());
        let ghost before = ranking_model(best@);
        let scored = score(variant, penalty, word.as_slice(), written.as_slice(), entry.use_count(), max_frequency, text);
        let ghost scored_model = option_ranked_model(scored);
        proof {
            assert(spec_user_offer(*user, variant.model(), penalty as nat, text@, e0) == scored_model);
        }
        match scored {
            Some(c) => {
                insert_ranked(best, c);
            },
            None => {},
        }
        proof {
            let after = ranking_model(best@);
            assert forall|i: int| 0 <= i < best@.len() implies start.contains(#[trigger] best@[i].model()) || exists|e: int|
                0 <= e < entries.len() && spec_user_offer(*user, variant.model(), penalty as nat, text@, e) == Some(best@[i].model()) by {
                if scored_model is None {
                    assert(before[i] == best@[i].model());
                }
                if before.contains(best@[i].model()) {
                    let j = choose|j: int| 0 <= j < before.len() && before[j] == best@[i].model();
                    assert(before[j] == best@[i].model());
                } else {
                    assert(scored_model == Some(best@[i].model()));
                    assert(spec_user_offer(*user, variant.model(), penalty as nat, text@, e0) == Some(best@[i].model()));
                }
            }
            assert forall|e: int| 0 <= e < entries.len() && (exists|m: int| 0 <= m < k + 1 && *candidates@[m] == entries[e]) implies match #[trigger] spec_user_offer(*user, variant.model(), penalty as nat, text@, e) {
                Some(o) => spec_covers(after, o),
                None => true,
            } by {
                if entries[e] == *entry {
                    assert(spec_user_offer(*user, variant.model(), penalty as nat, text@, e) == spec_user_offer(*user, variant.model(), penalty as nat, text@, e0));
                } else {
                    let m = choose|m: int| 0 <= m < k + 1 && *candidates@[m] == entries[e];
                    assert(m < k);
                    match spec_user_offer(*user, variant.model(), penalty as nat, text@, e) {
                        Some(o) => {
                            assert(spec_covers(before, o));
                        },
                        None => {},
                    }
                }
            }
        }
        k = k + 1;
    }
    proof {
        assert forall|e: int| 0 <= e < entries.len() implies match #[trigger] spec_user_offer(*user, variant.model(), penalty as nat, text@, e) {
            Some(o) => spec_covers(ranking_model(best@), o),
            None => true,
        } by {
            match spec_user_offer(*user, variant.model(), penalty as nat, text@, e) {
                Some(o) => {
                    assert(candidates@.contains(&entries[e]));
                    let m = choose|m: int| 0 <= m < candidates@.len() && candidates@[m] == &entries[e];
                    assert(*candidates@[m] == entries[e]);
                },
                None => {},
            }
        }
    }
}


/// Whether the ranking holds the language offers of readings `(l2, v2)` before `(l, v)`.
spec fn spec_languages_covered(
    languages: Seq<LanguagePack>,
    text: Seq<char>,
    keys: Seq<PhysicalKey>,
    best: Seq<(Seq<char>, nat)>,
    l: int,
    v: int,
) -> bool {
    forall|l2: int, v2: int, e2: int|
        (l2 < l || (l2 == l && v2 < v)) ==> match #[trigger] spec_language_candidate(
            languages,
            text,
            keys,
            l2,
            v2,
            e2,
        ) {
            Some(o) => spec_covers(best, o),
            None => true,
        }
}

/// Whether the ranking holds the user offers of readings before `v`.
spec fn spec_user_covered(
    languages: Seq<LanguagePack>,
    user: UserLexicon,
    text: Seq<char>,
    keys: Seq<PhysicalKey>,
    best: Seq<(Seq<char>, nat)>,
    v: int,
) -> bool {
    forall|v2: int, u2: int|
        v2 < v ==> match #[trigger] spec_user_candidate(languages, user, text, keys, v2, u2) {
            Some(o) => spec_covers(best, o),
            None => true,
        }
}

/// Every item of the ranking is offered.
spec fn spec_ranking_offered(
    languages: Seq<LanguagePack>,
    user: UserLexicon,
    text: Seq<char>,
    keys: Seq<PhysicalKey>,
    best: Seq<(Seq<char>, nat)>,
) -> bool {
    forall|i: int| 0 <= i < best.len() ==> spec_offered(languages, user, text, keys, (#[trigger] best[i]).0, best[i].1)
}

proof fn lemma_covered_monotone(
    languages: Seq<LanguagePack>,
    user: UserLexicon,
    text: Seq<char>,
    keys: Seq<PhysicalKey>,
    before: Seq<(Seq<char>, nat)>,
    after: Seq<(Seq<char>, nat)>,
    l: int,
    v: int,
    uv: int,
)
    requires
        forall|offer: (Seq<char>, nat)| spec_covers(before, offer) ==> spec_covers(after, offer),
    ensures
        spec_languages_covered(languages, text, keys, before, l, v) ==> spec_languages_covered(languages, text, keys, after, l, v),
        spec_user_covered(languages, user, text, keys, before, uv) ==> spec_user_covered(languages, user, text, keys, after, uv),
{
    if spec_languages_covered(languages, text, keys, before, l, v) {
        assert forall|l2: int, v2: int, e2: int|
            (l2 < l || (l2 == l && v2 < v)) implies match #[trigger] spec_language_candidate(languages, text, keys, l2, v2, e2) {
                Some(o) => spec_covers(after, o),
                None => true,
            } by {
            match spec_language_candidate(languages, text, keys, l2, v2, e2) {
                Some(o) => {
                    assert(spec_covers(before, o));
                },
                None => {},
            }
        }
    }
    if spec_user_covered(languages, user, text, keys, before, uv) {
        assert forall|v2: int, u2: int| v2 < uv implies match #[trigger] spec_user_candidate(languages, user, text, keys, v2, u2) {
                Some(o) => spec_covers(after, o),
                None => true,
            } by {
            match spec_user_candidate(languages, user, text, keys, v2, u2) {
                Some(o) => {
                    assert(spec_covers(before, o));
                },
                None => {},
            }
        }
    }
}

/// References to the transforms of a slice of maps.
fn transform_refs(maps: &[KeyboardLayoutMap]) -> (r: Vec<&KeyboardLayoutMap>)
    ensures
        maps_model(r@) == maps@,
{
    let mut out: Vec<&KeyboardLayoutMap> = Vec::new();
    let mut i: usize = 0;
    while i < maps.len()
        invariant
            i <= maps@.len(),
            maps_model(out@) == maps@.take(i as int),
            out@.len() == i,
        decreases maps@.len() - i,
    {
        let ghost prior = out@;
        out.push(&maps[i]);
        proof {
            assert forall|k: int| 0 <= k < i + 1 implies #[trigger] maps_model(out@)[k] == maps@.take(i + 1)[k] by {
                if k < i {
                    assert(out@[k] == prior[k]);
                    assert(maps_model(prior)[k] == maps@.take(i as int)[k]);
                }
            }
        }
        i = i + 1;
        assert(maps_model(out@) =~= maps@.take(i as int));
    }
    assert(maps@.take(maps@.len() as int) =~= maps@);
    out
}

/// References to the transforms of every language, in order.
fn all_transform_refs(languages: &[LanguagePack]) -> (r: Vec<&KeyboardLayoutMap>)
    ensures
        maps_model(r@) == spec_all_transforms(languages@),
{
    let mut out: Vec<&KeyboardLayoutMap> = Vec::new();
    let mut l: usize = 0;
    while l < languages.len()
        invariant
            l <= languages@.len(),
            maps_model(out@) == spec_all_transforms(languages@.take(l as int)),
        decreases languages@.len() - l,
    {
        let maps = languages[l].transforms();
        let ghost before = maps_model(out@);
        let mut i: usize = 0;
        while i < maps.len()
            invariant
                i <= maps@.len(),
                maps_model(out@) == before + maps@.take(i as int),
                out@.len() == before.len() + i,
            decreases maps@.len() - i,
        {
            let ghost prior = out@;
            out.push(&maps[i]);
            proof {
                assert forall|k: int| 0 <= k < before.len() + i + 1 implies #[trigger] maps_model(out@)[k] == (before + maps@.take(i + 1))[k] by {
                    if k < before.len() + i {
                        assert(out@[k] == prior[k]);
                        assert(maps_model(prior)[k] == (before + maps@.take(i as int))[k]);
                    }
                }
            }
            i = i + 1;
            assert(maps_model(out@) =~= before + maps@.take(i as int));
        }
        assert(maps@.take(maps@.len() as int) =~= maps@);
        assert(languages@.take(l + 1).drop_last() =~= languages@.take(l as int));
        assert(languages@.take(l + 1).last() == languages@[l as int]);
        l = l + 1;
    }
    assert(languages@.take(languages@.len() as int) =~= languages@);
    out
}

impl LexicalCorrectionProvider {
    /// The corrections offered for a token, best first (highest confidence, then replacement
    /// order), one per replacement with the highest confidence any reading gives it. Nothing is
    /// offered when the token fails closed: when it normalizes to nothing, is only literal
    /// punctuation, or is a word (literally or between literal punctuation) that a dictionary or
    /// the learned vocabulary already knows.
    pub fn candidates(&self, token: &CompletedToken) -> (r: Vec<CorrectionCandidate>)
        ensures
            spec_provider_output(
                self.spec_snapshot().spec_languages(),
                self.spec_snapshot().spec_user_lexicon(),
                token.spec_text(),
                token.spec_keys(),
                r@,
            ),
    {
        let ghost languages_model = self.spec_snapshot().spec_languages();
        let ghost user_model = self.spec_snapshot().spec_user_lexicon();
        let ghost text_model = token.spec_text();
        let ghost keys_model = token.spec_keys();
        let text = chars_of(token.text());
        let normalized = normalize_chars(text.as_slice());
        if normalized.len() == 0 {
            return Vec::new();
        }
        let view_option = token_view(token);
        if self.contains_normalized(normalized.as_slice()) {
            return Vec::new();
        }
        let view = match view_option {
            Some(view) => view,
            None => {
                return Vec::new();
            },
        };
        let core = normalize_chars(view.core.as_slice());
        if self.contains_normalized(core.as_slice()) {
            return Vec::new();
        }
        let languages = self.languages();
        let user = self.user_lexicon();
        let mut best: Vec<RankedCandidate> = Vec::new();
        let mut l: usize = 0;
        while l < languages.len()
            invariant
                l <= languages@.len(),
                languages@ == languages_model,
                text@ == text_model,
                text_model == token.spec_text(),
                keys_model == token.spec_keys(),
                spec_token_view(text_model, keys_model) == Some(view.model()),
                spec_distinct_replacements(ranking_model(best@)),
                spec_ranking_offered(languages_model, user_model, text_model, keys_model, ranking_model(best@)),
                spec_languages_covered(languages_model, text_model, keys_model, ranking_model(best@), l as int, 0),
            decreases languages@.len() - l,
        {
            let language = &languages[l];
            let transforms = transform_refs(language.transforms());
            let raw = raw_variants(&transforms, token, &view);
            let ghost raw_model = spec_raw_variants(language.spec_transforms(), text_model, keys_model, view.model());
            let mut v: usize = 0;
            while v < raw.len()
                invariant
                    l < languages@.len(),
                    v <= raw@.len(),
                    languages@ == languages_model,
                    text@ == text_model,
                    text_model == token.spec_text(),
                    keys_model == token.spec_keys(),
                    spec_token_view(text_model, keys_model) == Some(view.model()),
                    *language == languages_model[l as int],
                    variants_model(raw@) == raw_model,
                    raw_model == spec_raw_variants(languages_model[l as int].spec_transforms(), text_model, keys_model, view.model()),
                    forall|i: int| 0 <= i < raw@.len() ==> match #[trigger] raw@[i] {
                        Some(w) => w.layout_penalty <= 100,
                        None => true,
                    },
                    spec_distinct_replacements(ranking_model(best@)),
                    spec_ranking_offered(languages_model, user_model, text_model, keys_model, ranking_model(best@)),
                    spec_languages_covered(languages_model, text_model, keys_model, ranking_model(best@), l as int, v as int),
                decreases raw@.len() - v,
            {
                let ghost before = ranking_model(best@);
                match &raw[v] {
                    Some(variant) => {
                        let penalty = effective_penalty(&raw, v);
                        proof {
                            assert(raw_model[v as int] == Some(variant.model()));
                            assert(raw@[v as int] matches Some(w) && w.layout_penalty <= 100);
                            lemma_effective_penalty_bounded(raw_model, v as int);
                        }
                        rank_language_variant(&mut best, language, variant, penalty, text.as_slice());
                        proof {
                            let after = ranking_model(best@);
                            lemma_covered_monotone(languages_model, user_model, text_model, keys_model, before, after, l as int, v as int, 0);
                            assert forall|e: int| #![trigger spec_language_candidate(languages_model, text_model, keys_model, l as int, v as int, e)]
                                0 <= e < language.spec_entries().len() implies spec_language_candidate(languages_model, text_model, keys_model, l as int, v as int, e)
                                == spec_language_offer(*language, variant.model(), penalty as nat, text_model, e) by {}
                            assert forall|l2: int, v2: int, e2: int|
                                (l2 < l || (l2 == l && v2 < v + 1)) implies match #[trigger] spec_language_candidate(languages_model, text_model, keys_model, l2, v2, e2) {
                                    Some(o) => spec_covers(after, o),
                                    None => true,
                                } by {
                                if l2 == l && v2 == v {
                                    if 0 <= e2 < language.spec_entries().len() {
                                        assert(spec_language_candidate(languages_model, text_model, keys_model, l2, v2, e2)
                                            == spec_language_offer(*language, variant.model(), penalty as nat, text_model, e2));
                                    }
                                }
                            }
                            assert forall|i: int| 0 <= i < after.len() implies spec_offered(languages_model, user_model, text_model, keys_model, (#[trigger] after[i]).0, after[i].1) by {
                                if before.contains(after[i]) {
                                    let j = choose|j: int| 0 <= j < before.len() && before[j] == after[i];
                                    assert(spec_offered(languages_model, user_model, text_model, keys_model, before[j].0, before[j].1));
                                } else {
                                    assert(after[i] == best@[i].model());
                                    let e = choose|e: int| 0 <= e < language.spec_entries().len() && spec_language_offer(*language, variant.model(), penalty as nat, text_model, e) == Some(best@[i].model());
                                    assert(spec_language_candidate(languages_model, text_model, keys_model, l as int, v as int, e) == Some(after[i]));
                                }
                            }
                        }
                    },
                    None => {
                        proof {
                            assert(raw_model[v as int] is None);
                            assert forall|l2: int, v2: int, e2: int|
                                (l2 < l || (l2 == l && v2 < v + 1)) implies match #[trigger] spec_language_candidate(languages_model, text_model, keys_model, l2, v2, e2) {
                                    Some(o) => spec_covers(before, o),
                                    None => true,
                                } by {
                            }
                        }
                    },
                }
                v = v + 1;
            }
            proof {
                let now = ranking_model(best@);
                assert forall|l2: int, v2: int, e2: int|
                    (l2 < l + 1 || (l2 == l + 1 && v2 < 0)) implies match #[trigger] spec_language_candidate(languages_model, text_model, keys_model, l2, v2, e2) {
                        Some(o) => spec_covers(now, o),
                        None => true,
                    } by {
                    if l2 == l && v2 >= v {
                        assert(spec_language_candidate(languages_model, text_model, keys_model, l2, v2, e2) is None);
                    }
                }
            }
            l = l + 1;
        }
        let all_transforms = all_transform_refs(languages);
        let raw = raw_variants(&all_transforms, token, &view);
        let ghost raw_model = spec_raw_variants(spec_all_transforms(languages_model), text_model, keys_model, view.model());
        let mut v: usize = 0;
        while v < raw.len()
            invariant
                v <= raw@.len(),
                languages@ == languages_model,
                *user == user_model,
                text@ == text_model,
                text_model == token.spec_text(),
                keys_model == token.spec_keys(),
                spec_token_view(text_model, keys_model) == Some(view.model()),
                variants_model(raw@) == raw_model,
                raw_model == spec_raw_variants(spec_all_transforms(languages_model), text_model, keys_model, view.model()),
                forall|i: int| 0 <= i < raw@.len() ==> match #[trigger] raw@[i] {
                    Some(w) => w.layout_penalty <= 100,
                    None => true,
                },
                spec_distinct_replacements(ranking_model(best@)),
                spec_ranking_offered(languages_model, user_model, text_model, keys_model, ranking_model(best@)),
                spec_languages_covered(languages_model, text_model, keys_model, ranking_model(best@), languages_model.len() as int, 0),
                spec_user_covered(languages_model, user_model, text_model, keys_model, ranking_model(best@), v as int),
            decreases raw@.len() - v,
        {
            let ghost before = ranking_model(best@);
            match &raw[v] {
                Some(variant) => {
                    let penalty = effective_penalty(&raw, v);
                    proof {
                        assert(raw_model[v as int] == Some(variant.model()));
                        assert(raw@[v as int] matches Some(w) && w.layout_penalty <= 100);
                        lemma_effective_penalty_bounded(raw_model, v as int);
                    }
                    rank_user_variant(&mut best, user, variant, penalty, text.as_slice());
                    proof {
                        let after = ranking_model(best@);
                        lemma_covered_monotone(languages_model, user_model, text_model, keys_model, before, after, languages_model.len() as int, 0, v as int);
                        assert forall|v2: int, u2: int| v2 < v + 1 implies match #[trigger] spec_user_candidate(languages_model, user_model, text_model, keys_model, v2, u2) {
                                Some(o) => spec_covers(after, o),
                                None => true,
                            } by {
                            if v2 == v {
                                if 0 <= u2 < user.spec_entries().len() {
                                    assert(spec_user_candidate(languages_model, user_model, text_model, keys_model, v2, u2)
                                        == spec_user_offer(*user, variant.model(), penalty as nat, text_model, u2));
                                }
                            }
                        }
                        assert forall|i: int| 0 <= i < after.len() implies spec_offered(languages_model, user_model, text_model, keys_model, (#[trigger] after[i]).0, after[i].1) by {
                            if before.contains(after[i]) {
                                let j = choose|j: int| 0 <= j < before.len() && before[j] == after[i];
                                assert(spec_offered(languages_model, user_model, text_model, keys_model, before[j].0, before[j].1));
                            } else {
                                assert(after[i] == best@[i].model());
                                let u = choose|u: int| 0 <= u < user.spec_entries().len() && spec_user_offer(*user, variant.model(), penalty as nat, text_model, u) == Some(best@[i].model());
                                assert(spec_user_candidate(languages_model, user_model, text_model, keys_model, v as int, u) == Some(after[i]));
                            }
                        }
                    }
                },
                None => {
                    proof {
                        assert(raw_model[v as int] is None);
                        assert forall|v2: int, u2: int| v2 < v + 1 implies match #[trigger] spec_user_candidate(languages_model, user_model, text_model, keys_model, v2, u2) {
                                Some(o) => spec_covers(before, o),
                                None => true,
                            } by {
                        }
                    }
                },
            }
            v = v + 1;
        }
        let ghost unsorted = best@;
        let ranked = sort_ranked(best);
        proof {
            lemma_permutation_keeps_items(unsorted, ranked@);
            assert forall|m: int| 0 <= m < ranked@.len() implies spec_offered(languages_model, user_model, text_model, keys_model, (#[trigger] ranked@[m]).replacement@, ranked@[m].confidence as nat) by {
                assert(unsorted.contains(ranked@[m]));
                let j = choose|j: int| 0 <= j < unsorted.len() && unsorted[j] == ranked@[m];
                assert(ranking_model(unsorted)[j] == ranked@[m].model());
            }
            assert forall|replacement: Seq<char>, c: nat| #[trigger] spec_offered(languages_model, user_model, text_model, keys_model, replacement, c)
                implies exists|j: int| 0 <= j < ranked@.len() && ranked@[j].replacement@ == replacement && ranked@[j].confidence >= c by {
                lemma_offer_covered(languages_model, user_model, text_model, keys_model, ranking_model(unsorted), raw@.len() as int, replacement, c);
                let i = choose|i: int| 0 <= i < unsorted.len() && (#[trigger] ranking_model(unsorted)[i]).0 == replacement && ranking_model(unsorted)[i].1 >= c;
                assert(ranking_model(unsorted)[i] == unsorted[i].model());
                assert(ranked@.contains(unsorted[i]));
                let j = choose|j: int| 0 <= j < ranked@.len() && ranked@[j] == unsorted[i];
                assert(ranked@[j].replacement@ == replacement);
            }
        }
        let mut out: Vec<CorrectionCandidate> = Vec::new();
        let mut k: usize = 0;
        while k < ranked.len()
            invariant
                k <= ranked@.len(),
                out@.len() == k,
                forall|m: int| 0 <= m < k ==> (#[trigger] out@[m]).spec_replacement() == ranked@[m].replacement@
                    && out@[m].spec_confidence() == ranked@[m].confidence,
                forall|m: int| 0 <= m < ranked@.len() ==> spec_offered(languages_model, user_model, text_model, keys_model, (#[trigger] ranked@[m]).replacement@, ranked@[m].confidence as nat),
            decreases ranked@.len() - k,
        {
            let item = &ranked[k];
            proof {
                lemma_offered_is_valid(languages_model, user_model, text_model, keys_model, item.replacement@, item.confidence as nat);
            }
            let replacement_string = string_from_chars(item.replacement.as_slice());
            let replacement = match ReplacementText::try_new(replacement_string.as_str()) {
                Ok(replacement) => replacement,
                Err(_) => {
                    return out;
                },
            };
            let confidence = match Confidence::try_new(item.confidence) {
                Ok(confidence) => confidence,
                Err(_) => {
                    return out;
                },
            };
            out.push(CorrectionCandidate::new(replacement, confidence));
            k = k + 1;
        }
        proof {
            assert forall|a: int, b: int| 0 <= a < b < out@.len() implies (#[trigger] out@[a]).spec_confidence() > (#[trigger] out@[b]).spec_confidence()
                || (out@[a].spec_confidence() == out@[b].spec_confidence() && spec_chars_lt(out@[a].spec_replacement(), out@[b].spec_replacement())) by {
                assert(RankedCandidate::spec_precedes(ranked@[a], ranked@[b]));
                assert(ranking_model(ranked@)[a].0 != ranking_model(ranked@)[b].0);
            }
            assert forall|m: int, c: nat| 0 <= m < out@.len() && #[trigger] spec_offered(languages_model, user_model, text_model, keys_model, out@[m].spec_replacement(), c)
                implies c <= out@[m].spec_confidence() by {
                let j = choose|j: int| 0 <= j < ranked@.len() && ranked@[j].replacement@ == out@[m].spec_replacement() && ranked@[j].confidence >= c;
                if j != m {
                    if j < m {
                        assert(ranking_model(ranked@)[j].0 != ranking_model(ranked@)[m].0);
                    } else {
                        assert(ranking_model(ranked@)[m].0 != ranking_model(ranked@)[j].0);
                    }
                }
            }
            assert forall|replacement: Seq<char>, c: nat| #[trigger] spec_offered(languages_model, user_model, text_model, keys_model, replacement, c)
                implies exists|m: int| 0 <= m < out@.len() && (#[trigger] out@[m]).spec_replacement() == replacement by {
                let j = choose|j: int| 0 <= j < ranked@.len() && ranked@[j].replacement@ == replacement && ranked@[j].confidence >= c;
                assert(out@[j].spec_replacement() == replacement);
            }
        }
        out
    }
}

proof fn lemma_offer_covered(
    languages: Seq<LanguagePack>,
    user: UserLexicon,
    text: Seq<char>,
    keys: Seq<PhysicalKey>,
    best: Seq<(Seq<char>, nat)>,
    user_readings: int,
    replacement: Seq<char>,
    c: nat,
)
    requires
        spec_token_view(text, keys) is Some,
        spec_languages_covered(languages, text, keys, best, languages.len() as int, 0),
        spec_user_covered(languages, user, text, keys, best, user_readings),
        user_readings == spec_raw_variants(spec_all_transforms(languages), text, keys, spec_token_view(text, keys)->0).len(),
        spec_offered(languages, user, text, keys, replacement, c),
    ensures
        spec_covers(best, (replacement, c)),
{
    if exists|l: int, v: int, e: int|
        #[trigger] spec_language_candidate(languages, text, keys, l, v, e) == Some((replacement, c)) {
        let (l, v, e) = choose|l: int, v: int, e: int|
            #[trigger] spec_language_candidate(languages, text, keys, l, v, e) == Some((replacement, c));
        assert(spec_language_candidate(languages, text, keys, l, v, e) == Some((replacement, c)));
    } else {
        let (v, u) = choose|v: int, u: int|
            #[trigger] spec_user_candidate(languages, user, text, keys, v, u) == Some((replacement, c));
        assert(spec_user_candidate(languages, user, text, keys, v, u) == Some((replacement, c)));
    }
}

proof fn lemma_effective_penalty_bounded(raw: Seq<Option<VariantModel>>, v: int)
    requires
        0 <= v < raw.len(),
        raw[v] is Some,
        raw[v]->0.penalty <= 100,
    ensures
        spec_effective_penalty(raw, v) <= 100,
{
    lemma_min_penalty_bounded(raw, raw[v]->0, raw.len());
}

proof fn lemma_min_penalty_bounded(raw: Seq<Option<VariantModel>>, key: VariantModel, n: nat)
    requires
        key.penalty <= 100,
        n <= raw.len(),
    ensures
        spec_min_penalty(raw, key, n) <= key.penalty,
    decreases n,
{
    if n > 0 {
        lemma_min_penalty_bounded(raw, key, (n - 1) as nat);
    }
}


impl CorrectionCandidateProvider for LexicalCorrectionProvider {
    /// Exactly what the inherent `candidates` promises.
    open spec fn spec_offers(&self, token: CompletedToken, cands: Seq<CorrectionCandidate>) -> bool {
        spec_provider_output(
            self.spec_snapshot().spec_languages(),
            self.spec_snapshot().spec_user_lexicon(),
            token.spec_text(),
            token.spec_keys(),
            cands,
        )
    }

    fn candidates(&self, token: &CompletedToken) -> (r: Vec<CorrectionCandidate>) {
        LexicalCorrectionProvider::candidates(self, token)
    }
}

} // verus!
