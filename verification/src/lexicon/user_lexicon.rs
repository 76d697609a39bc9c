//! Learned user vocabulary: canonical spellings with usage metadata, indexed for exact lookup,
//! typo candidates and recency-ranked prefix completion.

use vstd::prelude::*;

use super::delete_index::{spec_min, spec_shares_form, DeleteIndex, MAX_INDEX_DELETIONS};
use crate::language::normalize::{normalize_chars, spec_normalize};
use crate::order::{
    chars_order, lemma_chars_le_total, lemma_chars_le_transitive, lemma_chars_lt_irreflexive,
    lemma_chars_lt_transitive, lemma_chars_lt_trichotomy, sort_ranked, spec_chars_le,
    spec_chars_lt, spec_sorted, Ranked,
};
use crate::text::{
    char_is_alphanumeric, char_is_whitespace, chars_of, is_alphanumeric, is_whitespace,
    string_from_chars,
};

verus! {

/// A spelling that may be learned: non-empty, free of NUL and whitespace, and holding at least
/// one letter or digit.
pub open spec fn spec_valid_term(t: Seq<char>) -> bool {
    &&& t.len() > 0
    &&& !t.contains('\0')
    &&& forall|i: int| 0 <= i < t.len() ==> !char_is_whitespace(#[trigger] t[i])
    &&& exists|i: int| 0 <= i < t.len() && char_is_alphanumeric(#[trigger] t[i])
}

/// A learned word: its canonical spelling, normalized identity, use count and last use.
#[derive(Debug, PartialEq, Eq)]
pub struct UserWord {
    term: String,
    normalized_term: String,
    use_count: u32,
    last_used_at_ms: i64,
}

#[derive(Debug, Clone, PartialEq, Eq)]
pub enum UserLexiconError {
    InvalidTerm,
    InvalidUseCount,
    DuplicateNormalizedTerm(String),
}

impl UserWord {
    #[verifier::type_invariant]
    spec fn well_formed(self) -> bool {
        &&& spec_valid_term(self.term@)
        &&& self.normalized_term@ == spec_normalize(self.term@)
        &&& self.normalized_term@.len() > 0
        &&& self.use_count > 0
    }

    pub closed spec fn spec_term(&self) -> Seq<char> {
        self.term@
    }

    pub closed spec fn spec_normalized(&self) -> Seq<char> {
        self.normalized_term@
    }

    pub closed spec fn spec_use_count(&self) -> u32 {
        self.use_count
    }

    pub closed spec fn spec_last_used(&self) -> i64 {
        self.last_used_at_ms
    }

    /// Checks the spelling first, then the use count.
    pub fn try_new(term: &str, use_count: u32, last_used_at_ms: i64) -> (r: Result<
        Self,
        UserLexiconError,
    >)
        ensures
            !spec_valid_term(term@) ==> r == Err::<Self, _>(UserLexiconError::InvalidTerm),
            spec_valid_term(term@) && use_count == 0 ==> r == Err::<Self, _>(
                UserLexiconError::InvalidUseCount,
            ),
            spec_valid_term(term@) && use_count > 0 ==> r is Ok,
            r matches Ok(w) ==> w.spec_term() == term@ && w.spec_normalized() == spec_normalize(
                term@,
            ) && w.spec_use_count() == use_count && w.spec_last_used() == last_used_at_ms,
    {
        let chars = chars_of(term);
        let mut has_nul = false;
        let mut has_space = false;
        let mut has_alnum = false;
        let mut i: usize = 0;
        while i < chars.len()
            invariant
                i <= chars.len(),
                chars@ == term@,
                has_nul <==> exists|j: int| 0 <= j < i && #[trigger] chars@[j] == '\0',
                has_space <==> exists|j: int| 0 <= j < i && char_is_whitespace(#[trigger] chars@[j]),
                has_alnum <==> exists|j: int| 0 <= j < i && char_is_alphanumeric(#[trigger] chars@[j]),
            decreases chars.len() - i,
        {
            let c = chars[i];
            if c == '\0' {
                has_nul = true;
            }
            if is_whitespace(c) {
                has_space = true;
            }
            if is_alphanumeric(c) {
                has_alnum = true;
            }
            i = i + 1;
        }
        proof {
            if !has_nul {
                assert forall|j: int| 0 <= j < chars@.len() implies chars@[j] != '\0' by {}
                assert(!chars@.contains('\0'));
            } else {
                let j = choose|j: int| 0 <= j < chars@.len() && #[trigger] chars@[j] == '\0';
                assert(chars@.contains('\0'));
            }
        }
        if chars.len() == 0 || has_nul || has_space || !has_alnum {
            return Err(UserLexiconError::InvalidTerm);
        }
        if use_count == 0 {
            return Err(UserLexiconError::InvalidUseCount);
        }
        let normalized = normalize_chars(chars.as_slice());
        let normalized_term = string_from_chars(normalized.as_slice());
        Ok(UserWord { term: term.to_owned(), normalized_term, use_count, last_used_at_ms })
    }

    pub fn term(&self) -> (r: &str)
        ensures
            r@ == self.spec_term(),
    {
        self.term.as_str()
    }

    pub fn normalized_term(&self) -> (r: &str)
        ensures
            r@ == self.spec_normalized(),
    {
        self.normalized_term.as_str()
    }

    pub fn use_count(&self) -> (r: u32)
        ensures
            r == self.spec_use_count(),
            r > 0,
    {
        proof {
            use_type_invariant(self);
        }
        self.use_count
    }

    pub fn last_used_at_ms(&self) -> (r: i64)
        ensures
            r == self.spec_last_used(),
    {
        self.last_used_at_ms
    }

    /// A second copy of the same word.
    pub fn duplicate(&self) -> (r: Self)
        ensures
            r.spec_term() == self.spec_term(),
            r.spec_normalized() == self.spec_normalized(),
            r.spec_use_count() == self.spec_use_count(),
            r.spec_last_used() == self.spec_last_used(),
    {
        proof {
            use_type_invariant(self);
        }
        UserWord {
            term: self.term.clone(),
            normalized_term: self.normalized_term.clone(),
            use_count: self.use_count,
            last_used_at_ms: self.last_used_at_ms,
        }
    }
}

/// Orders words by normalized identity.
impl Ranked for UserWord {
    open spec fn spec_precedes(a: Self, b: Self) -> bool {
        spec_chars_le(a.spec_normalized(), b.spec_normalized())
    }

    proof fn lemma_precedes_total(a: Self, b: Self) {
        lemma_chars_le_total(a.spec_normalized(), b.spec_normalized());
    }

    proof fn lemma_precedes_transitive(a: Self, b: Self, c: Self) {
        lemma_chars_le_transitive(a.spec_normalized(), b.spec_normalized(), c.spec_normalized());
    }

    fn precedes(&self, other: &Self) -> (r: bool) {
        let a = chars_of(self.normalized_term.as_str());
        let b = chars_of(other.normalized_term.as_str());
        chars_order(a.as_slice(), b.as_slice()) <= 0
    }
}

/// Completion order: more recent use first, then more uses, then spelling.
pub open spec fn spec_ranks_before(a: UserWord, b: UserWord) -> bool {
    ||| a.spec_last_used() > b.spec_last_used()
    ||| (a.spec_last_used() == b.spec_last_used() && a.spec_use_count() > b.spec_use_count())
    ||| (a.spec_last_used() == b.spec_last_used() && a.spec_use_count() == b.spec_use_count()
        && spec_chars_le(a.spec_term(), b.spec_term()))
}

/// A word ranked for completion.
pub struct Completion<'a>(pub &'a UserWord);

impl<'a> Ranked for Completion<'a> {
    open spec fn spec_precedes(a: Self, b: Self) -> bool {
        spec_ranks_before(*a.0, *b.0)
    }

    proof fn lemma_precedes_total(a: Self, b: Self) {
        lemma_chars_le_total(a.0.spec_term(), b.0.spec_term());
    }

    proof fn lemma_precedes_transitive(a: Self, b: Self, c: Self) {
        if a.0.spec_last_used() == b.0.spec_last_used() && b.0.spec_last_used() == c.0.spec_last_used()
            && a.0.spec_use_count() == b.0.spec_use_count() && b.0.spec_use_count() == c.0.spec_use_count() {
            lemma_chars_le_transitive(a.0.spec_term(), b.0.spec_term(), c.0.spec_term());
        }
    }

    fn precedes(&self, other: &Self) -> (r: bool) {
        if self.0.last_used_at_ms != other.0.last_used_at_ms {
            return self.0.last_used_at_ms > other.0.last_used_at_ms;
        }
        if self.0.use_count != other.0.use_count {
            return self.0.use_count > other.0.use_count;
        }
        let a = chars_of(self.0.term.as_str());
        let b = chars_of(other.0.term.as_str());
        chars_order(a.as_slice(), b.as_slice()) <= 0
    }
}

/// No two words share a normalized identity.
pub open spec fn spec_distinct_normalized(s: Seq<UserWord>) -> bool {
    forall|i: int, j: int|
        0 <= i < j < s.len() ==> (#[trigger] s[i]).spec_normalized() != (#[trigger] s[j]).spec_normalized()
}

/// Words strictly ascending by normalized identity.
pub open spec fn spec_strictly_ascending(s: Seq<UserWord>) -> bool {
    forall|i: int, j: int|
        0 <= i < j < s.len() ==> spec_chars_lt(
            (#[trigger] s[i]).spec_normalized(),
            (#[trigger] s[j]).spec_normalized(),
        )
}

/// A vocabulary as a lexicon holds it: each normalized identity is its spelling's
/// normalization, and the identities ascend strictly.
pub open spec fn spec_valid_vocabulary(s: Seq<UserWord>) -> bool {
    &&& spec_strictly_ascending(s)
    &&& forall|i: int| 0 <= i < s.len() ==> (#[trigger] s[i]).spec_normalized() == spec_normalize(s[i].spec_term())
}

/// `r` completes the normalized prefix `np` from `entries` with at most `limit` words: distinct
/// matching words, each ranked before the next, and a matching word is left out only when the
/// list is full and every listed word ranks before it.
pub open spec fn spec_completion_list(entries: Seq<UserWord>, np: Seq<char>, limit: int, r: Seq<&UserWord>) -> bool {
    &&& r.len() <= limit
    &&& forall|m: int| 0 <= m < r.len() ==> entries.contains(*#[trigger] r[m]) && np.is_prefix_of(r[m].spec_normalized())
    &&& forall|a: int, b: int| 0 <= a < b < r.len() ==> spec_ranks_before(*#[trigger] r[a], *#[trigger] r[b]) && r[a] != r[b]
    &&& forall|i: int| 0 <= i < entries.len() && np.is_prefix_of(#[trigger] entries[i].spec_normalized()) && !r.contains(&entries[i])
        ==> r.len() == limit && forall|m: int| 0 <= m < r.len() ==> spec_ranks_before(*#[trigger] r[m], entries[i])
}

/// The largest use count, or 1 for an empty vocabulary.
pub open spec fn spec_max_use_count(s: Seq<UserWord>) -> u32
    decreases s.len(),
{
    if s.len() == 0 {
        1
    } else if s.len() == 1 {
        s[0].spec_use_count()
    } else {
        let rest = spec_max_use_count(s.drop_last());
        if s.last().spec_use_count() > rest {
            s.last().spec_use_count()
        } else {
            rest
        }
    }
}

pub open spec fn spec_normalized_terms(s: Seq<UserWord>) -> Seq<Seq<char>> {
    Seq::new(s.len(), |i: int| s[i].spec_normalized())
}

/// The learned vocabulary.
#[derive(Debug)]
pub struct UserLexicon {
    entries: Vec<UserWord>,
    normalized: Vec<Vec<char>>,
    delete_index: DeleteIndex,
    max_use_count: u32,
}

proof fn lemma_multiset_keeps_distinct(a: Seq<UserWord>, b: Seq<UserWord>)
    requires
        a.to_multiset() == b.to_multiset(),
        spec_distinct_normalized(a),
    ensures
        spec_distinct_normalized(b),
{
    broadcast use vstd::seq_lib::group_to_multiset_ensures;

    assert(a.no_duplicates()) by {
        assert forall|i: int, j: int| 0 <= i < a.len() && 0 <= j < a.len() && i != j implies a[i]
            != a[j] by {
            if i < j {
                assert(a[i].spec_normalized() != a[j].spec_normalized());
            } else {
                assert(a[j].spec_normalized() != a[i].spec_normalized());
            }
        }
    }
    a.lemma_multiset_has_no_duplicates();
    assert forall|x: UserWord| b.to_multiset().contains(x) implies b.to_multiset().count(x) == 1 by {
    }
    b.lemma_multiset_has_no_duplicates_conv();
    assert forall|i: int, j: int| 0 <= i < j < b.len() implies (#[trigger] b[i]).spec_normalized()
        != (#[trigger] b[j]).spec_normalized() by {
        if b[i].spec_normalized() == b[j].spec_normalized() {
            assert(b[i] != b[j]);
            assert(b.contains(b[i]));
            assert(b.contains(b[j]));
            assert(b.to_multiset().count(b[i]) > 0);
            assert(b.to_multiset().count(b[j]) > 0);
            assert(a.contains(b[i]));
            assert(a.contains(b[j]));
            let p = choose|p: int| 0 <= p < a.len() && a[p] == b[i];
            let q = choose|q: int| 0 <= q < a.len() && a[q] == b[j];
            assert(p != q);
            if p < q {
                assert(a[p].spec_normalized() != a[q].spec_normalized());
            } else {
                assert(a[q].spec_normalized() != a[p].spec_normalized());
            }
        }
    }
}

impl Default for UserLexicon {
    fn default() -> (r: Self)
        ensures
            r.spec_entries().len() == 0,
    {
        UserLexicon::empty()
    }
}

impl UserLexicon {
    #[verifier::type_invariant]
    spec fn well_formed(self) -> bool {
        &&& spec_valid_vocabulary(self.entries@)
        &&& self.normalized@.len() == self.entries@.len()
        &&& forall|i: int| 0 <= i < self.entries@.len() ==> (#[trigger] self.normalized@[i])@
            == self.entries@[i].spec_normalized()
        &&& self.delete_index.indexes(spec_normalized_terms(self.entries@))
        &&& self.delete_index.spec_max_deletions() == MAX_INDEX_DELETIONS
        &&& self.max_use_count == spec_max_use_count(self.entries@)
    }

    /// The words, ascending by normalized identity.
    pub closed spec fn spec_entries(&self) -> Seq<UserWord> {
        self.entries@
    }

    /// Fails with the first duplicated normalized identity (in normalized order) when two words
    /// share one; otherwise holds exactly the given words.
    pub fn try_new(entries: Vec<UserWord>) -> (r: Result<Self, UserLexiconError>)
        ensures
            r is Ok <==> spec_distinct_normalized(entries@),
            r matches Ok(lexicon) ==> lexicon.spec_entries().to_multiset() == entries@.to_multiset(),
            r matches Ok(lexicon) ==> spec_valid_vocabulary(lexicon.spec_entries()),
            r matches Err(e) ==> (e matches UserLexiconError::DuplicateNormalizedTerm(t) && exists|
                i: int,
                j: int,
            | 0 <= i < j < entries@.len() && (#[trigger] entries@[i]).spec_normalized() == t@
                && (#[trigger] entries@[j]).spec_normalized() == t@),
            r matches Err(UserLexiconError::DuplicateNormalizedTerm(t)) ==> forall|i: int, j: int|
                0 <= i < j < entries@.len() && (#[trigger] entries@[i]).spec_normalized()
                    == (#[trigger] entries@[j]).spec_normalized() ==> spec_chars_le(
                    t@,
                    entries@[i].spec_normalized(),
                ),
    {
        let ghost original = entries@;
        let sorted = sort_ranked(entries);
        let mut normalized: Vec<Vec<char>> = Vec::new();
        let mut i: usize = 0;
        while i < sorted.len()
            invariant
                i <= sorted@.len(),
                spec_sorted(sorted@),
                sorted@.to_multiset() == original.to_multiset(),
                normalized@.len() == i,
                forall|k: int| 0 <= k < i ==> (#[trigger] normalized@[k])@ == sorted@[k].spec_normalized(),
                forall|k: int| 0 < k < i ==> sorted@[k - 1].spec_normalized() != (#[trigger] sorted@[k]).spec_normalized(),
                forall|k: int| 0 <= k < i ==> (#[trigger] sorted@[k]).spec_normalized() == spec_normalize(sorted@[k].spec_term()),
                original == entries@,
            decreases sorted@.len() - i,
        {
            let word = &sorted[i];
            proof {
                use_type_invariant(word);
            }
            let chars = chars_of(word.normalized_term.as_str());
            if i > 0 {
                if crate::text::chars_eq(normalized[i - 1].as_slice(), chars.as_slice()) {
                    proof {
                        broadcast use vstd::seq_lib::group_to_multiset_ensures;

                        let a = sorted@[i - 1];
                        let b = sorted@[i as int];
                        assert(a.spec_normalized() == b.spec_normalized());
                        if a == b {
                            lemma_two_positions_count(sorted@, i - 1, i as int);
                            lemma_count_two_positions(original, a);
                        } else {
                            assert(sorted@.contains(a));
                            assert(sorted@.contains(b));
                            assert(original.to_multiset().count(a) > 0);
                            assert(original.to_multiset().count(b) > 0);
                            let p = choose|p: int| 0 <= p < original.len() && original[p] == a;
                            let q = choose|q: int| 0 <= q < original.len() && original[q] == b;
                            let lo = if p < q { p } else { q };
                            let hi = if p < q { q } else { p };
                            assert(original[lo].spec_normalized() == b.spec_normalized());
                            assert(original[hi].spec_normalized() == b.spec_normalized());
                        }
                        assert(exists|p: int, q: int| 0 <= p < q < original.len() && (#[trigger] original[p]).spec_normalized() == b.spec_normalized() && (#[trigger] original[q]).spec_normalized() == b.spec_normalized());
                        assert(!spec_distinct_normalized(original));
                        lemma_reported_duplicate_is_least(original, sorted@, i as int);
                    }
                    return Err(UserLexiconError::DuplicateNormalizedTerm(sorted[i].normalized_term.clone()));
                }
            }
            normalized.push(chars);
            i = i + 1;
        }
        proof {
            assert forall|a: int, b: int| 0 <= a < b < sorted@.len() implies spec_chars_lt(
                (#[trigger] sorted@[a]).spec_normalized(),
                (#[trigger] sorted@[b]).spec_normalized(),
            ) by {
                lemma_strict_from_adjacent(sorted@, a, b);
            }
            assert(spec_distinct_normalized(sorted@)) by {
                assert forall|a: int, b: int| 0 <= a < b < sorted@.len() implies (#[trigger] sorted@[a]).spec_normalized() != (#[trigger] sorted@[b]).spec_normalized() by {
                    lemma_chars_lt_irreflexive(sorted@[a].spec_normalized());
                }
            }
            lemma_multiset_keeps_distinct(sorted@, original);
        }
        let delete_index = DeleteIndex::build(&normalized, MAX_INDEX_DELETIONS);
        proof {
            assert(normalized@.map_values(|t: Vec<char>| t@) =~= spec_normalized_terms(sorted@));
        }
        let mut max_use_count: u32 = 1;
        let mut k: usize = 0;
        while k < sorted.len()
            invariant
                k <= sorted@.len(),
                max_use_count == spec_max_use_count(sorted@.take(k as int)),
            decreases sorted@.len() - k,
        {
            let count = sorted[k].use_count;
            proof {
                assert(sorted@.take(k + 1).drop_last() =~= sorted@.take(k as int));
            }
            if k == 0 || count > max_use_count {
                max_use_count = count;
            }
            k = k + 1;
        }
        proof {
            assert(sorted@.take(sorted@.len() as int) =~= sorted@);
        }
        Ok(UserLexicon { entries: sorted, normalized, delete_index, max_use_count })
    }

    pub fn empty() -> (r: Self)
        ensures
            r.spec_entries().len() == 0,
    {
        let entries: Vec<UserWord> = Vec::new();
        let normalized: Vec<Vec<char>> = Vec::new();
        let delete_index = DeleteIndex::build(&normalized, MAX_INDEX_DELETIONS);
        proof {
            assert(normalized@.map_values(|t: Vec<char>| t@) =~= spec_normalized_terms(entries@));
        }
        UserLexicon { entries, normalized, delete_index, max_use_count: 1 }
    }

    /// The position of the word with this normalized identity.
    fn position(&self, normalized_term: &[char]) -> (r: Option<usize>)
        ensures
            r matches Some(i) ==> i < self.spec_entries().len() && self.spec_entries()[i as int].spec_normalized() == normalized_term@,
            r is None ==> forall|i: int| 0 <= i < self.spec_entries().len() ==> (#[trigger] self.spec_entries()[i]).spec_normalized() != normalized_term@,
    {
        proof {
            use_type_invariant(self);
        }
        let mut lo: usize = 0;
        let mut hi: usize = self.normalized.len();
        while lo < hi
            invariant
                lo <= hi <= self.entries@.len(),
                self.normalized@.len() == self.entries@.len(),
                forall|i: int| 0 <= i < self.entries@.len() ==> (#[trigger] self.normalized@[i])@
                    == self.entries@[i].spec_normalized(),
                spec_strictly_ascending(self.entries@),
                forall|i: int| 0 <= i < lo ==> spec_chars_lt((#[trigger] self.entries@[i]).spec_normalized(), normalized_term@),
                forall|i: int| hi <= i < self.entries@.len() ==> spec_chars_lt(normalized_term@, (#[trigger] self.entries@[i]).spec_normalized()),
            decreases hi - lo,
        {
            let mid = lo + (hi - lo) / 2;
            let o = chars_order(self.normalized[mid].as_slice(), normalized_term);
            if o == 0 {
                return Some(mid);
            } else if o < 0 {
                proof {
                    assert forall|i: int| 0 <= i < mid + 1 implies spec_chars_lt((#[trigger] self.entries@[i]).spec_normalized(), normalized_term@) by {
                        if i < mid {
                            lemma_chars_lt_transitive(self.entries@[i].spec_normalized(), self.entries@[mid as int].spec_normalized(), normalized_term@);
                        }
                    }
                }
                lo = mid + 1;
            } else {
                proof {
                    assert forall|i: int| mid <= i < self.entries@.len() implies spec_chars_lt(normalized_term@, (#[trigger] self.entries@[i]).spec_normalized()) by {
                        if i > mid {
                            lemma_chars_lt_transitive(normalized_term@, self.entries@[mid as int].spec_normalized(), self.entries@[i].spec_normalized());
                        }
                    }
                }
                hi = mid;
            }
        }
        proof {
            assert forall|i: int| 0 <= i < self.entries@.len() implies (#[trigger] self.entries@[i]).spec_normalized() != normalized_term@ by {
                lemma_chars_lt_irreflexive(normalized_term@);
            }
        }
        None
    }

    /// Whether a word with this normalized identity has been learned.
    pub fn contains_normalized(&self, normalized_term: &str) -> (r: bool)
        ensures
            r == exists|i: int| 0 <= i < self.spec_entries().len() && (#[trigger] self.spec_entries()[i]).spec_normalized() == normalized_term@,
    {
        let chars = chars_of(normalized_term);
        self.position(chars.as_slice()).is_some()
    }

    /// The learned word with this normalized identity.
    pub fn exact(&self, normalized_term: &str) -> (r: Option<&UserWord>)
        ensures
            r matches Some(w) ==> self.spec_entries().contains(*w) && w.spec_normalized() == normalized_term@,
            r is None ==> forall|i: int| 0 <= i < self.spec_entries().len() ==> (#[trigger] self.spec_entries()[i]).spec_normalized() != normalized_term@,
    {
        let chars = chars_of(normalized_term);
        match self.position(chars.as_slice()) {
            Some(i) => Some(&self.entries[i]),
            None => None,
        }
    }

    /// Typo candidates: the learned words that share a deletion form with `observed` (at most
    /// `max_deletions` deletions from `observed`, capped at two; at most two from the word), in
    /// normalized order.
    pub fn candidate_entries(&self, observed: &str, max_deletions: usize) -> (r: Vec<&UserWord>)
        ensures
            forall|m: int| 0 <= m < r@.len() ==> self.spec_entries().contains(*#[trigger] r@[m]),
            forall|i: int| 0 <= i < self.spec_entries().len() ==> (spec_shares_form(observed@, (#[trigger] self.spec_entries()[i]).spec_normalized(), spec_min(max_deletions as nat, MAX_INDEX_DELETIONS as nat), MAX_INDEX_DELETIONS as nat) <==> r@.contains(&self.spec_entries()[i])),
            forall|a: int, b: int| 0 <= a < b < r@.len() ==> spec_chars_lt((#[trigger] r@[a]).spec_normalized(), (#[trigger] r@[b]).spec_normalized()),
    {
        proof {
            use_type_invariant(self);
        }
        let entry_count = self.entries.len();
        let chars = chars_of(observed);
        let indices = self.delete_index.candidate_indices(chars.as_slice(), max_deletions, Ghost(spec_normalized_terms(self.entries@)));
        let mut out: Vec<&UserWord> = Vec::new();
        let mut m: usize = 0;
        while m < indices.len()
            invariant
                m <= indices@.len(),
                out@.len() == m,
                forall|k: int| 0 <= k < indices@.len() ==> #[trigger] indices@[k] < self.entries@.len(),
                forall|k: int| 0 <= k < m ==> *out@[k] == self.entries@[indices@[k] as int],
            decreases indices@.len() - m,
        {
            out.push(&self.entries[indices[m]]);
            m = m + 1;
        }
        proof {
            assert forall|k: int| 0 <= k < out@.len() implies self.entries@.contains(*#[trigger] out@[k]) by {
                assert(self.entries@[indices@[k] as int] == *out@[k]);
            }
            assert forall|i: int| 0 <= i < self.entries@.len() implies (spec_shares_form(observed@, (#[trigger] self.entries@[i]).spec_normalized(), spec_min(max_deletions as nat, MAX_INDEX_DELETIONS as nat), MAX_INDEX_DELETIONS as nat) <==> out@.contains(&self.entries@[i])) by {
                assert(spec_normalized_terms(self.entries@)[i] == self.entries@[i].spec_normalized());
                if out@.contains(&self.entries@[i]) {
                    let k = choose|k: int| 0 <= k < out@.len() && out@[k] == &self.entries@[i];
                    let j = indices@[k] as int;
                    assert(self.entries@[j] == self.entries@[i]);
                    if j != i {
                        if j < i {
                            lemma_chars_lt_irreflexive(self.entries@[i].spec_normalized());
                        } else {
                            lemma_chars_lt_irreflexive(self.entries@[i].spec_normalized());
                        }
                    }
                    assert(indices@.contains(i as usize));
                }
                if spec_shares_form(observed@, self.entries@[i].spec_normalized(), spec_min(max_deletions as nat, MAX_INDEX_DELETIONS as nat), MAX_INDEX_DELETIONS as nat) {
                    let iu = i as usize;
                    assert(indices@.contains(iu));
                    let k = choose|k: int| 0 <= k < indices@.len() && indices@[k] == iu;
                    assert(*out@[k] == self.entries@[i]);
                    assert(out@[k] == &self.entries@[i]);
                }
            }
            assert forall|a: int, b: int| 0 <= a < b < out@.len() implies spec_chars_lt((#[trigger] out@[a]).spec_normalized(), (#[trigger] out@[b]).spec_normalized()) by {
                assert(indices@[a] < indices@[b]);
            }
        }
        out
    }

    /// Learned words whose normalized identity starts with the normalized `prefix`: most
    /// recently used first, then most used, then by spelling; at most `limit` of them. An empty
    /// prefix or a zero limit yields nothing.
    pub fn prefix_matches(&self, prefix: &str, limit: usize) -> (r: Vec<&UserWord>)
        ensures
            (limit == 0 || prefix@.len() == 0) ==> r@.len() == 0,
            limit > 0 && prefix@.len() > 0 ==> spec_completion_list(self.spec_entries(), spec_normalize(prefix@), limit as int, r@),
    {
        if limit == 0 {
            return Vec::new();
        }
        let prefix_chars = chars_of(prefix);
        let normalized_prefix = normalize_chars(prefix_chars.as_slice());
        if normalized_prefix.len() == 0 {
            return Vec::new();
        }
        let matching = self.matching_entries(normalized_prefix.as_slice());
        let ghost unsorted = matching@;
        let mut ranked = sort_ranked(matching);
        proof {
            broadcast use vstd::seq_lib::group_to_multiset_ensures;

            unsorted.lemma_multiset_has_no_duplicates();
            assert forall|x: Completion| ranked@.to_multiset().contains(x) implies ranked@.to_multiset().count(x) == 1 by {}
            ranked@.lemma_multiset_has_no_duplicates_conv();
        }
        let ghost full = ranked@;
        ranked.truncate(limit);
        let mut out: Vec<&UserWord> = Vec::new();
        let mut m: usize = 0;
        while m < ranked.len()
            invariant
                m <= ranked@.len(),
                out@.len() == m,
                forall|k: int| 0 <= k < m ==> out@[k] == ranked@[k].0,
            decreases ranked@.len() - m,
        {
            out.push(ranked[m].0);
            m = m + 1;
        }
        proof {
            broadcast use vstd::seq_lib::group_to_multiset_ensures;

            assert forall|k: int| 0 <= k < out@.len() implies self.spec_entries().contains(*#[trigger] out@[k]) && normalized_prefix@.is_prefix_of(out@[k].spec_normalized()) by {
                assert(full.contains(full[k]));
                assert(full.to_multiset().count(full[k]) > 0);
                assert(unsorted.to_multiset().count(full[k]) > 0);
                assert(unsorted.contains(full[k]));
            }
            assert forall|a: int, b: int| 0 <= a < b < out@.len() implies spec_ranks_before(*#[trigger] out@[a], *#[trigger] out@[b]) && out@[a] != out@[b] by {
                assert(Completion::spec_precedes(full[a], full[b]));
            }
            assert forall|e: int| 0 <= e < self.spec_entries().len() && normalized_prefix@.is_prefix_of(#[trigger] self.spec_entries()[e].spec_normalized()) && !out@.contains(&self.spec_entries()[e]) implies out@.len() == limit && forall|k: int| 0 <= k < out@.len() ==> spec_ranks_before(*#[trigger] out@[k], self.spec_entries()[e]) by {
                let w = Completion(&self.spec_entries()[e]);
                assert(unsorted.contains(w));
                assert(unsorted.to_multiset().count(w) > 0);
                assert(full.to_multiset().count(w) > 0);
                assert(full.contains(w));
                let pos = choose|pos: int| 0 <= pos < full.len() && full[pos] == w;
                if pos < out@.len() {
                    assert(out@[pos] == &self.spec_entries()[e]);
                }
                assert forall|k: int| 0 <= k < out@.len() implies spec_ranks_before(*#[trigger] out@[k], self.spec_entries()[e]) by {
                    assert(Completion::spec_precedes(full[k], full[pos]));
                }
            }
        }
        out
    }

    /// The learned words whose normalized identity starts with `normalized_prefix`.
    fn matching_entries(&self, normalized_prefix: &[char]) -> (r: Vec<Completion>)
        ensures
            forall|k: int| 0 <= k < r@.len() ==> self.spec_entries().contains(*(#[trigger] r@[k]).0) && normalized_prefix@.is_prefix_of(r@[k].0.spec_normalized()),
            forall|e: int| 0 <= e < self.spec_entries().len() && normalized_prefix@.is_prefix_of(#[trigger] self.spec_entries()[e].spec_normalized()) ==> r@.contains(Completion(&self.spec_entries()[e])),
            r@.no_duplicates(),
    {
        proof {
            use_type_invariant(self);
        }
        let mut matching: Vec<Completion> = Vec::new();
        let ghost mut pos: Seq<int> = Seq::empty();
        let mut i: usize = 0;
        while i < self.entries.len()
            invariant
                i <= self.entries@.len(),
                self.normalized@.len() == self.entries@.len(),
                forall|k: int| 0 <= k < self.entries@.len() ==> (#[trigger] self.normalized@[k])@
                    == self.entries@[k].spec_normalized(),
                spec_strictly_ascending(self.entries@),
                matching@.len() == pos.len(),
                forall|k: int| 0 <= k < pos.len() ==> 0 <= #[trigger] pos[k] < i && matching@[k].0 == &self.entries@[pos[k]] && normalized_prefix@.is_prefix_of(self.entries@[pos[k]].spec_normalized()),
                forall|a: int, b: int| 0 <= a < b < pos.len() ==> #[trigger] pos[a] < #[trigger] pos[b],
                forall|e: int| 0 <= e < i && normalized_prefix@.is_prefix_of(#[trigger] self.entries@[e].spec_normalized()) ==> exists|k: int| 0 <= k < pos.len() && pos[k] == e,
            decreases self.entries@.len() - i,
        {
            let ghost old_pos = pos;
            if crate::text::chars_start_with(self.normalized[i].as_slice(), normalized_prefix) {
                matching.push(Completion(&self.entries[i]));
                proof {
                    pos = pos.push(i as int);
                }
            }
            proof {
                assert forall|e: int| 0 <= e < i + 1 && normalized_prefix@.is_prefix_of(#[trigger] self.entries@[e].spec_normalized()) implies exists|k: int| 0 <= k < pos.len() && pos[k] == e by {
                    if e == i {
                        assert(pos[pos.len() - 1] == e);
                    } else {
                        let k = choose|k: int| 0 <= k < old_pos.len() && old_pos[k] == e;
                        assert(pos[k] == e);
                    }
                }
            }
            i = i + 1;
        }
        proof {
            assert forall|k: int| 0 <= k < matching@.len() implies self.entries@.contains(*(#[trigger] matching@[k]).0) && normalized_prefix@.is_prefix_of(matching@[k].0.spec_normalized()) by {
                assert(self.entries@[pos[k]] == *matching@[k].0);
            }
            assert forall|e: int| 0 <= e < self.entries@.len() && normalized_prefix@.is_prefix_of(#[trigger] self.entries@[e].spec_normalized()) implies matching@.contains(Completion(&self.entries@[e])) by {
                let k = choose|k: int| 0 <= k < pos.len() && pos[k] == e;
                assert(matching@[k] == Completion(&self.entries@[e]));
            }
            assert forall|a: int, b: int| 0 <= a < matching@.len() && 0 <= b < matching@.len() && a != b implies matching@[a] != matching@[b] by {
                let (x, y) = if a < b { (a, b) } else { (b, a) };
                assert(pos[x] < pos[y]);
                lemma_chars_lt_irreflexive(self.entries@[pos[y]].spec_normalized());
            }
        }
        matching
    }

    /// The largest use count of a learned word, or 1 when nothing has been learned.
    pub fn max_use_count(&self) -> (r: u32)
        ensures
            r == spec_max_use_count(self.spec_entries()),
    {
        proof {
            use_type_invariant(self);
        }
        self.max_use_count
    }

    pub fn is_empty(&self) -> (r: bool)
        ensures
            r == (self.spec_entries().len() == 0),
    {
        self.entries.len() == 0
    }
}

proof fn lemma_two_positions_count<T>(s: Seq<T>, p: int, q: int)
    requires
        0 <= p < q < s.len(),
        s[p] == s[q],
    ensures
        s.to_multiset().count(s[p]) >= 2,
    decreases s.len(),
{
    broadcast use vstd::seq_lib::group_to_multiset_ensures;

    let init = s.drop_last();
    assert(init.push(s.last()) =~= s);
    if q == s.len() - 1 {
        assert(init[p] == s[p]);
        assert(init.contains(s[p]));
        assert(init.to_multiset().count(s[p]) >= 1);
    } else {
        assert(init[p] == s[p] && init[q] == s[q]);
        lemma_two_positions_count(init, p, q);
    }
}

proof fn lemma_count_two_positions(s: Seq<UserWord>, x: UserWord)
    requires
        s.to_multiset().count(x) >= 2,
    ensures
        exists|p: int, q: int| 0 <= p < q < s.len() && (#[trigger] s[p]).spec_normalized() == x.spec_normalized() && (#[trigger] s[q]).spec_normalized() == x.spec_normalized(),
    decreases s.len(),
{
    broadcast use vstd::seq_lib::group_to_multiset_ensures;

    let init = s.drop_last();
    assert(init.push(s.last()) =~= s);
    if s.last() == x {
        assert(init.to_multiset().count(x) >= 1);
        assert(init.contains(x));
        let p = choose|p: int| 0 <= p < init.len() && init[p] == x;
        assert(s[p] == x);
        assert(s[s.len() - 1] == x);
    } else {
        assert(init.to_multiset().count(x) >= 2);
        lemma_count_two_positions(init, x);
        let (p, q) = choose|p: int, q: int| 0 <= p < q < init.len() && (#[trigger] init[p]).spec_normalized() == x.spec_normalized() && (#[trigger] init[q]).spec_normalized() == x.spec_normalized();
        assert(s[p] == init[p] && s[q] == init[q]);
    }
}

/// In a sequence sorted by normalized identity whose neighbours differ, identities strictly
/// ascend.
/// In a sorted copy whose first `i` normalized terms are distinct and whose terms at `i - 1`
/// and `i` coincide, no duplicated normalized term of the original precedes the one at `i`.
proof fn lemma_reported_duplicate_is_least(original: Seq<UserWord>, sorted: Seq<UserWord>, i: int)
    requires
        0 < i < sorted.len(),
        spec_sorted(sorted),
        sorted.to_multiset() == original.to_multiset(),
        forall|k: int| 0 < k < i ==> sorted[k - 1].spec_normalized() != (#[trigger] sorted[k]).spec_normalized(),
    ensures
        forall|a: int, b: int|
            0 <= a < b < original.len() && (#[trigger] original[a]).spec_normalized()
                == (#[trigger] original[b]).spec_normalized() ==> spec_chars_le(
                sorted[i].spec_normalized(),
                original[a].spec_normalized(),
            ),
{
    broadcast use vstd::seq_lib::group_to_multiset_ensures;

    let t = sorted[i].spec_normalized();
    assert forall|a: int, b: int|
        0 <= a < b < original.len() && (#[trigger] original[a]).spec_normalized()
            == (#[trigger] original[b]).spec_normalized() implies spec_chars_le(t, original[a].spec_normalized()) by {
        let d = original[a].spec_normalized();
        lemma_chars_lt_trichotomy(d, t);
        if spec_chars_lt(d, t) {
            let x = original[a];
            let y = original[b];
            let (pa, pb): (int, int) = if x == y {
                lemma_two_positions_count(original, a, b);
                assert(sorted.to_multiset().count(x) >= 2);
                lemma_count_two_positions(sorted, x);
                choose|p: int, q: int| 0 <= p < q < sorted.len() && (#[trigger] sorted[p]).spec_normalized() == d && (#[trigger] sorted[q]).spec_normalized() == d
            } else {
                assert(original.to_multiset().count(x) > 0);
                assert(original.to_multiset().count(y) > 0);
                assert(sorted.contains(x));
                assert(sorted.contains(y));
                let px = choose|p: int| 0 <= p < sorted.len() && sorted[p] == x;
                let py = choose|p: int| 0 <= p < sorted.len() && sorted[p] == y;
                if px < py { (px, py) } else { (py, px) }
            };
            assert(pa < pb && sorted[pa].spec_normalized() == d && sorted[pb].spec_normalized() == d);
            if pb >= i {
                if pb > i {
                    assert(UserWord::spec_precedes(sorted[i], sorted[pb]));
                }
                lemma_chars_lt_trichotomy(d, t);
                lemma_chars_lt_irreflexive(d);
                assert(false);
            }
            let prefix = sorted.take(i);
            assert forall|k: int| 0 < k < prefix.len() implies prefix[k - 1].spec_normalized() != (#[trigger] prefix[k]).spec_normalized() by {
                assert(prefix[k] == sorted[k]);
                assert(prefix[k - 1] == sorted[k - 1]);
            }
            assert(spec_sorted(prefix)) by {
                assert forall|u: int, v: int| 0 <= u < v < prefix.len() implies UserWord::spec_precedes(prefix[u], prefix[v]) by {
                    assert(prefix[u] == sorted[u]);
                    assert(prefix[v] == sorted[v]);
                }
            }
            lemma_strict_from_adjacent(prefix, pa, pb);
            assert(prefix[pa] == sorted[pa]);
            assert(prefix[pb] == sorted[pb]);
            lemma_chars_lt_irreflexive(d);
        }
    }
}

proof fn lemma_strict_from_adjacent(s: Seq<UserWord>, a: int, b: int)
    requires
        spec_sorted(s),
        forall|k: int| 0 < k < s.len() ==> s[k - 1].spec_normalized() != (#[trigger] s[k]).spec_normalized(),
        0 <= a < b < s.len(),
    ensures
        spec_chars_lt(s[a].spec_normalized(), s[b].spec_normalized()),
    decreases b - a,
{
    assert(UserWord::spec_precedes(s[a], s[a + 1]));
    assert(s[a + 1 - 1].spec_normalized() != s[a + 1].spec_normalized());
    if b > a + 1 {
        lemma_strict_from_adjacent(s, a + 1, b);
        lemma_chars_lt_transitive(s[a].spec_normalized(), s[a + 1].spec_normalized(), s[b].spec_normalized());
    }
}

/// Two words of a valid vocabulary that each rank before the other are the same word: the
/// ranking is a strict total order on a lexicon's words.
proof fn lemma_ranking_antisymmetric(entries: Seq<UserWord>, x: UserWord, y: UserWord)
    requires
        spec_valid_vocabulary(entries),
        entries.contains(x),
        entries.contains(y),
        spec_ranks_before(x, y),
        spec_ranks_before(y, x),
    ensures
        x == y,
{
    lemma_chars_lt_trichotomy(x.spec_term(), y.spec_term());
    lemma_chars_lt_irreflexive(x.spec_normalized());
    let i = choose|i: int| 0 <= i < entries.len() && entries[i] == x;
    let j = choose|j: int| 0 <= j < entries.len() && entries[j] == y;
    assert(entries[i].spec_normalized() == spec_normalize(entries[i].spec_term()));
    assert(entries[j].spec_normalized() == spec_normalize(entries[j].spec_term()));
    if i < j {
        assert(spec_chars_lt(entries[i].spec_normalized(), entries[j].spec_normalized()));
    } else if j < i {
        assert(spec_chars_lt(entries[j].spec_normalized(), entries[i].spec_normalized()));
    }
}

/// Prefix completion is determined by the vocabulary, the normalized prefix and the limit: two
/// lists that both meet its conditions are the same list, the first `min(limit, matches)`
/// matching words in ranking order.
pub proof fn lemma_completion_list_unique(
    entries: Seq<UserWord>,
    np: Seq<char>,
    limit: int,
    r1: Seq<&UserWord>,
    r2: Seq<&UserWord>,
)
    requires
        spec_valid_vocabulary(entries),
        spec_completion_list(entries, np, limit, r1),
        spec_completion_list(entries, np, limit, r2),
    ensures
        r1 == r2,
{
    lemma_completion_lists_agree(entries, np, limit, r1, r2, 0);
    lemma_completion_lists_agree(entries, np, limit, r2, r1, 0);
    if r1.len() < r2.len() {
        lemma_extension_is_no_longer(entries, np, limit, r1, r2);
    } else if r2.len() < r1.len() {
        lemma_extension_is_no_longer(entries, np, limit, r2, r1);
    }
    assert(r1 =~= r2);
}

/// Two completion lists agree at every position both reach.
proof fn lemma_completion_lists_agree(
    entries: Seq<UserWord>,
    np: Seq<char>,
    limit: int,
    r1: Seq<&UserWord>,
    r2: Seq<&UserWord>,
    k: int,
)
    requires
        spec_valid_vocabulary(entries),
        spec_completion_list(entries, np, limit, r1),
        spec_completion_list(entries, np, limit, r2),
        0 <= k,
        forall|m: int| 0 <= m < k && m < r1.len() && m < r2.len() ==> r1[m] == r2[m],
    ensures
        forall|m: int| 0 <= m < r1.len() && m < r2.len() ==> r1[m] == r2[m],
    decreases r1.len() - k,
{
    if k < r1.len() && k < r2.len() {
        let x = r1[k];
        let y = r2[k];
        assert(entries.contains(*x));
        assert(entries.contains(*y));
        if x != y {
            // y is not among r1's first k words, which r2 lists before it
            assert forall|m: int| 0 <= m < k implies r1[m] != y by {
                assert(r2[m] != r2[k]);
            }
            // x is not among r2's first k words either
            assert forall|m: int| 0 <= m < k implies r2[m] != x by {
                assert(r1[m] != r1[k]);
            }
            let iy = choose|i: int| 0 <= i < entries.len() && entries[i] == *y;
            let ix = choose|i: int| 0 <= i < entries.len() && entries[i] == *x;
            if r1.contains(y) {
                let p = choose|p: int| 0 <= p < r1.len() && r1[p] == y;
                assert(p > k);
                assert(spec_ranks_before(*r1[k], *r1[p]));
            } else {
                assert(!r1.contains(&entries[iy]));
                assert(spec_ranks_before(*r1[k], entries[iy]));
            }
            if r2.contains(x) {
                let q = choose|q: int| 0 <= q < r2.len() && r2[q] == x;
                assert(q > k);
                assert(spec_ranks_before(*r2[k], *r2[q]));
            } else {
                assert(!r2.contains(&entries[ix]));
                assert(spec_ranks_before(*r2[k], entries[ix]));
            }
            lemma_ranking_antisymmetric(entries, *x, *y);
        }
        lemma_completion_lists_agree(entries, np, limit, r1, r2, k + 1);
    }
}

/// A completion list that another one extends is at least as long: otherwise it would leave
/// out a matching word without being full.
proof fn lemma_extension_is_no_longer(
    entries: Seq<UserWord>,
    np: Seq<char>,
    limit: int,
    short: Seq<&UserWord>,
    long: Seq<&UserWord>,
)
    requires
        spec_completion_list(entries, np, limit, short),
        spec_completion_list(entries, np, limit, long),
        forall|m: int| 0 <= m < short.len() && m < long.len() ==> short[m] == long[m],
    ensures
        long.len() <= short.len(),
{
    if short.len() < long.len() {
        let n = short.len() as int;
        let y = long[n];
        assert(entries.contains(*y));
        let iy = choose|i: int| 0 <= i < entries.len() && entries[i] == *y;
        assert forall|m: int| 0 <= m < n implies short[m] != y by {
            assert(long[m] != long[n]);
        }
        assert(!short.contains(&entries[iy]));
        assert(np.is_prefix_of(entries[iy].spec_normalized()));
    }
}

/// A lexicon's words do not depend on the order they were given in: two vocabularies that
/// ascend strictly by normalized identity and hold the same words are the same sequence, so
/// membership, exact lookup, completion and the largest use count all agree.
pub proof fn lemma_vocabulary_ignores_entry_order(a: Seq<UserWord>, b: Seq<UserWord>)
    requires
        spec_strictly_ascending(a),
        spec_strictly_ascending(b),
        a.to_multiset() == b.to_multiset(),
    ensures
        a == b,
    decreases a.len(),
{
    broadcast use vstd::seq_lib::group_to_multiset_ensures;

    if a.len() == 0 || b.len() == 0 {
        assert(a.to_multiset().len() == 0 && b.to_multiset().len() == 0);
        assert(a =~= b);
    } else {
        assert(b.to_multiset().count(a[0]) > 0);
        assert(a.to_multiset().count(b[0]) > 0);
        let j = choose|j: int| 0 <= j < b.len() && b[j] == a[0];
        let i = choose|i: int| 0 <= i < a.len() && a[i] == b[0];
        if i > 0 && j > 0 {
            assert(spec_chars_lt(a[0].spec_normalized(), a[i].spec_normalized()));
            assert(spec_chars_lt(b[0].spec_normalized(), b[j].spec_normalized()));
            lemma_chars_lt_transitive(a[0].spec_normalized(), b[0].spec_normalized(), a[0].spec_normalized());
            lemma_chars_lt_irreflexive(a[0].spec_normalized());
        }
        assert(a[0] == b[0]);
        assert(a.remove(0) =~= a.drop_first());
        assert(b.remove(0) =~= b.drop_first());
        assert(a.drop_first().to_multiset() =~= b.drop_first().to_multiset());
        lemma_vocabulary_ignores_entry_order(a.drop_first(), b.drop_first());
        assert(a =~= seq![a[0]] + a.drop_first());
        assert(b =~= seq![b[0]] + b.drop_first());
    }
}

/// The distinct words of `entries` whose normalized identity starts with `np`.
pub open spec fn spec_matching_words(entries: Seq<UserWord>, np: Seq<char>) -> Set<UserWord> {
    entries.to_set().filter(|w: UserWord| np.is_prefix_of(w.spec_normalized()))
}

/// A completion list holds exactly `min(limit, matches)` words: every matching word when there
/// are no more than the limit, and the limit's worth otherwise.
pub proof fn lemma_completion_list_length(entries: Seq<UserWord>, np: Seq<char>, limit: int, r: Seq<&UserWord>)
    requires
        spec_completion_list(entries, np, limit, r),
    ensures
        spec_matching_words(entries, np).finite(),
        r.len() == if limit <= spec_matching_words(entries, np).len() {
            limit
        } else {
            spec_matching_words(entries, np).len() as int
        },
{
    broadcast use vstd::seq_lib::seq_to_set_is_finite;

    let matching = spec_matching_words(entries, np);
    entries.to_set().lemma_len_filter(|w: UserWord| np.is_prefix_of(w.spec_normalized()));
    let listed = r.map_values(|p: &UserWord| *p);
    assert(listed.no_duplicates()) by {
        assert forall|a: int, b: int| 0 <= a < listed.len() && 0 <= b < listed.len() && a != b implies listed[a]
            != listed[b] by {
            if a < b {
                assert(r[a] != r[b]);
            } else {
                assert(r[b] != r[a]);
            }
        }
    }
    listed.unique_seq_to_set();
    assert(listed.to_set().subset_of(matching)) by {
        assert forall|w: UserWord| listed.to_set().contains(w) implies matching.contains(w) by {
            let m = choose|m: int| 0 <= m < listed.len() && listed[m] == w;
            assert(entries.contains(*r[m]));
        }
    }
    vstd::set_lib::lemma_len_subset(listed.to_set(), matching);
    if r.len() < limit {
        assert(matching.subset_of(listed.to_set())) by {
            assert forall|w: UserWord| matching.contains(w) implies listed.to_set().contains(w) by {
                let i = choose|i: int| 0 <= i < entries.len() && entries[i] == w;
                assert(np.is_prefix_of(entries[i].spec_normalized()));
                assert(r.contains(&entries[i]));
                let m = choose|m: int| 0 <= m < r.len() && r[m] == &entries[i];
                assert(listed[m] == w);
            }
        }
        vstd::set_lib::lemma_len_subset(matching, listed.to_set());
    }
}

} // verus!
