//! Symmetric-deletion index: a word is a typo candidate for an observed token when deleting at
//! most a few characters from each yields the same string. Lookups use a table of deletion forms
//! sorted lexicographically, so a query costs a binary search per form of the observed token.

use vstd::prelude::*;

use crate::order::{
    chars_order, lemma_chars_le_total, lemma_chars_le_transitive, lemma_chars_lt_irreflexive,
    lemma_chars_lt_transitive, lemma_chars_lt_trichotomy, sort_ranked, spec_chars_le,
    spec_chars_lt, spec_sorted, Ranked,
};
use crate::text::chars_eq;

verus! {

/// Deletion forms are generated for at most this many deleted characters.
pub const MAX_INDEX_DELETIONS: usize = 2;

/// `form` is `word` with at most `k` characters deleted (`k` is capped at two).
pub open spec fn spec_is_deletion_form(word: Seq<char>, form: Seq<char>, k: nat) -> bool {
    ||| form == word
    ||| (k >= 1 && exists|i: int| 0 <= i < word.len() && form == word.remove(i))
    ||| (k >= 2 && exists|i: int, j: int| 0 <= i < j < word.len() && form == word.remove(j).remove(i))
}

/// `word` and `observed` share a deletion form: at most `k_observed` deletions from the
/// observed text and at most `k_word` deletions from the word.
pub open spec fn spec_shares_form(observed: Seq<char>, word: Seq<char>, k_observed: nat, k_word: nat) -> bool {
    exists|f: Seq<char>| spec_is_deletion_form(observed, f, k_observed) && spec_is_deletion_form(word, f, k_word)
}

/// Some element of `s` holds the characters `f`.
pub open spec fn spec_has_form(s: Seq<Vec<char>>, f: Seq<char>) -> bool {
    exists|k: int| 0 <= k < s.len() && (#[trigger] s[k])@ == f
}

/// No two elements of `s` hold the same characters.
pub open spec fn spec_distinct_forms(s: Seq<Vec<char>>) -> bool {
    forall|a: int, b: int| 0 <= a < b < s.len() ==> (#[trigger] s[a])@ != (#[trigger] s[b])@
}

pub open spec fn spec_min(a: nat, b: nat) -> nat {
    if a <= b { a } else { b }
}

fn without_one(word: &[char], i: usize) -> (r: Vec<char>)
    requires
        i < word.len(),
    ensures
        r@ == word@.remove(i as int),
{
    let mut out: Vec<char> = Vec::new();
    let mut k: usize = 0;
    while k < word.len()
        invariant
            k <= word.len(),
            i < word.len(),
            k <= i ==> out@ == word@.take(k as int),
            k > i ==> out@ == word@.take(k as int).remove(i as int),
        decreases word.len() - k,
    {
        let ghost before = out@;
        if k != i {
            out.push(word[k]);
        }
        proof {
            let t = word@.take(k as int);
            let t1 = word@.take(k + 1);
            assert(t1 =~= t.push(word@[k as int]));
            if k < i {
                assert(out@ =~= t1);
            } else if k == i {
                assert(t1.remove(i as int) =~= t);
            } else {
                assert(t1.remove(i as int) =~= t.remove(i as int).push(word@[k as int]));
            }
        }
        k = k + 1;
    }
    assert(word@.take(word.len() as int) =~= word@);
    out
}

/// Appends `form` unless an equal form is already present.
fn push_unique(out: &mut Vec<Vec<char>>, form: Vec<char>)
    ensures
        forall|x: Seq<char>| #[trigger] spec_has_form(final(out)@, x) <==> (spec_has_form(old(out)@, x) || x == form@),
        spec_distinct_forms(old(out)@) ==> spec_distinct_forms(final(out)@),
{
    let mut i: usize = 0;
    while i < out.len()
        invariant
            i <= out.len(),
            forall|j: int| 0 <= j < i ==> out@[j]@ != form@,
        decreases out.len() - i,
    {
        if chars_eq(out[i].as_slice(), form.as_slice()) {
            return;
        }
        i = i + 1;
    }
    let ghost before = out@;
    out.push(form);
    proof {
        assert forall|x: Seq<char>| #[trigger] spec_has_form(out@, x) <==> (spec_has_form(before, x) || x == form@) by {
            if spec_has_form(out@, x) {
                let k = choose|k: int| 0 <= k < out@.len() && out@[k]@ == x;
                if k < before.len() {
                    assert(before[k]@ == x);
                }
            }
            if spec_has_form(before, x) {
                let k = choose|k: int| 0 <= k < before.len() && before[k]@ == x;
                assert(out@[k]@ == x);
            }
            if x == form@ {
                assert(out@[before.len() as int]@ == x);
            }
        }
    }
}

/// All distinct deletion forms of `word` with at most `k` deletions (`k` capped at two).
pub fn deletion_forms(word: &[char], k: usize) -> (r: Vec<Vec<char>>)
    ensures
        forall|f: Seq<char>| spec_has_form(r@, f) <==> spec_is_deletion_form(
            word@,
            f,
            k as nat,
        ),
        spec_distinct_forms(r@),
{
    let mut out: Vec<Vec<char>> = Vec::new();
    let mut whole: Vec<char> = Vec::new();
    let mut c: usize = 0;
    while c < word.len()
        invariant
            c <= word.len(),
            whole@ == word@.take(c as int),
        decreases word.len() - c,
    {
        whole.push(word[c]);
        assert(word@.take(c + 1) =~= word@.take(c as int).push(word@[c as int]));
        c = c + 1;
    }
    assert(word@.take(word.len() as int) =~= word@);
    push_unique(&mut out, whole);
    if k >= 1 {
        let mut i: usize = 0;
        while i < word.len()
            invariant
                i <= word.len(),
                k >= 1,
                spec_distinct_forms(out@),
                forall|f: Seq<char>| spec_has_form(out@, f) <==> (f == word@ || exists|a: int| 0 <= a < i && f == word@.remove(a)),
            decreases word.len() - i,
        {
            let form = without_one(word, i);
            push_unique(&mut out, form);
            proof {
                assert forall|f: Seq<char>| spec_has_form(out@, f) <==> (f == word@ || exists|a: int| 0 <= a < i + 1 && f == word@.remove(a)) by {
                    if f == word@.remove(i as int) {
                    }
                    if exists|a: int| 0 <= a < i + 1 && f == word@.remove(a) {
                        let a = choose|a: int| 0 <= a < i + 1 && f == word@.remove(a);
                        if a < i {
                        }
                    }
                }
            }
            i = i + 1;
        }
    }
    if k >= 2 {
        let mut j: usize = 0;
        while j < word.len()
            invariant
                j <= word.len(),
                k >= 2,
                spec_distinct_forms(out@),
                forall|f: Seq<char>| spec_has_form(out@, f) <==> (f == word@ || (exists|a: int| 0 <= a < word.len() && f == word@.remove(a)) || exists|a: int, b: int| 0 <= a < b < j && f == word@.remove(b).remove(a)),
            decreases word.len() - j,
        {
            let without_j = without_one(word, j);
            let mut i: usize = 0;
            while i < j
                invariant
                    i <= j,
                    j < word.len(),
                    without_j@ == word@.remove(j as int),
                    spec_distinct_forms(out@),
                    forall|f: Seq<char>| spec_has_form(out@, f) <==> (f == word@ || (exists|a: int| 0 <= a < word.len() && f == word@.remove(a)) || (exists|a: int, b: int| 0 <= a < b < j && f == word@.remove(b).remove(a)) || exists|a: int| 0 <= a < i && f == word@.remove(j as int).remove(a)),
                decreases j - i,
            {
                let form = without_one(without_j.as_slice(), i);
                push_unique(&mut out, form);
                proof {
                    assert forall|f: Seq<char>| spec_has_form(out@, f) <==> (f == word@ || (exists|a: int| 0 <= a < word.len() && f == word@.remove(a)) || (exists|a: int, b: int| 0 <= a < b < j && f == word@.remove(b).remove(a)) || exists|a: int| 0 <= a < i + 1 && f == word@.remove(j as int).remove(a)) by {
                        if exists|a: int| 0 <= a < i + 1 && f == word@.remove(j as int).remove(a) {
                            let a = choose|a: int| 0 <= a < i + 1 && f == word@.remove(j as int).remove(a);
                            if a < i {
                            }
                        }
                    }
                }
                i = i + 1;
            }
            proof {
                assert forall|f: Seq<char>| spec_has_form(out@, f) <==> (f == word@ || (exists|a: int| 0 <= a < word.len() && f == word@.remove(a)) || exists|a: int, b: int| 0 <= a < b < j + 1 && f == word@.remove(b).remove(a)) by {
                    if exists|a: int, b: int| 0 <= a < b < j + 1 && f == word@.remove(b).remove(a) {
                        let (a, b) = choose|a: int, b: int| 0 <= a < b < j + 1 && f == word@.remove(b).remove(a);
                        if b < j {
                        } else {
                            assert(exists|a2: int| 0 <= a2 < i && f == word@.remove(j as int).remove(a2));
                        }
                    }
                }
            }
            j = j + 1;
        }
    }
    out
}

/// One row of the index: a deletion form of the term at `index`.
#[derive(Debug)]
pub struct FormEntry {
    pub form: Vec<char>,
    pub index: usize,
}

impl Ranked for FormEntry {
    open spec fn spec_precedes(a: Self, b: Self) -> bool {
        spec_chars_le(a.form@, b.form@)
    }

    proof fn lemma_precedes_total(a: Self, b: Self) {
        lemma_chars_le_total(a.form@, b.form@);
    }

    proof fn lemma_precedes_transitive(a: Self, b: Self, c: Self) {
        lemma_chars_le_transitive(a.form@, b.form@, c.form@);
    }

    fn precedes(&self, other: &Self) -> (r: bool) {
        chars_order(self.form.as_slice(), other.form.as_slice()) <= 0
    }
}

/// Ascending indices, each at most once.
#[derive(Debug, Clone, Copy)]
pub struct IndexRank(pub usize);

impl Ranked for IndexRank {
    open spec fn spec_precedes(a: Self, b: Self) -> bool {
        a.0 <= b.0
    }

    proof fn lemma_precedes_total(a: Self, b: Self) {
    }

    proof fn lemma_precedes_transitive(a: Self, b: Self, c: Self) {
    }

    fn precedes(&self, other: &Self) -> (r: bool) {
        self.0 <= other.0
    }
}

pub proof fn lemma_le_lt(a: Seq<char>, b: Seq<char>, c: Seq<char>)
    requires
        spec_chars_le(a, b),
        spec_chars_lt(b, c),
    ensures
        spec_chars_lt(a, c),
{
    if a != b {
        lemma_chars_lt_transitive(a, b, c);
    }
}

pub proof fn lemma_lt_le(a: Seq<char>, b: Seq<char>, c: Seq<char>)
    requires
        spec_chars_lt(a, b),
        spec_chars_le(b, c),
    ensures
        spec_chars_lt(a, c),
{
    if b != c {
        lemma_chars_lt_transitive(a, b, c);
    }
}

pub open spec fn spec_ranks_contain(s: Seq<IndexRank>, x: usize) -> bool {
    exists|m: int| 0 <= m < s.len() && (#[trigger] s[m]).0 == x
}

pub open spec fn spec_row_found(rows: Seq<FormEntry>, forms: Seq<Vec<char>>, q: int, x: usize) -> bool {
    exists|p: int, n: int|
        0 <= p < q && 0 <= n < rows.len() && (#[trigger] rows[n]).form@ == (#[trigger] forms[p])@
            && rows[n].index == x
}

/// The deletion-form table of a list of terms.
#[derive(Debug)]
pub struct DeleteIndex {
    max_deletions: usize,
    forms: Vec<FormEntry>,
}

impl DeleteIndex {
    /// The index holds exactly the deletion forms of `terms`, sorted by form.
    pub closed spec fn indexes(&self, terms: Seq<Seq<char>>) -> bool {
        &&& spec_sorted(self.forms@)
        &&& forall|k: int| 0 <= k < self.forms@.len() ==> (#[trigger] self.forms@[k]).index
            < terms.len() && spec_is_deletion_form(
            terms[self.forms@[k].index as int],
            self.forms@[k].form@,
            self.max_deletions as nat,
        )
        &&& forall|i: int, f: Seq<char>|
            0 <= i < terms.len() && #[trigger] spec_is_deletion_form(terms[i], f, self.max_deletions as nat)
                ==> exists|k: int| 0 <= k < self.forms@.len() && (#[trigger] self.forms@[k]).form@ == f
                && self.forms@[k].index == i
    }

    pub closed spec fn spec_max_deletions(&self) -> nat {
        self.max_deletions as nat
    }

    /// Indexes every deletion form (at most `max_deletions` deletions) of every term.
    pub fn build(terms: &Vec<Vec<char>>, max_deletions: usize) -> (r: Self)
        ensures
            r.indexes(terms@.map_values(|t: Vec<char>| t@)),
            r.spec_max_deletions() == max_deletions,
    {
        let ghost views = terms@.map_values(|t: Vec<char>| t@);
        let mut rows: Vec<FormEntry> = Vec::new();
        let mut i: usize = 0;
        while i < terms.len()
            invariant
                i <= terms.len(),
                views == terms@.map_values(|t: Vec<char>| t@),
                forall|k: int| 0 <= k < rows@.len() ==> (#[trigger] rows@[k]).index < i
                    && spec_is_deletion_form(views[rows@[k].index as int], rows@[k].form@, max_deletions as nat),
                forall|a: int, f: Seq<char>|
                    0 <= a < i && #[trigger] spec_is_deletion_form(views[a], f, max_deletions as nat)
                        ==> exists|k: int| 0 <= k < rows@.len() && (#[trigger] rows@[k]).form@ == f
                        && rows@[k].index == a,
            decreases terms.len() - i,
        {
            let forms = deletion_forms(terms[i].as_slice(), max_deletions);
            let ghost start = rows@.len();
            let ghost rows_before = rows@;
            let mut q: usize = 0;
            while q < forms.len()
                invariant
                    q <= forms.len(),
                    i < terms.len(),
                    views == terms@.map_values(|t: Vec<char>| t@),
                    rows@.len() == start + q,
                    forall|k: int| 0 <= k < start ==> rows@[k] == rows_before[k],
                    forall|k: int| 0 <= k < q ==> (#[trigger] rows@[start + k]).form@ == forms@[k]@
                        && rows@[start + k].index == i,
                    forall|k: int| 0 <= k < rows@.len() ==> (#[trigger] rows@[k]).index <= i
                        && spec_is_deletion_form(views[rows@[k].index as int], rows@[k].form@, max_deletions as nat),
                    forall|f: Seq<char>| spec_has_form(forms@, f) <==> spec_is_deletion_form(terms@[i as int]@, f, max_deletions as nat),
                decreases forms.len() - q,
            {
                let mut copy: Vec<char> = Vec::new();
                let mut c: usize = 0;
                while c < forms[q].len()
                    invariant
                        c <= forms@[q as int]@.len(),
                        q < forms.len(),
                        copy@ == forms@[q as int]@.take(c as int),
                    decreases forms@[q as int]@.len() - c,
                {
                    copy.push(forms[q][c]);
                    assert(forms@[q as int]@.take(c + 1) =~= forms@[q as int]@.take(c as int).push(forms@[q as int]@[c as int]));
                    c = c + 1;
                }
                assert(forms@[q as int]@.take(c as int) =~= forms@[q as int]@);
                proof {
                    assert(spec_has_form(forms@, forms@[q as int]@));
                    assert(views[i as int] == terms@[i as int]@);
                }
                rows.push(FormEntry { form: copy, index: i });
                q = q + 1;
            }
            proof {
                assert forall|a: int, f: Seq<char>|
                    0 <= a < i + 1 && #[trigger] spec_is_deletion_form(views[a], f, max_deletions as nat)
                        implies exists|k: int| 0 <= k < rows@.len() && (#[trigger] rows@[k]).form@ == f
                        && rows@[k].index == a by {
                    if a < i {
                        let k = choose|k: int| 0 <= k < rows_before.len() && (#[trigger] rows_before[k]).form@ == f
                            && rows_before[k].index == a;
                        assert(rows@[k] == rows_before[k]);
                    } else {
                        assert(views[a] == terms@[i as int]@);
                        assert(spec_has_form(forms@, f));
                        let q2 = choose|q2: int| 0 <= q2 < forms@.len() && (#[trigger] forms@[q2])@ == f;
                        assert(rows@[start + q2].form@ == forms@[q2]@);
                    }
                }
            }
            i = i + 1;
        }
        let ghost unsorted = rows@;
        let sorted = sort_ranked(rows);
        proof {
            broadcast use vstd::seq_lib::group_to_multiset_ensures;

            assert forall|k: int| 0 <= k < sorted@.len() implies (#[trigger] sorted@[k]).index
                < views.len() && spec_is_deletion_form(views[sorted@[k].index as int], sorted@[k].form@, max_deletions as nat) by {
                assert(sorted@.contains(sorted@[k]));
                assert(sorted@.to_multiset().count(sorted@[k]) > 0);
                assert(unsorted.contains(sorted@[k]));
                let m = choose|m: int| 0 <= m < unsorted.len() && unsorted[m] == sorted@[k];
                assert(unsorted[m].index < terms.len());
            }
            assert forall|a: int, f: Seq<char>|
                0 <= a < views.len() && #[trigger] spec_is_deletion_form(views[a], f, max_deletions as nat)
                    implies exists|k: int| 0 <= k < sorted@.len() && (#[trigger] sorted@[k]).form@ == f
                    && sorted@[k].index == a by {
                let m = choose|m: int| 0 <= m < unsorted.len() && (#[trigger] unsorted[m]).form@ == f
                    && unsorted[m].index == a;
                assert(unsorted.contains(unsorted[m]));
                assert(unsorted.to_multiset().count(unsorted[m]) > 0);
                assert(sorted@.contains(unsorted[m]));
                let k = choose|k: int| 0 <= k < sorted@.len() && sorted@[k] == unsorted[m];
                assert(sorted@[k].form@ == f);
            }
        }
        DeleteIndex { max_deletions, forms: sorted }
    }

    /// The first row whose form is not below `f`.
    fn lower_bound(&self, f: &Vec<char>) -> (r: usize)
        requires
            spec_sorted(self.forms@),
        ensures
            r <= self.forms@.len(),
            forall|k: int| 0 <= k < r ==> spec_chars_lt((#[trigger] self.forms@[k]).form@, f@),
            forall|k: int| r <= k < self.forms@.len() ==> !spec_chars_lt((#[trigger] self.forms@[k]).form@, f@),
    {
        let mut lo: usize = 0;
        let mut hi: usize = self.forms.len();
        while lo < hi
            invariant
                lo <= hi <= self.forms@.len(),
                spec_sorted(self.forms@),
                forall|k: int| 0 <= k < lo ==> spec_chars_lt((#[trigger] self.forms@[k]).form@, f@),
                forall|k: int| hi <= k < self.forms@.len() ==> !spec_chars_lt((#[trigger] self.forms@[k]).form@, f@),
            decreases hi - lo,
        {
            let mid = lo + (hi - lo) / 2;
            if chars_order(self.forms[mid].form.as_slice(), f.as_slice()) < 0 {
                proof {
                    assert forall|k: int| 0 <= k < mid + 1 implies spec_chars_lt((#[trigger] self.forms@[k]).form@, f@) by {
                        if k < mid {
                            assert(FormEntry::spec_precedes(self.forms@[k], self.forms@[mid as int]));
                            lemma_le_lt(self.forms@[k].form@, self.forms@[mid as int].form@, f@);
                        }
                    }
                }
                lo = mid + 1;
            } else {
                proof {
                    assert forall|k: int| mid <= k < self.forms@.len() implies !spec_chars_lt((#[trigger] self.forms@[k]).form@, f@) by {
                        if k > mid {
                            assert(FormEntry::spec_precedes(self.forms@[mid as int], self.forms@[k]));
                            if spec_chars_lt(self.forms@[k].form@, f@) {
                                lemma_le_lt(self.forms@[mid as int].form@, self.forms@[k].form@, f@);
                            }
                        }
                    }
                }
                hi = mid;
            }
        }
        lo
    }

    /// The indices of the terms that share a deletion form with `observed` (at most
    /// `max_deletions` deletions from `observed`, capped by the index's own limit), ascending and
    /// each at most once.
    pub fn candidate_indices(&self, observed: &[char], max_deletions: usize, Ghost(terms): Ghost<Seq<Seq<char>>>) -> (r: Vec<usize>)
        requires
            self.indexes(terms),
        ensures
            forall|i: int| 0 <= i < r@.len() ==> #[trigger] r@[i] < terms.len(),
            forall|a: int, b: int| 0 <= a < b < r@.len() ==> #[trigger] r@[a] < #[trigger] r@[b],
            forall|i: usize| r@.contains(i) <==> (i < terms.len() && spec_shares_form(
                observed@,
                terms[i as int],
                spec_min(max_deletions as nat, self.spec_max_deletions()),
                self.spec_max_deletions(),
            )),
    {
        let k = if max_deletions < self.max_deletions { max_deletions } else { self.max_deletions };
        let forms = deletion_forms(observed, k);
        let mut found: Vec<IndexRank> = Vec::new();
        let mut q: usize = 0;
        while q < forms.len()
            invariant
                q <= forms.len(),
                self.indexes(terms),
                k as nat == spec_min(max_deletions as nat, self.spec_max_deletions()),
                forall|f: Seq<char>| spec_has_form(forms@, f) <==> spec_is_deletion_form(observed@, f, k as nat),
                forall|x: usize| spec_ranks_contain(found@, x)
                    <==> spec_row_found(self.forms@, forms@, q as int, x),
            decreases forms.len() - q,
        {
            let lo = self.lower_bound(&forms[q]);
            let mut p: usize = lo;
            let ghost found_before = found@;
            assert(forall|x: usize| spec_ranks_contain(found_before, x) <==> spec_row_found(self.forms@, forms@, q as int, x));
            while p < self.forms.len() && chars_eq(self.forms[p].form.as_slice(), forms[q].as_slice())
                invariant
                    lo <= p <= self.forms@.len(),
                    q < forms.len(),
                    found@.len() == found_before.len() + (p - lo),
                    forall|m: int| 0 <= m < found_before.len() ==> found@[m] == found_before[m],
                    forall|m: int| lo <= m < p ==> (#[trigger] self.forms@[m]).form@ == forms@[q as int]@
                        && found@[found_before.len() + m - lo].0 == self.forms@[m].index,
                decreases self.forms@.len() - p,
            {
                found.push(IndexRank(self.forms[p].index));
                p = p + 1;
            }
            proof {
                let f = forms@[q as int]@;
                // Rows whose form is `f` are exactly those in [lo, p).
                assert forall|n: int| 0 <= n < self.forms@.len() && (#[trigger] self.forms@[n]).form@ == f
                    implies lo <= n < p by {
                    if n < lo {
                        lemma_chars_lt_irreflexive(f);
                    } else if n >= p {
                        assert(p < self.forms@.len());
                        assert(self.forms@[p as int].form@ != f);
                        assert(!spec_chars_lt(self.forms@[p as int].form@, f));
                        lemma_chars_lt_trichotomy(self.forms@[p as int].form@, f);
                        if n > p {
                            assert(FormEntry::spec_precedes(self.forms@[p as int], self.forms@[n]));
                            lemma_lt_le(f, self.forms@[p as int].form@, self.forms@[n].form@);
                        }
                        lemma_chars_lt_irreflexive(f);
                    }
                }
                assert forall|x: usize| spec_ranks_contain(found@, x)
                    <==> spec_row_found(self.forms@, forms@, q + 1, x) by {
                    if spec_ranks_contain(found@, x) {
                        let m = choose|m: int| 0 <= m < found@.len() && (#[trigger] found@[m]).0 == x;
                        if m < found_before.len() {
                            assert(found_before[m].0 == x);
                            assert(spec_ranks_contain(found_before, x));
                            assert(spec_row_found(self.forms@, forms@, q as int, x));
                            let (p2, n) = choose|p2: int, n: int| 0 <= p2 < q && 0 <= n < self.forms@.len()
                                && (#[trigger] self.forms@[n]).form@ == (#[trigger] forms@[p2])@ && self.forms@[n].index == x;
                            assert(self.forms@[n].form@ == forms@[p2]@);
                        } else {
                            let n = m - found_before.len() + lo;
                            assert(lo <= n < p);
                            assert(self.forms@[n].form@ == forms@[q as int]@);
                            assert(found@[found_before.len() + n - lo].0 == self.forms@[n].index);
                        }
                    }
                    if spec_row_found(self.forms@, forms@, q + 1, x) {
                        let (p2, n) = choose|p2: int, n: int| 0 <= p2 < q + 1 && 0 <= n < self.forms@.len()
                            && (#[trigger] self.forms@[n]).form@ == (#[trigger] forms@[p2])@ && self.forms@[n].index == x;
                        if p2 < q {
                            assert(self.forms@[n].form@ == forms@[p2]@);
                            assert(spec_row_found(self.forms@, forms@, q as int, x));
                            assert(spec_ranks_contain(found_before, x));
                            let m = choose|m: int| 0 <= m < found_before.len() && (#[trigger] found_before[m]).0 == x;
                            assert(found@[m].0 == x);
                        } else {
                            assert(self.forms@[n].form@ == forms@[q as int]@);
                            assert(lo <= n < p);
                            let m = found_before.len() + n - lo;
                            assert(found@[m].0 == x);
                        }
                    }
                }
            }
            q = q + 1;
        }
        let sorted = sort_ranked(found);
        let ghost found_all = found@;
        let mut out: Vec<usize> = Vec::new();
        let mut m: usize = 0;
        while m < sorted.len()
            invariant
                m <= sorted@.len(),
                spec_sorted(sorted@),
                forall|a: int, b: int| 0 <= a < b < out@.len() ==> #[trigger] out@[a] < #[trigger] out@[b],
                forall|x: usize| out@.contains(x) <==> exists|n: int| 0 <= n < m && (#[trigger] sorted@[n]).0 == x,
                out@.len() > 0 ==> m > 0 && out@.last() == sorted@[m - 1].0,
            decreases sorted@.len() - m,
        {
            let x = sorted[m].0;
            if out.len() == 0 || out[out.len() - 1] != x {
                proof {
                    if out@.len() > 0 {
                        assert(IndexRank::spec_precedes(sorted@[m - 1], sorted@[m as int]));
                    }
                }
                let ghost before = out@;
                out.push(x);
                proof {
                    assert forall|y: usize| out@.contains(y) <==> exists|n: int| 0 <= n < m + 1 && (#[trigger] sorted@[n]).0 == y by {
                        if out@.contains(y) {
                            let i = choose|i: int| 0 <= i < out@.len() && out@[i] == y;
                            if i < before.len() {
                                assert(before.contains(y));
                            }
                        }
                        if exists|n: int| 0 <= n < m + 1 && (#[trigger] sorted@[n]).0 == y {
                            let n = choose|n: int| 0 <= n < m + 1 && (#[trigger] sorted@[n]).0 == y;
                            if n < m {
                                assert(before.contains(y));
                                let i = choose|i: int| 0 <= i < before.len() && before[i] == y;
                                assert(out@[i] == y);
                            } else {
                                assert(out@[before.len() as int] == y);
                            }
                        }
                    }
                }
            } else {
                proof {
                    assert forall|y: usize| out@.contains(y) <==> exists|n: int| 0 <= n < m + 1 && (#[trigger] sorted@[n]).0 == y by {
                        if exists|n: int| 0 <= n < m + 1 && (#[trigger] sorted@[n]).0 == y {
                            let n = choose|n: int| 0 <= n < m + 1 && (#[trigger] sorted@[n]).0 == y;
                            if n == m {
                                assert(out@[out@.len() - 1] == y);
                            }
                        }
                    }
                }
            }
            m = m + 1;
        }
        proof {
            broadcast use vstd::seq_lib::group_to_multiset_ensures;

            assert forall|x: usize| out@.contains(x) <==> (x < terms.len() && spec_shares_form(
                observed@,
                terms[x as int],
                k as nat,
                self.spec_max_deletions(),
            )) by {
                if out@.contains(x) {
                    let n = choose|n: int| 0 <= n < sorted@.len() && (#[trigger] sorted@[n]).0 == x;
                    assert(sorted@.contains(sorted@[n]));
                    assert(sorted@.to_multiset().count(sorted@[n]) > 0);
                    assert(found_all.contains(sorted@[n]));
                    let m2 = choose|m2: int| 0 <= m2 < found_all.len() && found_all[m2] == sorted@[n];
                    assert(found_all[m2].0 == x);
                    assert(spec_ranks_contain(found_all, x));
                    assert(spec_row_found(self.forms@, forms@, forms@.len() as int, x));
                    let (p2, n2) = choose|p2: int, n2: int| 0 <= p2 < forms@.len() && 0 <= n2 < self.forms@.len()
                        && (#[trigger] self.forms@[n2]).form@ == (#[trigger] forms@[p2])@ && self.forms@[n2].index == x;
                    assert(spec_has_form(forms@, forms@[p2]@));
                    let f = forms@[p2]@;
                    assert(spec_is_deletion_form(observed@, f, k as nat));
                    assert(self.forms@[n2].index < terms.len());
                    assert(spec_is_deletion_form(terms[x as int], f, self.max_deletions as nat));
                }
                if x < terms.len() && spec_shares_form(observed@, terms[x as int], k as nat, self.spec_max_deletions()) {
                    let f = choose|f: Seq<char>| spec_is_deletion_form(observed@, f, k as nat)
                        && spec_is_deletion_form(terms[x as int], f, self.spec_max_deletions());
                    assert(spec_has_form(forms@, f));
                    let p2 = choose|p2: int| 0 <= p2 < forms@.len() && (#[trigger] forms@[p2])@ == f;
                    let n2 = choose|n2: int| 0 <= n2 < self.forms@.len() && (#[trigger] self.forms@[n2]).form@ == f
                        && self.forms@[n2].index == x as int;
                    assert(self.forms@[n2].form@ == forms@[p2]@);
                    assert(spec_row_found(self.forms@, forms@, forms@.len() as int, x));
                    assert(spec_ranks_contain(found_all, x));
                    let m2 = choose|m2: int| 0 <= m2 < found_all.len() && (#[trigger] found_all[m2]).0 == x;
                    assert(found_all.contains(found_all[m2]));
                    assert(found_all.to_multiset().count(found_all[m2]) > 0);
                    assert(sorted@.contains(found_all[m2]));
                    let n = choose|n: int| 0 <= n < sorted@.len() && sorted@[n] == found_all[m2];
                    assert(sorted@[n].0 == x);
                }
            }
            assert forall|i: int| 0 <= i < out@.len() implies #[trigger] out@[i] < terms.len() by {
                assert(out@.contains(out@[i]));
            }
        }
        out
    }
}

} // verus!
