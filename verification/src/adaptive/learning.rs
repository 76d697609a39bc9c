//! Which observed words join the learned vocabulary: typed tokens the corrector kept, and words
//! of copied text the same corrector would keep; either only when it is already learned, or is
//! no dictionary word and holds a letter.

use vstd::prelude::*;

use crate::correction::correction_engine::{decide_among_candidates, Confidence, CorrectionDecision};
use crate::correction::decision_laws::{lemma_lexical_decision, spec_lexical_keeps};
use crate::correction::lexical_provider::{
    spec_leading, spec_trailing, LexicalCorrectionProvider, LexicalSnapshot,
};
use crate::input::{Boundary, CompletedToken, PhysicalKey};
use crate::language::language_pack::spec_has_word;
use crate::language::normalize::{normalize_chars, spec_normalize};
use crate::text::{char_is_alphabetic, char_is_alphanumeric, chars_of, is_alphabetic, is_alphanumeric, string_from_chars};

verus! {

/// A word is learned when it normalizes to something and is already learned (its use is
/// counted), or when no dictionary holds it and it has a letter.
pub open spec fn spec_should_record(
    token: Seq<char>,
    snapshot: LexicalSnapshot,
) -> bool {
    let normalized = spec_normalize(token);
    let user = snapshot.spec_user_lexicon();
    let languages = snapshot.spec_languages();
    if normalized.len() == 0 {
        false
    } else if exists|i: int|
        0 <= i < user.spec_entries().len() && (#[trigger] user.spec_entries()[i]).spec_normalized()
            == normalized {
        true
    } else if exists|l: int| 0 <= l < languages.len() && spec_has_word((#[trigger] languages[l]).spec_entries(), normalized) {
        false
    } else {
        exists|i: int| 0 <= i < token.len() && char_is_alphabetic(#[trigger] token[i])
    }
}

pub fn should_record_user_word(token: &str, snapshot: &LexicalSnapshot) -> (r: bool)
    ensures
        r == spec_should_record(token@, *snapshot),
{
    let chars = chars_of(token);
    let normalized = normalize_chars(chars.as_slice());
    if normalized.len() == 0 {
        return false;
    }
    let text = string_from_chars(normalized.as_slice());
    if snapshot.user_lexicon().contains_normalized(text.as_str()) {
        return true;
    }
    let languages = snapshot.languages();
    let mut l: usize = 0;
    while l < languages.len()
        invariant
            l <= languages@.len(),
            languages@ == snapshot.spec_languages(),
            text@ == spec_normalize(token@),
            spec_normalize(token@).len() > 0,
            !exists|i: int| 0 <= i < snapshot.spec_user_lexicon().spec_entries().len() && (#[trigger] snapshot.spec_user_lexicon().spec_entries()[i]).spec_normalized() == text@,
            forall|k: int| 0 <= k < l ==> !spec_has_word((#[trigger] languages@[k]).spec_entries(), text@),
        decreases languages@.len() - l,
    {
        if languages[l].contains_normalized(text.as_str()) {
            assert(spec_has_word(languages@[l as int].spec_entries(), text@));
            return false;
        }
        l = l + 1;
    }
    let mut i: usize = 0;
    while i < chars.len()
        invariant
            i <= chars@.len(),
            chars@ == token@,
            text@ == spec_normalize(token@),
            spec_normalize(token@).len() > 0,
            !exists|j: int| 0 <= j < snapshot.spec_user_lexicon().spec_entries().len() && (#[trigger] snapshot.spec_user_lexicon().spec_entries()[j]).spec_normalized() == text@,
            forall|k: int| 0 <= k < languages@.len() ==> !spec_has_word((#[trigger] languages@[k]).spec_entries(), text@),
            languages@ == snapshot.spec_languages(),
            forall|k: int| 0 <= k < i ==> !char_is_alphabetic(#[trigger] chars@[k]),
        decreases chars@.len() - i,
    {
        if is_alphabetic(chars[i]) {
            return true;
        }
        i = i + 1;
    }
    false
}

/// Characters that can be part of a learned word.
pub open spec fn spec_is_word_char(c: char) -> bool {
    char_is_alphanumeric(c) || c == '_' || c == '-' || c == '\'' || c == '\u{2019}'
}

/// Characters trimmed from the ends of a learned word.
pub open spec fn spec_is_trim_char(c: char) -> bool {
    c == '_' || c == '-' || c == '\'' || c == '\u{2019}'
}

/// The pieces of a text between non-word characters (empty pieces included).
pub open spec fn spec_pieces(s: Seq<char>) -> Seq<Seq<char>>
    decreases s.len(),
{
    if s.len() == 0 {
        seq![Seq::empty()]
    } else {
        let before = spec_pieces(s.drop_last());
        if spec_is_word_char(s.last()) {
            before.update(before.len() - 1, before.last().push(s.last()))
        } else {
            before.push(Seq::empty())
        }
    }
}

/// A piece without its leading and trailing trim characters.
pub open spec fn spec_trim(piece: Seq<char>) -> Seq<char> {
    let edges = Seq::new(piece.len(), |i: int| spec_is_trim_char(piece[i]));
    let start = spec_leading(edges);
    if start >= piece.len() {
        Seq::empty()
    } else {
        piece.subrange(start as int, piece.len() - spec_trailing(edges))
    }
}

/// The trimmed, non-empty pieces, in order.
pub open spec fn spec_trimmed_tokens(pieces: Seq<Seq<char>>) -> Seq<Seq<char>>
    decreases pieces.len(),
{
    if pieces.len() == 0 {
        Seq::empty()
    } else {
        let before = spec_trimmed_tokens(pieces.drop_last());
        let t = spec_trim(pieces.last());
        if t.len() > 0 {
            before.push(t)
        } else {
            before
        }
    }
}

/// The learnable words of a text.
pub open spec fn spec_extract_tokens(text: Seq<char>) -> Seq<Seq<char>> {
    spec_trimmed_tokens(spec_pieces(text))
}

proof fn lemma_pieces_nonempty(s: Seq<char>)
    ensures
        spec_pieces(s).len() >= 1,
    decreases s.len(),
{
    if s.len() > 0 {
        lemma_pieces_nonempty(s.drop_last());
    }
}

proof fn lemma_leading_run(e: Seq<bool>)
    ensures
        spec_leading(e) <= e.len(),
        forall|i: int| 0 <= i < spec_leading(e) ==> #[trigger] e[i],
        spec_leading(e) < e.len() ==> !e[spec_leading(e) as int],
    decreases e.len(),
{
    if e.len() > 0 && e[0] {
        lemma_leading_run(e.drop_first());
        assert forall|i: int| 0 <= i < spec_leading(e) implies #[trigger] e[i] by {
            if i > 0 {
                assert(e[i] == e.drop_first()[i - 1]);
            }
        }
        if spec_leading(e) < e.len() {
            assert(e[spec_leading(e) as int] == e.drop_first()[spec_leading(e.drop_first()) as int]);
        }
    }
}

proof fn lemma_trailing_run(e: Seq<bool>)
    ensures
        spec_trailing(e) <= e.len(),
        forall|i: int| e.len() - spec_trailing(e) <= i < e.len() ==> #[trigger] e[i],
        spec_trailing(e) < e.len() ==> !e[e.len() - 1 - spec_trailing(e)],
    decreases e.len(),
{
    if e.len() > 0 && e.last() {
        lemma_trailing_run(e.drop_last());
        assert forall|i: int| e.len() - spec_trailing(e) <= i < e.len() implies #[trigger] e[i] by {
            if i < e.len() - 1 {
                assert(e[i] == e.drop_last()[i]);
            }
        }
        if spec_trailing(e) < e.len() {
            assert(e[e.len() - 1 - spec_trailing(e)] == e.drop_last()[e.drop_last().len() - 1 - spec_trailing(e.drop_last())]);
        }
    }
}

/// A trimmed piece, when not empty, neither starts nor ends with a trim character.
proof fn lemma_trim_edges(piece: Seq<char>)
    ensures
        spec_trim(piece).len() > 0 ==> !spec_is_trim_char(spec_trim(piece)[0]) && !spec_is_trim_char(
            spec_trim(piece)[spec_trim(piece).len() - 1],
        ),
{
    let edges = Seq::new(piece.len(), |i: int| spec_is_trim_char(piece[i]));
    lemma_leading_run(edges);
    lemma_trailing_run(edges);
    let start = spec_leading(edges);
    let tail = spec_trailing(edges);
    if start < piece.len() {
        assert(!edges[start as int]);
        if piece.len() - tail <= start {
            assert(edges[start as int]);
        }
        let t = spec_trim(piece);
        assert(t == piece.subrange(start as int, piece.len() - tail));
        assert(t[0] == piece[start as int]);
        assert(!edges[piece.len() - 1 - tail]);
        assert(t[t.len() - 1] == piece[piece.len() - 1 - tail]);
    }
}

proof fn lemma_trimmed_tokens_edges(pieces: Seq<Seq<char>>)
    ensures
        forall|k: int|
            0 <= k < spec_trimmed_tokens(pieces).len() ==> (#[trigger] spec_trimmed_tokens(pieces)[k]).len() > 0
                && !spec_is_trim_char(spec_trimmed_tokens(pieces)[k][0]) && !spec_is_trim_char(
                spec_trimmed_tokens(pieces)[k][spec_trimmed_tokens(pieces)[k].len() - 1],
            ),
    decreases pieces.len(),
{
    if pieces.len() > 0 {
        lemma_trimmed_tokens_edges(pieces.drop_last());
        lemma_trim_edges(pieces.last());
        let before = spec_trimmed_tokens(pieces.drop_last());
        let all = spec_trimmed_tokens(pieces);
        assert forall|k: int| 0 <= k < all.len() implies (#[trigger] all[k]).len() > 0 && !spec_is_trim_char(all[k][0])
            && !spec_is_trim_char(all[k][all[k].len() - 1]) by {
            if k < before.len() {
                assert(all[k] == before[k]);
            } else {
                assert(all[k] == spec_trim(pieces.last()));
            }
        }
    }
}

/// Every learnable word of a text is non-empty and neither starts nor ends with `-`, `_`, an
/// apostrophe or a right single quotation mark: quotes and joiners at a word's edges are never
/// learned as part of it.
pub proof fn lemma_extracted_tokens_have_clean_edges(text: Seq<char>)
    ensures
        forall|k: int|
            0 <= k < spec_extract_tokens(text).len() ==> {
                let t = #[trigger] spec_extract_tokens(text)[k];
                &&& t.len() > 0
                &&& t[0] != '-' && t[0] != '_' && t[0] != '\'' && t[0] != '\u{2019}'
                &&& t[t.len() - 1] != '-' && t[t.len() - 1] != '_' && t[t.len() - 1] != '\''
                    && t[t.len() - 1] != '\u{2019}'
            },
{
    lemma_trimmed_tokens_edges(spec_pieces(text));
}

proof fn lemma_word_is_one_piece(s: Seq<char>)
    requires
        forall|i: int| 0 <= i < s.len() ==> spec_is_word_char(#[trigger] s[i]),
    ensures
        spec_pieces(s) == seq![s],
    decreases s.len(),
{
    if s.len() == 0 {
        assert(s =~= Seq::<char>::empty());
        assert(spec_pieces(s) =~= seq![s]);
    } else {
        lemma_word_is_one_piece(s.drop_last());
        let before = spec_pieces(s.drop_last());
        assert(before.len() == 1 && before.last() == s.drop_last());
        assert(s.last() == s[s.len() - 1]);
        assert(spec_is_word_char(s.last()));
        assert(s.drop_last().push(s.last()) =~= s);
        assert(spec_pieces(s) == before.update(0, s.drop_last().push(s.last())));
        assert(spec_pieces(s) =~= seq![s]);
    }
}

/// A word made only of letters, digits and the joiners `-`, `_`, `'` and `’`, starting and
/// ending with neither joiner, is extracted whole as the one learnable word of its text:
/// joiners inside a word keep it together.
pub proof fn lemma_joined_word_is_extracted_whole(text: Seq<char>)
    requires
        text.len() > 0,
        forall|i: int|
            0 <= i < text.len() ==> char_is_alphanumeric(#[trigger] text[i]) || text[i] == '-' || text[i] == '_'
                || text[i] == '\'' || text[i] == '\u{2019}',
        text[0] != '-' && text[0] != '_' && text[0] != '\'' && text[0] != '\u{2019}',
        text[text.len() - 1] != '-' && text[text.len() - 1] != '_' && text[text.len() - 1] != '\''
            && text[text.len() - 1] != '\u{2019}',
    ensures
        spec_extract_tokens(text) == seq![text],
{
    assert forall|i: int| 0 <= i < text.len() implies spec_is_word_char(#[trigger] text[i]) by {}
    lemma_word_is_one_piece(text);
    let edges = Seq::new(text.len(), |i: int| spec_is_trim_char(text[i]));
    assert(!edges[0]);
    assert(!edges.last());
    assert(spec_leading(edges) == 0);
    assert(spec_trailing(edges) == 0);
    assert(spec_trim(text) =~= text);
    let pieces = seq![text];
    assert(pieces.drop_last() =~= Seq::<Seq<char>>::empty());
    assert(spec_trimmed_tokens(pieces.drop_last()) =~= Seq::<Seq<char>>::empty());
    assert(pieces.last() == text);
    assert(spec_trimmed_tokens(pieces) == Seq::<Seq<char>>::empty().push(text));
    assert(spec_trimmed_tokens(pieces) =~= seq![text]);
}

fn is_word_char(c: char) -> (r: bool)
    ensures
        r == spec_is_word_char(c),
{
    is_alphanumeric(c) || c == '_' || c == '-' || c == '\'' || c == '\u{2019}'
}

/// A piece without its leading and trailing trim characters.
fn trim_piece(piece: &Vec<char>) -> (r: Vec<char>)
    ensures
        r@ == spec_trim(piece@),
{
    let ghost edges = Seq::new(piece@.len(), |i: int| spec_is_trim_char(piece@[i]));
    let n = piece.len();
    let mut start: usize = 0;
    assert(edges.skip(0) =~= edges);
    while start < n && (piece[start] == '_' || piece[start] == '-' || piece[start] == '\'' || piece[start] == '\u{2019}')
        invariant
            n == piece@.len(),
            edges == Seq::new(piece@.len(), |i: int| spec_is_trim_char(piece@[i])),
            start <= n,
            spec_leading(edges) == start + spec_leading(edges.skip(start as int)),
        decreases n - start,
    {
        assert(edges.skip(start as int)[0] == edges[start as int]);
        assert(edges.skip(start as int).drop_first() =~= edges.skip(start + 1));
        start = start + 1;
    }
    if start == n {
        return Vec::new();
    }
    assert(spec_leading(edges.skip(start as int)) == 0) by {
        assert(edges.skip(start as int)[0] == edges[start as int]);
    }
    let mut end: usize = n;
    assert(edges.take(n as int) =~= edges);
    while piece[end - 1] == '_' || piece[end - 1] == '-' || piece[end - 1] == '\'' || piece[end - 1] == '\u{2019}'
        invariant
            n == piece@.len(),
            edges == Seq::new(piece@.len(), |i: int| spec_is_trim_char(piece@[i])),
            start < end <= n,
            !edges[start as int],
            spec_trailing(edges) == (n - end) + spec_trailing(edges.take(end as int)),
        decreases end,
    {
        assert(edges.take(end as int).last() == edges[end - 1]);
        assert(edges.take(end as int).drop_last() =~= edges.take(end - 1));
        end = end - 1;
    }
    assert(spec_trailing(edges.take(end as int)) == 0) by {
        assert(edges.take(end as int).last() == edges[end - 1]);
    }
    let mut out: Vec<char> = Vec::new();
    let mut k: usize = start;
    while k < end
        invariant
            start <= k <= end <= n,
            n == piece@.len(),
            out@ == piece@.subrange(start as int, k as int),
        decreases end - k,
    {
        out.push(piece[k]);
        k = k + 1;
        assert(out@ =~= piece@.subrange(start as int, k as int));
    }
    out
}

/// The learnable words of a text: its pieces between characters that are not letters, digits,
/// `_`, `-` or apostrophes, trimmed of `_`, `-` and apostrophes, empty ones dropped.
pub fn extract_tokens(text: &str) -> (r: Vec<String>)
    ensures
        r@.len() == spec_extract_tokens(text@).len(),
        forall|k: int| 0 <= k < r@.len() ==> (#[trigger] r@[k])@ == spec_extract_tokens(text@)[k],
{
    let chars = chars_of(text);
    let mut out: Vec<String> = Vec::new();
    let mut current: Vec<char> = Vec::new();
    let mut i: usize = 0;
    proof {
        assert(chars@.take(0) =~= Seq::<char>::empty());
    }
    while i < chars.len()
        invariant
            i <= chars@.len(),
            chars@ == text@,
            current@ == spec_pieces(chars@.take(i as int)).last(),
            out@.len() == spec_trimmed_tokens(spec_pieces(chars@.take(i as int)).drop_last()).len(),
            forall|k: int| 0 <= k < out@.len() ==> (#[trigger] out@[k])@ == spec_trimmed_tokens(spec_pieces(chars@.take(i as int)).drop_last())[k],
        decreases chars@.len() - i,
    {
        let c = chars[i];
        let ghost prefix = chars@.take(i as int);
        let ghost next = chars@.take(i + 1);
        proof {
            assert(next.drop_last() =~= prefix);
            assert(next.last() == c);
            lemma_pieces_nonempty(prefix);
        }
        if is_word_char(c) {
            current.push(c);
            proof {
                let before = spec_pieces(prefix);
                assert(spec_pieces(next) == before.update(before.len() - 1, before.last().push(c)));
                assert(spec_pieces(next).drop_last() =~= before.drop_last());
            }
        } else {
            let trimmed = trim_piece(&current);
            let ghost before_out = out@;
            proof {
                let before = spec_pieces(prefix);
                assert(spec_pieces(next) == before.push(Seq::<char>::empty()));
                assert(spec_pieces(next).drop_last() =~= before);
                assert(before.drop_last().push(before.last()) =~= before);
            }
            if trimmed.len() > 0 {
                out.push(string_from_chars(trimmed.as_slice()));
                proof {
                    assert forall|k: int| 0 <= k < out@.len() implies (#[trigger] out@[k])@ == spec_trimmed_tokens(spec_pieces(next).drop_last())[k] by {
                        if k < before_out.len() {
                            assert(out@[k] == before_out[k]);
                        }
                    }
                }
            }
            current = Vec::new();
        }
        i = i + 1;
    }
    let trimmed = trim_piece(&current);
    let ghost before_out = out@;
    proof {
        assert(chars@.take(chars@.len() as int) =~= chars@);
        lemma_pieces_nonempty(chars@);
        let pieces = spec_pieces(chars@);
        assert(pieces.drop_last().push(pieces.last()) =~= pieces);
    }
    if trimmed.len() > 0 {
        out.push(string_from_chars(trimmed.as_slice()));
        proof {
            assert forall|k: int| 0 <= k < out@.len() implies (#[trigger] out@[k])@ == spec_extract_tokens(text@)[k] by {
                if k < before_out.len() {
                    assert(out@[k] == before_out[k]);
                }
            }
        }
    }
    out
}

/// A word of copied text is learned when the engine, with the lexical provider, would keep it
/// as typed without layout-ambiguous keys, and it passes the recording rule.
pub open spec fn spec_learnable(text: Seq<char>, snapshot: LexicalSnapshot, minimum: nat) -> Seq<Seq<char>> {
    spec_extract_tokens(text).filter(
        |t: Seq<char>|
            spec_lexical_keeps(
                snapshot.spec_languages(),
                snapshot.spec_user_lexicon(),
                t,
                Seq::new(t.len(), |i: int| PhysicalKey::Other),
                minimum,
            ) && spec_should_record(t, snapshot),
    )
}

/// The words of `text` to learn, in order: each extracted word that the engine keeps with
/// `provider` and that the recording rule accepts for the provider's snapshot.
pub fn learnable_tokens(text: &str, provider: &LexicalCorrectionProvider, minimum_confidence: Confidence) -> (r:
    Vec<String>)
    ensures
        r@.len() == spec_learnable(text@, provider.spec_snapshot(), minimum_confidence@).len(),
        forall|k: int|
            0 <= k < r@.len() ==> (#[trigger] r@[k])@ == spec_learnable(
                text@,
                provider.spec_snapshot(),
                minimum_confidence@,
            )[k],
{
    let ghost snapshot = provider.spec_snapshot();
    let ghost minimum = minimum_confidence@;
    let ghost pred = |t: Seq<char>|
        spec_lexical_keeps(
            snapshot.spec_languages(),
            snapshot.spec_user_lexicon(),
            t,
            Seq::new(t.len(), |i: int| PhysicalKey::Other),
            minimum,
        ) && spec_should_record(t, snapshot);
    let tokens = extract_tokens(text);
    let ghost words = spec_extract_tokens(text@);
    let mut out: Vec<String> = Vec::new();
    let mut i: usize = 0;
    proof {
        assert(words.take(0) =~= Seq::<Seq<char>>::empty());
    }
    while i < tokens.len()
        invariant
            i <= tokens@.len(),
            tokens@.len() == words.len(),
            forall|k: int| 0 <= k < tokens@.len() ==> (#[trigger] tokens@[k])@ == words[k],
            snapshot == provider.spec_snapshot(),
            minimum == minimum_confidence@,
            words == spec_extract_tokens(text@),
            pred == (|t: Seq<char>|
                spec_lexical_keeps(
                    snapshot.spec_languages(),
                    snapshot.spec_user_lexicon(),
                    t,
                    Seq::new(t.len(), |i: int| PhysicalKey::Other),
                    minimum,
                ) && spec_should_record(t, snapshot)),
            out@.len() == words.take(i as int).filter(pred).len(),
            forall|k: int| 0 <= k < out@.len() ==> (#[trigger] out@[k])@ == words.take(i as int).filter(pred)[k],
        decreases tokens@.len() - i,
    {
        let word = tokens[i].as_str();
        let ghost w = word@;
        assert(w == words[i as int]);
        let completed = CompletedToken::new(word, Boundary::Character(' '));
        let candidates = provider.candidates(&completed);
        let ghost offered = candidates@;
        let decision = decide_among_candidates(&completed, candidates, minimum_confidence);
        proof {
            lemma_lexical_decision(
                snapshot.spec_languages(),
                snapshot.spec_user_lexicon(),
                w,
                completed.spec_keys(),
                offered,
                minimum,
            );
            assert(completed.spec_keys() =~= Seq::new(w.len(), |j: int| PhysicalKey::Other));
            assert(words.take(i + 1) =~= words.take(i as int).push(w));
            words.take(i as int).lemma_filter_push(w, pred);
        }
        let kept = match decision {
            CorrectionDecision::Keep => true,
            CorrectionDecision::Replace(_) => false,
        };
        let ghost before = out@;
        if kept && should_record_user_word(word, provider.snapshot()) {
            out.push(word.to_owned());
            proof {
                assert forall|k: int| 0 <= k < out@.len() implies (#[trigger] out@[k])@ == words.take(i + 1).filter(pred)[k] by {
                    if k < before.len() {
                        assert(out@[k] == before[k]);
                    }
                }
            }
        }
        i = i + 1;
    }
    proof {
        assert(words.take(words.len() as int) =~= words);
    }
    out
}

} // verus!
