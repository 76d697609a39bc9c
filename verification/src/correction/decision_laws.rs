//! What every correction decision satisfies, and what the engine decides with the lexical
//! provider.

use vstd::prelude::*;

use super::correction_engine::{spec_best, spec_decision, spec_eligible, CorrectionCandidate};
use super::lexical_provider::{spec_fails_closed, spec_known_word, spec_offered, spec_provider_output};
use crate::input::PhysicalKey;
use crate::language::normalize::spec_normalize;
use crate::language::LanguagePack;
use crate::lexicon::UserLexicon;

verus! {

/// The confidence of the decision among `cands`, or 0 when the token is kept.
pub open spec fn spec_best_confidence(token: Seq<char>, cands: Seq<CorrectionCandidate>, minimum: nat) -> nat {
    match spec_best(token, cands, minimum) {
        Some(best) => best.1,
        None => 0,
    }
}

/// Nothing is kept out of a decision among no candidates: the token is kept.
pub proof fn lemma_empty_candidates_keep(token: Seq<char>, minimum: nat)
    ensures
        spec_decision(token, Seq::empty(), minimum) is None,
{
}

/// The engine keeps the token exactly when no candidate is eligible (changes the token and
/// reaches the minimum confidence).
pub proof fn lemma_keep_iff_nothing_eligible(token: Seq<char>, cands: Seq<CorrectionCandidate>, minimum: nat)
    ensures
        spec_best(token, cands, minimum) is None <==> forall|k: int|
            0 <= k < cands.len() ==> !spec_eligible(token, #[trigger] cands[k], minimum),
    decreases cands.len(),
{
    if cands.len() > 0 {
        lemma_keep_iff_nothing_eligible(token, cands.drop_last(), minimum);
        assert forall|k: int| 0 <= k < cands.drop_last().len() implies #[trigger] cands.drop_last()[k] == cands[k] by {}
        if spec_best(token, cands, minimum) is None {
            assert forall|k: int| 0 <= k < cands.len() implies !spec_eligible(token, #[trigger] cands[k], minimum) by {
                if k < cands.len() - 1 {
                    assert(cands.drop_last()[k] == cands[k]);
                } else {
                    assert(cands[k] == cands.last());
                }
            }
        }
    }
}

/// The decision is an eligible candidate with the highest confidence among eligible ones.
pub proof fn lemma_best_is_most_confident(token: Seq<char>, cands: Seq<CorrectionCandidate>, minimum: nat)
    requires
        spec_best(token, cands, minimum) is Some,
    ensures
        exists|k: int|
            0 <= k < cands.len() && spec_eligible(token, #[trigger] cands[k], minimum) && (
            cands[k].spec_replacement(), cands[k].spec_confidence()) == spec_best(token, cands, minimum)->0,
        forall|k: int|
            0 <= k < cands.len() && spec_eligible(token, #[trigger] cands[k], minimum) ==> cands[k].spec_confidence()
                <= spec_best_confidence(token, cands, minimum),
    decreases cands.len(),
{
    let rest = spec_best(token, cands.drop_last(), minimum);
    assert forall|k: int| 0 <= k < cands.drop_last().len() implies #[trigger] cands.drop_last()[k] == cands[k] by {}
    assert(cands[cands.len() - 1] == cands.last());
    if rest is Some {
        lemma_best_is_most_confident(token, cands.drop_last(), minimum);
        let j = choose|j: int|
            0 <= j < cands.drop_last().len() && spec_eligible(token, #[trigger] cands.drop_last()[j], minimum) && (
            cands.drop_last()[j].spec_replacement(), cands.drop_last()[j].spec_confidence()) == rest->0;
        assert(cands[j] == cands.drop_last()[j]);
    } else {
        lemma_keep_iff_nothing_eligible(token, cands.drop_last(), minimum);
    }
    assert forall|k: int| 0 <= k < cands.len() && spec_eligible(token, #[trigger] cands[k], minimum) implies cands[k].spec_confidence()
        <= spec_best_confidence(token, cands, minimum) by {
        if k < cands.len() - 1 {
            assert(cands.drop_last()[k] == cands[k]);
        }
    }
}

/// The engine never replaces a token with its own text.
pub proof fn lemma_decision_changes_the_token(token: Seq<char>, cands: Seq<CorrectionCandidate>, minimum: nat)
    ensures
        spec_decision(token, cands, minimum) != Some(token),
{
    if spec_best(token, cands, minimum) is Some {
        lemma_best_is_most_confident(token, cands, minimum);
    }
}

/// The order of the candidates does not change the decision when the most confident eligible
/// replacement is the only one with that confidence.
pub proof fn lemma_decision_ignores_candidate_order(
    token: Seq<char>,
    a: Seq<CorrectionCandidate>,
    b: Seq<CorrectionCandidate>,
    minimum: nat,
)
    requires
        a.to_multiset() == b.to_multiset(),
        forall|i: int, j: int|
            0 <= i < a.len() && 0 <= j < a.len() && spec_eligible(token, #[trigger] a[i], minimum)
                && spec_eligible(token, #[trigger] a[j], minimum) && a[i].spec_confidence()
                == spec_best_confidence(token, a, minimum) && a[j].spec_confidence() == spec_best_confidence(
                token,
                a,
                minimum,
            ) ==> a[i].spec_replacement() == a[j].spec_replacement(),
    ensures
        spec_decision(token, a, minimum) == spec_decision(token, b, minimum),
{
    broadcast use vstd::seq_lib::group_to_multiset_ensures;

    assert forall|i: int| 0 <= i < a.len() implies b.contains(#[trigger] a[i]) by {
        assert(a.to_multiset().count(a[i]) > 0);
    }
    assert forall|i: int| 0 <= i < b.len() implies a.contains(#[trigger] b[i]) by {
        assert(b.to_multiset().count(b[i]) > 0);
    }
    lemma_keep_iff_nothing_eligible(token, a, minimum);
    lemma_keep_iff_nothing_eligible(token, b, minimum);
    if spec_best(token, a, minimum) is Some && spec_best(token, b, minimum) is Some {
        lemma_best_is_most_confident(token, a, minimum);
        lemma_best_is_most_confident(token, b, minimum);
        let i = choose|i: int|
            0 <= i < a.len() && spec_eligible(token, #[trigger] a[i], minimum) && (a[i].spec_replacement(),
            a[i].spec_confidence()) == spec_best(token, a, minimum)->0;
        let j = choose|j: int|
            0 <= j < b.len() && spec_eligible(token, #[trigger] b[j], minimum) && (b[j].spec_replacement(),
            b[j].spec_confidence()) == spec_best(token, b, minimum)->0;
        assert(b.contains(a[i]));
        let bi = choose|bi: int| 0 <= bi < b.len() && b[bi] == a[i];
        assert(a.contains(b[j]));
        let aj = choose|aj: int| 0 <= aj < a.len() && a[aj] == b[j];
        assert(a[i].spec_confidence() <= spec_best_confidence(token, b, minimum)) by {
            assert(spec_eligible(token, b[bi], minimum));
        }
        assert(b[j].spec_confidence() <= spec_best_confidence(token, a, minimum)) by {
            assert(spec_eligible(token, a[aj], minimum));
        }
        assert(a[aj].spec_confidence() == a[i].spec_confidence());
    } else if spec_best(token, a, minimum) is Some {
        lemma_best_is_most_confident(token, a, minimum);
        let i = choose|i: int|
            0 <= i < a.len() && spec_eligible(token, #[trigger] a[i], minimum) && (a[i].spec_replacement(),
            a[i].spec_confidence()) == spec_best(token, a, minimum)->0;
        assert(b.contains(a[i]));
        let bi = choose|bi: int| 0 <= bi < b.len() && b[bi] == a[i];
        assert(spec_eligible(token, b[bi], minimum));
    } else if spec_best(token, b, minimum) is Some {
        lemma_best_is_most_confident(token, b, minimum);
        let j = choose|j: int|
            0 <= j < b.len() && spec_eligible(token, #[trigger] b[j], minimum) && (b[j].spec_replacement(),
            b[j].spec_confidence()) == spec_best(token, b, minimum)->0;
        assert(a.contains(b[j]));
        let aj = choose|aj: int| 0 <= aj < a.len() && a[aj] == b[j];
        assert(spec_eligible(token, a[aj], minimum));
    }
}

/// With the lexical provider, a token is kept when it fails closed or when every correction
/// offered for it falls below the minimum confidence.
pub open spec fn spec_lexical_keeps(
    languages: Seq<LanguagePack>,
    user: UserLexicon,
    text: Seq<char>,
    keys: Seq<PhysicalKey>,
    minimum: nat,
) -> bool {
    ||| spec_fails_closed(languages, user, text, keys)
    ||| forall|replacement: Seq<char>, c: nat|
        #[trigger] spec_offered(languages, user, text, keys, replacement, c) ==> c < minimum
}

/// `replacement` is offered for the token with at least the minimum confidence, and no
/// replacement that changes the token is offered with more.
pub open spec fn spec_most_confident_offer(
    languages: Seq<LanguagePack>,
    user: UserLexicon,
    text: Seq<char>,
    keys: Seq<PhysicalKey>,
    replacement: Seq<char>,
    minimum: nat,
) -> bool {
    exists|c: nat|
        c >= minimum && #[trigger] spec_offered(languages, user, text, keys, replacement, c) && forall|
            other: Seq<char>,
            d: nat,
        |
            #[trigger] spec_offered(languages, user, text, keys, other, d) && other != text && d >= minimum
                ==> d <= c
}

/// The engine, given what the lexical provider returns for a token, keeps the token exactly when
/// it fails closed or nothing offered reaches the minimum confidence; otherwise it replaces the
/// token with the most confident correction offered.
pub proof fn lemma_lexical_decision(
    languages: Seq<LanguagePack>,
    user: UserLexicon,
    text: Seq<char>,
    keys: Seq<PhysicalKey>,
    cands: Seq<CorrectionCandidate>,
    minimum: nat,
)
    requires
        spec_provider_output(languages, user, text, keys, cands),
    ensures
        spec_decision(text, cands, minimum) is None <==> spec_lexical_keeps(languages, user, text, keys, minimum),
        spec_decision(text, cands, minimum) is Some ==> exists|c: nat|
            c >= minimum && #[trigger] spec_offered(
                languages,
                user,
                text,
                keys,
                spec_decision(text, cands, minimum)->0,
                c,
            ),
        spec_decision(text, cands, minimum) is Some ==> spec_most_confident_offer(
            languages,
            user,
            text,
            keys,
            spec_decision(text, cands, minimum)->0,
            minimum,
        ),
{
    lemma_keep_iff_nothing_eligible(text, cands, minimum);
    if spec_fails_closed(languages, user, text, keys) {
        assert(cands.len() == 0);
        assert(spec_decision(text, cands, minimum) is None);
    } else {
        if spec_best(text, cands, minimum) is Some {
            lemma_best_is_most_confident(text, cands, minimum);
            let k = choose|k: int|
                0 <= k < cands.len() && spec_eligible(text, #[trigger] cands[k], minimum) && (
                cands[k].spec_replacement(), cands[k].spec_confidence()) == spec_best(text, cands, minimum)->0;
            assert(spec_offered(languages, user, text, keys, cands[k].spec_replacement(), cands[k].spec_confidence()));
            assert(spec_decision(text, cands, minimum) == Some(cands[k].spec_replacement()));
            assert(cands[k].spec_confidence() >= minimum);
            let r = cands[k].spec_replacement();
            let c0 = cands[k].spec_confidence();
            assert(c0 >= minimum && spec_offered(languages, user, text, keys, r, c0));
            assert(exists|c: nat| c >= minimum && #[trigger] spec_offered(languages, user, text, keys, r, c));
            assert(spec_decision(text, cands, minimum)->0 == r);
            assert forall|other: Seq<char>, d: nat|
                #[trigger] spec_offered(languages, user, text, keys, other, d) && other != text && d >= minimum
                    implies d <= c0 by {
                let k2 = choose|k2: int| 0 <= k2 < cands.len() && (#[trigger] cands[k2]).spec_replacement() == other;
                assert(d <= cands[k2].spec_confidence());
                assert(spec_eligible(text, cands[k2], minimum));
            }
            assert(spec_best_confidence(text, cands, minimum) == c0);
            assert(spec_most_confident_offer(languages, user, text, keys, r, minimum));
        } else {
            assert forall|replacement: Seq<char>, c: nat|
                #[trigger] spec_offered(languages, user, text, keys, replacement, c) implies c < minimum by {
                let k = choose|k: int| 0 <= k < cands.len() && (#[trigger] cands[k]).spec_replacement() == replacement;
                assert(c <= cands[k].spec_confidence());
                assert(!spec_eligible(text, cands[k], minimum));
                crate::correction::lexical_provider::lemma_offered_is_valid(languages, user, text, keys, replacement, c);
            }
        }
    }
}

/// A word that any language or the learned vocabulary already knows is never replaced,
/// whatever the confidence threshold.
pub proof fn lemma_known_word_is_kept(
    languages: Seq<LanguagePack>,
    user: UserLexicon,
    text: Seq<char>,
    keys: Seq<PhysicalKey>,
    cands: Seq<CorrectionCandidate>,
    minimum: nat,
)
    requires
        spec_provider_output(languages, user, text, keys, cands),
        spec_known_word(languages, user, spec_normalize(text)),
    ensures
        spec_decision(text, cands, minimum) is None,
{
    lemma_lexical_decision(languages, user, text, keys, cands, minimum);
}

} // verus!
