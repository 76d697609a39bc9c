//! The correction engine picks the most confident candidate that changes the token and reaches
//! the minimum confidence; otherwise it keeps the token.

use vstd::prelude::*;

use crate::input::CompletedToken;
use crate::text::{str_contains, str_eq};

verus! {

/// Text that may replace a token: non-empty and free of NUL.
pub open spec fn spec_valid_replacement(s: Seq<char>) -> bool {
    s.len() > 0 && !s.contains('\0')
}

#[derive(Debug, Clone, PartialEq, Eq)]
pub struct ReplacementText(String);

#[derive(Debug, Clone, Copy, PartialEq, Eq)]
pub struct ReplacementTextError;

impl View for ReplacementText {
    type V = Seq<char>;

    closed spec fn view(&self) -> Seq<char> {
        self.0@
    }
}

impl ReplacementText {
    pub fn try_new(value: &str) -> (r: Result<Self, ReplacementTextError>)
        ensures
            r is Ok <==> spec_valid_replacement(value@),
            r matches Ok(text) ==> text@ == value@,
    {
        if value.is_empty() || str_contains(value, '\0') {
            return Err(ReplacementTextError);
        }
        Ok(ReplacementText(value.to_owned()))
    }

    pub fn as_str(&self) -> (r: &str)
        ensures
            r@ == self@,
    {
        self.0.as_str()
    }

    /// A second handle on the same text.
    pub fn duplicate(&self) -> (r: Self)
        ensures
            r@ == self@,
    {
        ReplacementText(self.0.clone())
    }
}

/// One million: the scale of [`Confidence`] (a confidence of 1.0 is one million parts).
pub const CONFIDENCE_SCALE: u32 = 1_000_000;

/// A confidence between 0 and 1, held exactly in millionths.
#[derive(Debug, Clone, Copy, PartialEq, Eq)]
pub struct Confidence(u32);

#[derive(Debug, Clone, Copy, PartialEq, Eq)]
pub struct ConfidenceError;

impl View for Confidence {
    type V = nat;

    closed spec fn view(&self) -> nat {
        self.0 as nat
    }
}

impl Confidence {
    /// Full certainty.
    pub fn certain() -> (r: Self)
        ensures
            r@ == CONFIDENCE_SCALE,
    {
        Confidence(CONFIDENCE_SCALE)
    }

    /// A confidence of `millionths / 1_000_000`; more than one whole is rejected.
    pub fn try_new(millionths: u32) -> (r: Result<Self, ConfidenceError>)
        ensures
            r is Ok <==> millionths <= CONFIDENCE_SCALE,
            r matches Ok(c) ==> c@ == millionths,
    {
        if millionths > CONFIDENCE_SCALE {
            return Err(ConfidenceError);
        }
        Ok(Confidence(millionths))
    }

    /// The confidence in millionths.
    pub fn value(self) -> (r: u32)
        ensures
            r == self@,
            r <= CONFIDENCE_SCALE,
    {
        proof {
            use_type_invariant(&self);
        }
        self.0
    }

    #[verifier::type_invariant]
    spec fn within_scale(self) -> bool {
        self.0 <= CONFIDENCE_SCALE
    }
}

#[derive(Debug, Clone, PartialEq)]
pub struct CorrectionCandidate {
    replacement: ReplacementText,
    confidence: Confidence,
}

impl CorrectionCandidate {
    pub closed spec fn spec_replacement(&self) -> Seq<char> {
        self.replacement@
    }

    pub closed spec fn spec_confidence(&self) -> nat {
        self.confidence@
    }

    pub fn new(replacement: ReplacementText, confidence: Confidence) -> (r: Self)
        ensures
            r.spec_replacement() == replacement@,
            r.spec_confidence() == confidence@,
    {
        CorrectionCandidate { replacement, confidence }
    }

    pub fn replacement(&self) -> (r: &ReplacementText)
        ensures
            r@ == self.spec_replacement(),
    {
        &self.replacement
    }

    pub fn confidence(&self) -> (r: Confidence)
        ensures
            r@ == self.spec_confidence(),
    {
        self.confidence
    }
}

/// A source of replacement candidates for a completed token.
pub trait CorrectionCandidateProvider {
    /// The candidate lists this provider may answer for a token; a provider that does not say
    /// may answer any list.
    open spec fn spec_offers(&self, token: CompletedToken, cands: Seq<CorrectionCandidate>) -> bool {
        true
    }

    fn candidates(&self, token: &CompletedToken) -> (r: Vec<CorrectionCandidate>)
        ensures
            self.spec_offers(*token, r@),
    ;
}

#[derive(Debug, Clone, PartialEq, Eq)]
pub enum CorrectionDecision {
    Keep,
    Replace(ReplacementText),
}

/// The decision's content: `None` keeps the token, `Some(text)` replaces it with `text`.
pub open spec fn decision_view(d: CorrectionDecision) -> Option<Seq<char>> {
    match d {
        CorrectionDecision::Keep => None,
        CorrectionDecision::Replace(text) => Some(text@),
    }
}

/// A candidate that would change the token and is confident enough.
pub open spec fn spec_eligible(token: Seq<char>, c: CorrectionCandidate, minimum: nat) -> bool {
    c.spec_replacement() != token && c.spec_confidence() >= minimum
}

/// The replacement and confidence of the most confident eligible candidate among `cands`; on
/// a tie the later one wins.
pub open spec fn spec_best(token: Seq<char>, cands: Seq<CorrectionCandidate>, minimum: nat) -> Option<
    (Seq<char>, nat),
>
    decreases cands.len(),
{
    if cands.len() == 0 {
        None
    } else {
        let rest = spec_best(token, cands.drop_last(), minimum);
        let c = cands.last();
        let beats_rest = match rest {
            None => true,
            Some((_, best_confidence)) => c.spec_confidence() >= best_confidence,
        };
        if spec_eligible(token, c, minimum) && beats_rest {
            Some((c.spec_replacement(), c.spec_confidence()))
        } else {
            rest
        }
    }
}

/// What the engine decides for a token given the candidates it was offered.
pub open spec fn spec_decision(token: Seq<char>, cands: Seq<CorrectionCandidate>, minimum: nat) -> Option<
    Seq<char>,
> {
    match spec_best(token, cands, minimum) {
        None => None,
        Some(best) => Some(best.0),
    }
}

pub open spec fn candidate_option_view(c: Option<CorrectionCandidate>) -> Option<(Seq<char>, nat)> {
    match c {
        None => None,
        Some(c) => Some((c.spec_replacement(), c.spec_confidence())),
    }
}

pub struct CorrectionEngine<P> {
    provider: P,
    minimum_confidence: Confidence,
}

impl<P: CorrectionCandidateProvider> CorrectionEngine<P> {
    pub closed spec fn spec_minimum(&self) -> nat {
        self.minimum_confidence@
    }

    pub closed spec fn spec_provider(&self) -> P {
        self.provider
    }

    pub fn new(provider: P, minimum_confidence: Confidence) -> (r: Self)
        ensures
            r.spec_minimum() == minimum_confidence@,
            r.spec_provider() == provider,
    {
        CorrectionEngine { provider, minimum_confidence }
    }

    pub fn provider(&self) -> (r: &P)
        ensures
            *r == self.spec_provider(),
    {
        &self.provider
    }

    /// Asks the provider for candidates and decides among them.
    pub fn decide(&self, token: &CompletedToken) -> (r: CorrectionDecision)
        ensures
            exists|cands: Seq<CorrectionCandidate>|
                self.spec_provider().spec_offers(*token, cands) && decision_view(r) == spec_decision(
                    token.spec_text(),
                    cands,
                    self.spec_minimum(),
                ),
    {
        let candidates = self.provider.candidates(token);
        self.decide_among(token, candidates)
    }

    /// Decides among the given candidates: the most confident one that changes the token and
    /// reaches the minimum confidence (the later one on a tie), else keep.
    pub fn decide_among(&self, token: &CompletedToken, candidates: Vec<CorrectionCandidate>) -> (r:
        CorrectionDecision)
        ensures
            decision_view(r) == spec_decision(token.spec_text(), candidates@, self.spec_minimum()),
    {
        decide_among_candidates(token, candidates, self.minimum_confidence)
    }
}

/// Decides among the given candidates: the most confident one that changes the token and
/// reaches the minimum confidence (the later one on a tie), else keep.
pub fn decide_among_candidates(
    token: &CompletedToken,
    candidates: Vec<CorrectionCandidate>,
    minimum_confidence: Confidence,
) -> (r: CorrectionDecision)
    ensures
        decision_view(r) == spec_decision(token.spec_text(), candidates@, minimum_confidence@),
{
    let minimum = minimum_confidence.value();
    let mut best: Option<CorrectionCandidate> = None;
    let mut i: usize = 0;
    while i < candidates.len()
        invariant
            i <= candidates.len(),
            minimum == minimum_confidence@,
            candidate_option_view(best) == spec_best(
                token.spec_text(),
                candidates@.take(i as int),
                minimum as nat,
            ),
        decreases candidates.len() - i,
    {
        let candidate = &candidates[i];
        assert(candidates@.take(i + 1).drop_last() =~= candidates@.take(i as int));
        assert(candidates@.take(i + 1).last() == candidates@[i as int]);
        let changes = !str_eq(candidate.replacement.as_str(), token.text());
        let confident = candidate.confidence.value() >= minimum;
        if changes && confident {
            let better = match &best {
                None => true,
                Some(current) => candidate.confidence.value() >= current.confidence.value(),
            };
            if better {
                best = Some(CorrectionCandidate {
                    replacement: candidate.replacement.duplicate(),
                    confidence: candidate.confidence,
                });
            }
        }
        i = i + 1;
    }
    assert(candidates@.take(candidates.len() as int) =~= candidates@);
    match best {
        Some(candidate) => CorrectionDecision::Replace(candidate.replacement),
        None => CorrectionDecision::Keep,
    }
}

} // verus!
