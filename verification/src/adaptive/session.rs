//! The correction session: tracks typed input, decides corrections with the lexical provider,
//! and arms an immediate Undo once a correction is known to have been applied. Every observed
//! event disarms whatever side effect was planned before it.

use vstd::prelude::*;

use crate::correction::correction_engine::{
    decide_among_candidates, decision_view, spec_decision, Confidence, CorrectionCandidate,
    CorrectionDecision,
};
use crate::correction::decision_laws::{
    lemma_lexical_decision, spec_lexical_keeps, spec_most_confident_offer,
};
use crate::correction::lexical_provider::{
    spec_offered, spec_provider_output, LexicalCorrectionProvider,
};
use crate::input::input_buffer::{spec_step, BufferModel, OutcomeModel};
use crate::input::{Boundary, InputBuffer, InputEvent, InputOutcome};
use crate::replacement::{ReplacementAction, ReplacementEngine, ReplacementOutcome, UndoOutcome};

verus! {

#[derive(Debug, Clone, PartialEq, Eq)]
pub enum AdaptiveCorrectionDirective {
    Pass,
    Replace(ReplacementAction),
}

/// A replacement whose injection result is still awaited.
#[derive(Debug)]
pub struct PendingCorrection {
    observed_text: String,
    replacement_text: String,
    observed_at_ms: i64,
    action: ReplacementAction,
}

/// The content of a pending correction.
pub struct PendingModel {
    pub observed: Seq<char>,
    pub replacement: Seq<char>,
    pub observed_at_ms: i64,
    pub action: (nat, Seq<char>, Boundary),
}

impl PendingCorrection {
    pub closed spec fn model(&self) -> PendingModel {
        PendingModel {
            observed: self.observed_text@,
            replacement: self.replacement_text@,
            observed_at_ms: self.observed_at_ms,
            action: self.action.spec_effect(),
        }
    }

    pub fn observed_text(&self) -> (r: &str)
        ensures
            r@ == self.model().observed,
    {
        self.observed_text.as_str()
    }

    pub fn replacement_text(&self) -> (r: &str)
        ensures
            r@ == self.model().replacement,
    {
        self.replacement_text.as_str()
    }

    pub fn observed_at_ms(&self) -> (r: i64)
        ensures
            r == self.model().observed_at_ms,
    {
        self.observed_at_ms
    }
}

/// What one observed event asks of the caller: the directive for the keyboard hook, and the
/// token to learn when the session kept a completed token.
#[derive(Debug)]
pub struct SessionStep {
    pub directive: AdaptiveCorrectionDirective,
    pub kept_token: Option<String>,
}

/// The correction session. `R` is the caller's receipt for a recorded correction.
pub struct CorrectionSession<R> {
    input: InputBuffer,
    replacements: ReplacementEngine,
    minimum_confidence: Confidence,
    pending_correction: Option<PendingCorrection>,
    undo_candidate: Option<(R, ReplacementAction)>,
    pending_undo: Option<(R, ReplacementAction, i64)>,
}

pub open spec fn pending_model(p: Option<PendingCorrection>) -> Option<PendingModel> {
    match p {
        Some(p) => Some(p.model()),
        None => None,
    }
}

/// A replacement of a completed token is the most confident correction the lexical provider
/// offers for it at or above the minimum confidence, and what the engine decides among the
/// provider's candidates.
pub open spec fn spec_replacement_chosen(
    languages: Seq<crate::language::LanguagePack>,
    user: crate::lexicon::UserLexicon,
    outcome: OutcomeModel,
    directive: AdaptiveCorrectionDirective,
    minimum: nat,
) -> bool {
    match outcome {
        OutcomeModel::Completed(text, keys, _) => match directive {
            AdaptiveCorrectionDirective::Replace(a) => {
                &&& spec_most_confident_offer(languages, user, text, keys, a.spec_replacement(), minimum)
                &&& exists|cands: Seq<CorrectionCandidate>|
                    #[trigger] spec_provider_output(languages, user, text, keys, cands) && spec_decision(
                        text,
                        cands,
                        minimum,
                    ) == Some(a.spec_replacement())
            },
            AdaptiveCorrectionDirective::Pass => true,
        },
        _ => true,
    }
}

/// An applied correction can be undone at once when it ended in an ordinary character and its
/// original is valid replacement text.
pub open spec fn spec_armable(applied: PendingModel) -> bool {
    &&& applied.action.2 is Character
    &&& crate::correction::correction_engine::spec_valid_replacement(applied.observed)
    &&& applied.action.1.len() < usize::MAX
}

impl<R> CorrectionSession<R> {
    pub closed spec fn spec_input(&self) -> BufferModel {
        self.input.model()
    }

    pub closed spec fn spec_minimum(&self) -> nat {
        self.minimum_confidence@
    }

    pub closed spec fn spec_pending(&self) -> Option<PendingModel> {
        pending_model(self.pending_correction)
    }

    pub closed spec fn spec_undo_candidate(&self) -> Option<(R, (nat, Seq<char>, Boundary))> {
        match self.undo_candidate {
            Some((receipt, action)) => Some((receipt, action.spec_effect())),
            None => None,
        }
    }

    pub closed spec fn spec_pending_undo(&self) -> Option<(R, (nat, Seq<char>, Boundary), i64)> {
        match self.pending_undo {
            Some((receipt, action, at)) => Some((receipt, action.spec_effect(), at)),
            None => None,
        }
    }

    pub fn new(minimum_confidence: Confidence) -> (r: Self)
        ensures
            r.spec_input() == (BufferModel { token: Seq::empty(), keys: Seq::empty(), synchronized: true }),
            r.spec_minimum() == minimum_confidence@,
            r.spec_pending() is None,
            r.spec_undo_candidate() is None,
            r.spec_pending_undo() is None,
    {
        CorrectionSession {
            input: InputBuffer::new(),
            replacements: ReplacementEngine::new(),
            minimum_confidence,
            pending_correction: None,
            undo_candidate: None,
            pending_undo: None,
        }
    }

    /// Observes one input event. A completed token is decided with the provider: a kept token
    /// is handed back to be learned; a replacement is planned and held until its injection
    /// result arrives. Any earlier pending correction or Undo is dropped.
    pub fn process(&mut self, event: InputEvent, observed_at_ms: i64, provider: &LexicalCorrectionProvider) -> (r:
        SessionStep)
        ensures
            final(self).spec_input() == spec_step(old(self).spec_input(), event).0,
            final(self).spec_minimum() == old(self).spec_minimum(),
            final(self).spec_undo_candidate() is None,
            final(self).spec_pending_undo() is None,
            !(spec_step(old(self).spec_input(), event).1 is Completed) ==> r.directive
                == AdaptiveCorrectionDirective::Pass && r.kept_token is None && final(self).spec_pending() is None,
            spec_step(old(self).spec_input(), event).1 matches OutcomeModel::Completed(text, keys, boundary)
                ==> (r.kept_token matches Some(t) ==> t@ == text && r.directive == AdaptiveCorrectionDirective::Pass
                && final(self).spec_pending() is None),
            spec_step(old(self).spec_input(), event).1 matches OutcomeModel::Completed(text, keys, boundary)
                ==> (r.kept_token is None ==> (r.directive matches AdaptiveCorrectionDirective::Replace(a)
                && a.spec_delete() == text.len() && a.spec_boundary() == boundary
                && a.spec_replacement() != text
                && final(self).spec_pending() == Some(PendingModel { observed: text, replacement: a.spec_replacement(), observed_at_ms, action: a.spec_effect() }))),
            spec_replacement_chosen(
                provider.spec_snapshot().spec_languages(),
                provider.spec_snapshot().spec_user_lexicon(),
                spec_step(old(self).spec_input(), event).1,
                r.directive,
                old(self).spec_minimum(),
            ),
            spec_step(old(self).spec_input(), event).1 matches OutcomeModel::Completed(text, keys, boundary)
                ==> (r.kept_token is Some <==> spec_lexical_keeps(
                provider.spec_snapshot().spec_languages(),
                provider.spec_snapshot().spec_user_lexicon(),
                text,
                keys,
                old(self).spec_minimum(),
            )),
    {
        self.pending_correction = None;
        self.undo_candidate = None;
        self.pending_undo = None;
        let ghost input_before = self.input.model();
        assert(input_before == old(self).spec_input());
        let outcome = self.input.process(event);
        let ghost outcome_model = outcome.model();
        assert(spec_step(old(self).spec_input(), event).1 == outcome_model);
        let token = match outcome {
            InputOutcome::Completed(token) => token,
            _ => {
                return SessionStep { directive: AdaptiveCorrectionDirective::Pass, kept_token: None };
            },
        };
        let ghost languages = provider.spec_snapshot().spec_languages();
        let ghost user = provider.spec_snapshot().spec_user_lexicon();
        let candidates = provider.candidates(&token);
        let ghost offered = candidates@;
        let decision = decide_among_candidates(&token, candidates, self.minimum_confidence);
        proof {
            lemma_lexical_decision(
                languages,
                user,
                token.spec_text(),
                token.spec_keys(),
                offered,
                self.minimum_confidence@,
            );
        }
        match decision {
            CorrectionDecision::Keep => {
                SessionStep {
                    directive: AdaptiveCorrectionDirective::Pass,
                    kept_token: Some(token.text().to_owned()),
                }
            },
            CorrectionDecision::Replace(text) => {
                let ghost chosen = text@;
                let observed_text = token.text().to_owned();
                let replacement_text = text.as_str().to_owned();
                match self.replacements.plan(&token, CorrectionDecision::Replace(text)) {
                    Some(action) => {
                        self.pending_correction = Some(
                            PendingCorrection {
                                observed_text,
                                replacement_text,
                                observed_at_ms,
                                action: action.duplicate(),
                            },
                        );
                        proof {
                            assert(action.spec_replacement() == chosen);
                            assert(spec_decision(token.spec_text(), offered, self.minimum_confidence@) == Some(chosen));
                            assert(exists|c: nat| c >= self.minimum_confidence@ && #[trigger] spec_offered(languages, user, token.spec_text(), token.spec_keys(), chosen, c));
                            assert(outcome_model matches OutcomeModel::Completed(t, ks, _) && t == token.spec_text() && ks == token.spec_keys());
                            let directive_model = AdaptiveCorrectionDirective::Replace(action);
                            assert(directive_model matches AdaptiveCorrectionDirective::Replace(a) && a.spec_replacement() == action.spec_replacement());
                            assert(spec_provider_output(languages, user, token.spec_text(), token.spec_keys(), offered));
                            assert(spec_replacement_chosen(languages, user, outcome_model, directive_model, old(self).spec_minimum()));
                        }
                        SessionStep { directive: AdaptiveCorrectionDirective::Replace(action), kept_token: None }
                    },
                    None => SessionStep { directive: AdaptiveCorrectionDirective::Pass, kept_token: None },
                }
            },
        }
    }

    /// The result of injecting the pending replacement: an applied correction is handed back to
    /// be recorded; an aborted one is dropped.
    pub fn replacement_outcome(&mut self, outcome: ReplacementOutcome) -> (r: Option<PendingCorrection>)
        ensures
            final(self).spec_pending() is None,
            final(self).spec_input() == old(self).spec_input(),
            final(self).spec_minimum() == old(self).spec_minimum(),
            final(self).spec_undo_candidate() == old(self).spec_undo_candidate(),
            final(self).spec_pending_undo() == old(self).spec_pending_undo(),
            outcome == ReplacementOutcome::Applied ==> pending_model(r) == old(self).spec_pending(),
            outcome == ReplacementOutcome::Aborted ==> r is None,
    {
        let pending = self.pending_correction.take();
        match outcome {
            ReplacementOutcome::Applied => pending,
            ReplacementOutcome::Aborted => None,
        }
    }

    /// Arms an immediate Undo for a correction that was applied and recorded under `receipt`:
    /// only a correction that ended in an ordinary character can be undone.
    pub fn arm_undo(&mut self, applied: &PendingCorrection, receipt: R)
        ensures
            final(self).spec_input() == old(self).spec_input(),
            final(self).spec_minimum() == old(self).spec_minimum(),
            final(self).spec_pending() == old(self).spec_pending(),
            final(self).spec_pending_undo() == old(self).spec_pending_undo(),
            spec_armable(applied.model()) ==> final(self).spec_undo_candidate() == Some(
                (
                    receipt,
                    (
                        (applied.model().action.1.len() + 1) as nat,
                        applied.model().observed,
                        applied.model().action.2,
                    ),
                ),
            ),
            !spec_armable(applied.model()) ==> final(self).spec_undo_candidate() == old(self).spec_undo_candidate(),
    {
        match self.replacements.plan_immediate_undo(applied.observed_text.as_str(), &applied.action) {
            Some(undo) => {
                self.undo_candidate = Some((receipt, undo));
            },
            None => {},
        }
    }

    /// The Undo hotkey: hands out the armed Undo once, unless an Undo is already in flight.
    pub fn request_undo(&mut self, undone_at_ms: i64) -> (r: Option<ReplacementAction>)
        ensures
            final(self).spec_input() == old(self).spec_input(),
            final(self).spec_pending() == old(self).spec_pending(),
            old(self).spec_pending_undo() is Some ==> r is None && final(self).spec_undo_candidate()
                == old(self).spec_undo_candidate() && final(self).spec_pending_undo() == old(self).spec_pending_undo(),
            old(self).spec_pending_undo() is None && old(self).spec_undo_candidate() is None ==> r is None
                && final(self).spec_undo_candidate() is None && final(self).spec_pending_undo() is None,
            old(self).spec_pending_undo() is None ==> match old(self).spec_undo_candidate() {
                Some((receipt, action)) => r matches Some(a) && a.spec_effect() == action && final(self).spec_undo_candidate() is None
                    && final(self).spec_pending_undo() == Some((receipt, action, undone_at_ms)),
                None => true,
            },
    {
        if self.pending_undo.is_some() {
            return None;
        }
        let candidate = self.undo_candidate.take();
        match candidate {
            Some((receipt, action)) => {
                let handed_out = action.duplicate();
                self.pending_undo = Some((receipt, action, undone_at_ms));
                Some(handed_out)
            },
            None => None,
        }
    }

    /// The result of executing the Undo: applied hands back the receipt to commit; an Undo that
    /// sent nothing may be retried; an uncertain one is dropped.
    pub fn undo_outcome(&mut self, outcome: UndoOutcome) -> (r: Option<(R, i64)>)
        ensures
            final(self).spec_input() == old(self).spec_input(),
            final(self).spec_pending() == old(self).spec_pending(),
            final(self).spec_pending_undo() is None,
            match old(self).spec_pending_undo() {
                None => r is None && final(self).spec_undo_candidate() == old(self).spec_undo_candidate(),
                Some((receipt, action, at)) => match outcome {
                    UndoOutcome::Applied => r == Some((receipt, at)) && final(self).spec_undo_candidate()
                        == old(self).spec_undo_candidate(),
                    UndoOutcome::NotExecuted => r is None && final(self).spec_undo_candidate()
                        == Some((receipt, action)),
                    UndoOutcome::Uncertain => r is None && final(self).spec_undo_candidate()
                        == old(self).spec_undo_candidate(),
                },
            },
    {
        let pending = self.pending_undo.take();
        match pending {
            None => None,
            Some((receipt, action, undone_at_ms)) => match outcome {
                UndoOutcome::Applied => Some((receipt, undone_at_ms)),
                UndoOutcome::NotExecuted => {
                    self.undo_candidate = Some((receipt, action));
                    None
                },
                UndoOutcome::Uncertain => None,
            },
        }
    }
}

} // verus!
