//! Plans the edit that replaces the token just before the caret, and the edit that undoes it.

use vstd::prelude::*;

use crate::correction::{CorrectionDecision, ReplacementText};
use crate::input::{Boundary, CompletedToken};
use crate::text::char_count;

verus! {

/// What happened when a replacement was executed.
#[derive(Debug, Clone, Copy, PartialEq, Eq)]
pub enum ReplacementOutcome {
    Applied,
    Aborted,
}

/// What happened when an Undo was executed: `NotExecuted` only when nothing was sent.
#[derive(Debug, Clone, Copy, PartialEq, Eq)]
pub enum UndoOutcome {
    Applied,
    NotExecuted,
    Uncertain,
}

/// Delete `delete_previous_chars` characters before the caret, type `replacement`, then replay
/// `boundary`.
#[derive(Debug, Clone, PartialEq, Eq)]
pub struct ReplacementAction {
    delete_previous_chars: usize,
    replacement: ReplacementText,
    boundary: Boundary,
}

impl ReplacementAction {
    pub closed spec fn spec_delete(&self) -> nat {
        self.delete_previous_chars as nat
    }

    pub closed spec fn spec_replacement(&self) -> Seq<char> {
        self.replacement@
    }

    pub closed spec fn spec_boundary(&self) -> Boundary {
        self.boundary
    }

    /// What the action does: how many characters it deletes, what it types, which boundary it
    /// replays.
    pub open spec fn spec_effect(&self) -> (nat, Seq<char>, Boundary) {
        (self.spec_delete(), self.spec_replacement(), self.spec_boundary())
    }

    pub fn delete_previous_chars(&self) -> (r: usize)
        ensures
            r == self.spec_delete(),
    {
        self.delete_previous_chars
    }

    pub fn replacement(&self) -> (r: &ReplacementText)
        ensures
            r@ == self.spec_replacement(),
    {
        &self.replacement
    }

    pub fn boundary(&self) -> (r: Boundary)
        ensures
            r == self.spec_boundary(),
    {
        self.boundary
    }

    /// A second handle on the same action.
    pub fn duplicate(&self) -> (r: Self)
        ensures
            r.spec_delete() == self.spec_delete(),
            r.spec_replacement() == self.spec_replacement(),
            r.spec_boundary() == self.spec_boundary(),
    {
        ReplacementAction {
            delete_previous_chars: self.delete_previous_chars,
            replacement: self.replacement.duplicate(),
            boundary: self.boundary,
        }
    }
}

#[derive(Debug, Default, Clone, Copy)]
pub struct ReplacementEngine;

impl ReplacementEngine {
    pub fn new() -> (r: Self) {
        ReplacementEngine
    }

    /// A replacement decision becomes: delete the token's characters, type the replacement,
    /// replay the token's boundary. Keep plans nothing.
    pub fn plan(&self, token: &CompletedToken, decision: CorrectionDecision) -> (r: Option<
        ReplacementAction,
    >)
        ensures
            decision is Keep ==> r is None,
            decision matches CorrectionDecision::Replace(text) ==> r matches Some(action) && action.spec_delete()
                == token.spec_text().len() && action.spec_replacement() == text@
                && action.spec_boundary() == token.spec_boundary(),
    {
        match decision {
            CorrectionDecision::Keep => None,
            CorrectionDecision::Replace(replacement) => Some(
                ReplacementAction {
                    delete_previous_chars: char_count(token.text()),
                    replacement,
                    boundary: token.boundary(),
                },
            ),
        }
    }

    /// Reverses an applied replacement that ended in an ordinary character: delete the
    /// replacement and its boundary character, type the original, replay the boundary. Enter
    /// and Tab are not reversible, and an original that is not valid replacement text cannot be
    /// restored.
    pub fn plan_immediate_undo(&self, original_text: &str, applied: &ReplacementAction) -> (r:
        Option<ReplacementAction>)
        ensures
            r is Some <==> (applied.spec_boundary() is Character && crate::correction::correction_engine::spec_valid_replacement(original_text@)
                && applied.spec_replacement().len() < usize::MAX),
            r matches Some(action) ==> action.spec_delete() == applied.spec_replacement().len() + 1
                && action.spec_replacement() == original_text@ && action.spec_boundary()
                == applied.spec_boundary(),
    {
        let boundary = match applied.boundary() {
            Boundary::Character(c) => c,
            _ => return None,
        };
        let original = match ReplacementText::try_new(original_text) {
            Ok(text) => text,
            Err(_) => return None,
        };
        let replaced = char_count(applied.replacement().as_str());
        if replaced == usize::MAX {
            return None;
        }
        Some(
            ReplacementAction {
                delete_previous_chars: replaced + 1,
                replacement: original,
                boundary: Boundary::Character(boundary),
            },
        )
    }
}

/// The text before the caret after executing an action that ends in a character boundary:
/// the deleted characters are gone, then the replacement and the boundary character follow.
pub open spec fn spec_apply(before: Seq<char>, delete: nat, replacement: Seq<char>, boundary: char) -> Seq<
    char,
> {
    before.take(before.len() - delete) + replacement + seq![boundary]
}

/// Undo restores the user's own typing: executing a planned replacement of a token that ended
/// in a character boundary, then its planned immediate Undo, leaves the text before the caret as
/// if the token and its boundary had been typed without correction.
pub proof fn lemma_undo_restores_typed_text(
    prefix: Seq<char>,
    token: CompletedToken,
    applied: ReplacementAction,
    undo: ReplacementAction,
    boundary: char,
)
    requires
        token.spec_boundary() == Boundary::Character(boundary),
        applied.spec_delete() == token.spec_text().len(),
        applied.spec_boundary() == token.spec_boundary(),
        undo.spec_delete() == applied.spec_replacement().len() + 1,
        undo.spec_replacement() == token.spec_text(),
        undo.spec_boundary() == applied.spec_boundary(),
    ensures
        ({
            let corrected = spec_apply(
                prefix + token.spec_text(),
                applied.spec_delete(),
                applied.spec_replacement(),
                boundary,
            );
            spec_apply(corrected, undo.spec_delete(), undo.spec_replacement(), boundary) == prefix
                + token.spec_text() + seq![boundary]
        }),
{
    let typed = prefix + token.spec_text();
    assert(typed.take(typed.len() - applied.spec_delete()) =~= prefix);
    let corrected = prefix + applied.spec_replacement() + seq![boundary];
    assert(spec_apply(typed, applied.spec_delete(), applied.spec_replacement(), boundary)
        =~= corrected);
    assert(corrected.take(corrected.len() - undo.spec_delete()) =~= prefix);
}

} // verus!
