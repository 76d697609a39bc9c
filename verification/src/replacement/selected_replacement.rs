//! Plans the explicit replacement of user-selected text.

use vstd::prelude::*;

use crate::text::{str_contains, str_eq};

verus! {

/// Selected text: non-empty and free of NUL.
#[derive(Debug, Clone, PartialEq, Eq)]
pub struct SelectedText(String);

#[derive(Debug, Clone, Copy, PartialEq, Eq)]
pub struct SelectedTextError;

impl View for SelectedText {
    type V = Seq<char>;

    closed spec fn view(&self) -> Seq<char> {
        self.0@
    }
}

impl SelectedText {
    pub fn try_new(value: &str) -> (r: Result<Self, SelectedTextError>)
        ensures
            r is Ok <==> (value@.len() > 0 && !value@.contains('\0')),
            r matches Ok(text) ==> text@ == value@,
    {
        if value.is_empty() || str_contains(value, '\0') {
            return Err(SelectedTextError);
        }
        Ok(SelectedText(value.to_owned()))
    }

    pub fn as_str(&self) -> (r: &str)
        ensures
            r@ == self@,
    {
        self.0.as_str()
    }
}

/// Replacement for a selection: free of NUL; empty text deletes the selection.
#[derive(Debug, Clone, PartialEq, Eq)]
pub struct SelectedReplacementText(String);

#[derive(Debug, Clone, Copy, PartialEq, Eq)]
pub struct SelectedReplacementTextError;

impl View for SelectedReplacementText {
    type V = Seq<char>;

    closed spec fn view(&self) -> Seq<char> {
        self.0@
    }
}

impl SelectedReplacementText {
    pub fn try_new(value: &str) -> (r: Result<Self, SelectedReplacementTextError>)
        ensures
            r is Ok <==> !value@.contains('\0'),
            r matches Ok(text) ==> text@ == value@,
    {
        if str_contains(value, '\0') {
            return Err(SelectedReplacementTextError);
        }
        Ok(SelectedReplacementText(value.to_owned()))
    }

    pub fn as_str(&self) -> (r: &str)
        ensures
            r@ == self@,
    {
        self.0.as_str()
    }
}

#[derive(Debug, Clone, PartialEq, Eq)]
pub enum SelectedTextDecision {
    Keep,
    Replace(SelectedReplacementText),
}

#[derive(Debug, Clone, PartialEq, Eq)]
pub struct SelectedReplacementAction {
    source: SelectedText,
    replacement: SelectedReplacementText,
}

impl SelectedReplacementAction {
    pub closed spec fn spec_source(&self) -> Seq<char> {
        self.source@
    }

    pub closed spec fn spec_replacement(&self) -> Seq<char> {
        self.replacement@
    }

    pub fn source(&self) -> (r: &SelectedText)
        ensures
            r@ == self.spec_source(),
    {
        &self.source
    }

    pub fn replacement(&self) -> (r: &SelectedReplacementText)
        ensures
            r@ == self.spec_replacement(),
    {
        &self.replacement
    }
}

#[derive(Debug, Default, Clone, Copy)]
pub struct SelectedReplacementEngine;

impl SelectedReplacementEngine {
    pub fn new() -> (r: Self) {
        SelectedReplacementEngine
    }

    /// Keep, and a replacement identical to the selection, plan nothing; any other replacement
    /// plans replacing exactly this selection with exactly that text.
    pub fn plan(&self, selected: SelectedText, decision: SelectedTextDecision) -> (r: Option<
        SelectedReplacementAction,
    >)
        ensures
            decision is Keep ==> r is None,
            decision matches SelectedTextDecision::Replace(text) ==> (r is Some <==> text@
                != selected@),
            r matches Some(action) ==> action.spec_source() == selected@,
            r matches Some(action) ==> (decision matches SelectedTextDecision::Replace(text)
                && action.spec_replacement() == text@),
    {
        let replacement = match decision {
            SelectedTextDecision::Keep => return None,
            SelectedTextDecision::Replace(replacement) => replacement,
        };
        if str_eq(selected.as_str(), replacement.as_str()) {
            return None;
        }
        Some(SelectedReplacementAction { source: selected, replacement })
    }
}

} // verus!
