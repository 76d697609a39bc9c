//! Replacement planning: typed-word replacement and explicit selected-text replacement.

pub mod replacement_engine;
pub mod selected_replacement;

pub use replacement_engine::{ReplacementAction, ReplacementEngine, ReplacementOutcome, UndoOutcome};
pub use selected_replacement::{
    SelectedReplacementAction, SelectedReplacementEngine, SelectedReplacementText,
    SelectedReplacementTextError, SelectedText, SelectedTextDecision, SelectedTextError,
};
