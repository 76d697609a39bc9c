//! Keyboard-layout aware typo correction for typed words and selected text.

pub mod text;
pub mod order;
pub mod input;
pub mod correction;
pub mod replacement;
pub mod language;
pub mod lexicon;
pub mod persistence;
pub mod windows;
pub mod adaptive;
