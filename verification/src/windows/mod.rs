//! The platform-neutral decisions behind the Windows keyboard hook, clipboard listener and
//! selected-text replacement.

pub mod keys;
pub mod keyboard_policy;
pub mod key_inputs;
pub mod keyboard_tracker;
pub mod clipboard_policy;

pub use keyboard_policy::{InputProcessor, RuntimeDirective, RuntimeError, UndoDirective};
