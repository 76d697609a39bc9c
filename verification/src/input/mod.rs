//! Typed-input tracking: which characters belong to the token just before the caret.

pub mod input_buffer;

pub use input_buffer::{
    Boundary, BufferModel, CompletedToken, InputBuffer, InputEvent, InputOutcome, OutcomeModel,
    PhysicalKey, TypedCharacter,
};
