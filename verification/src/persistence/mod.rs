//! Persistent values: settings, correction history and the validation of stored rows.

pub mod settings;

pub use settings::{
    AppSettings, ClipboardHistoryLimit, CorrectionEventId, CorrectionUndoPlan, SettingsError,
    StoredValueError, UndoHotkey,
};
