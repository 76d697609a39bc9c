//! Clipboard decisions: which clipboard states can be preserved around a selection copy, which
//! clipboard changes belong to the user, and the selected-text session built on a copy.

use vstd::prelude::*;

use super::key_inputs::{build_selected_text_inputs, spec_key_press, spec_unicode_presses, spec_utf16, KeyInput};
use super::keyboard_policy::RuntimeError;
use super::keys::{CF_HDROP, VK_DELETE};
use crate::replacement::{SelectedReplacementAction, SelectedText};

verus! {

/// How the clipboard is preserved around a selection copy.
#[derive(Debug, Clone, Copy, PartialEq, Eq, Structural)]
pub enum ClipboardSnapshotMode {
    Empty,
    UnicodeText,
    FileDrop,
    Image,
    Unsupported,
}

/// An empty clipboard is empty; otherwise copied files win over images, images over text;
/// anything else cannot be preserved.
pub fn classify_clipboard_snapshot(
    format_count: i32,
    unicode_text_available: bool,
    file_drop_available: bool,
    image_available: bool,
) -> (r: ClipboardSnapshotMode)
    ensures
        r == (if format_count == 0 {
            ClipboardSnapshotMode::Empty
        } else if file_drop_available {
            ClipboardSnapshotMode::FileDrop
        } else if image_available {
            ClipboardSnapshotMode::Image
        } else if unicode_text_available {
            ClipboardSnapshotMode::UnicodeText
        } else {
            ClipboardSnapshotMode::Unsupported
        }),
{
    if format_count == 0 {
        ClipboardSnapshotMode::Empty
    } else if file_drop_available {
        ClipboardSnapshotMode::FileDrop
    } else if image_available {
        ClipboardSnapshotMode::Image
    } else if unicode_text_available {
        ClipboardSnapshotMode::UnicodeText
    } else {
        ClipboardSnapshotMode::Unsupported
    }
}

/// A clipboard change is worth reading when the sequence moved, no internal clipboard operation
/// is running, and the change is not the one the last internal operation made.
pub open spec fn spec_should_observe(
    last_seen: u32,
    current: u32,
    internal_depth: u32,
    last_internal_sequence: u32,
) -> bool {
    current != last_seen && internal_depth == 0 && current != last_internal_sequence
}

pub fn should_observe_clipboard_sequence(
    last_seen: u32,
    current: u32,
    internal_depth: u32,
    last_internal_sequence: u32,
) -> (r: bool)
    ensures
        r == spec_should_observe(last_seen, current, internal_depth, last_internal_sequence),
{
    current != last_seen && internal_depth == 0 && current != last_internal_sequence
}

/// A read is delivered only when the clipboard did not change during the read and the change is
/// the user's.
pub open spec fn spec_should_deliver(
    expected_sequence: u32,
    after_read_sequence: u32,
    internal_depth: u32,
    last_internal_sequence: u32,
) -> bool {
    expected_sequence == after_read_sequence && internal_depth == 0 && after_read_sequence
        != last_internal_sequence
}

pub fn should_deliver_clipboard_read(
    expected_sequence: u32,
    after_read_sequence: u32,
    internal_depth: u32,
    last_internal_sequence: u32,
) -> (r: bool)
    ensures
        r == spec_should_deliver(
            expected_sequence,
            after_read_sequence,
            internal_depth,
            last_internal_sequence,
        ),
{
    expected_sequence == after_read_sequence && internal_depth == 0 && after_read_sequence
        != last_internal_sequence
}

/// What the clipboard held before a selection copy, kept to restore it afterwards: nothing,
/// Unicode text, a file list (its `CF_HDROP` bytes and, when present, the Preferred DropEffect
/// format with its bytes), or the bytes of each image format.
#[derive(Debug, Clone, PartialEq, Eq)]
pub enum ClipboardSnapshotKind {
    Empty,
    UnicodeText(String),
    FileDrop { hdrop: Vec<u8>, preferred_drop_effect: Option<(u32, Vec<u8>)> },
    Image { formats: Vec<(u32, Vec<u8>)> },
}

/// What was read back from the clipboard after restoring it: its format count, its Unicode
/// text if any, and for each format asked about, its bytes, or none when it is not there.
#[derive(Debug, Clone, PartialEq, Eq)]
pub struct ClipboardReading {
    pub format_count: i32,
    pub text: Option<String>,
    pub formats: Vec<(u32, Option<Vec<u8>>)>,
}

/// The bytes read for a format: those of the first reading of it, none when it was not there
/// or not read.
pub open spec fn spec_read_format(formats: Seq<(u32, Option<Vec<u8>>)>, format: u32) -> Option<Seq<u8>>
    decreases formats.len(),
{
    if formats.len() == 0 {
        None
    } else if formats[0].0 == format {
        match formats[0].1 {
            Some(bytes) => Some(bytes@),
            None => None,
        }
    } else {
        spec_read_format(formats.drop_first(), format)
    }
}

/// The restored clipboard is the snapshot: empty when nothing was held; the same text; the same
/// file-list bytes, and the same Preferred DropEffect bytes when one was held; every image
/// format present with the same bytes.
pub open spec fn spec_snapshot_matches(expected: ClipboardSnapshotKind, actual: ClipboardReading) -> bool {
    match expected {
        ClipboardSnapshotKind::Empty => actual.format_count == 0,
        ClipboardSnapshotKind::UnicodeText(text) => actual.text matches Some(a) && a@ == text@,
        ClipboardSnapshotKind::FileDrop { hdrop, preferred_drop_effect } => {
            &&& spec_read_format(actual.formats@, CF_HDROP) == Some(hdrop@)
            &&& match preferred_drop_effect {
                None => true,
                Some(effect) => spec_read_format(actual.formats@, effect.0) == Some(effect.1@),
            }
        },
        ClipboardSnapshotKind::Image { formats } => forall|k: int|
            0 <= k < formats@.len() ==> spec_read_format(actual.formats@, (#[trigger] formats@[k]).0)
                == Some(formats@[k].1@),
    }
}

fn bytes_eq(a: &Vec<u8>, b: &Vec<u8>) -> (r: bool)
    ensures
        r == (a@ == b@),
{
    if a.len() != b.len() {
        return false;
    }
    let mut i: usize = 0;
    while i < a.len()
        invariant
            i <= a@.len(),
            a@.len() == b@.len(),
            forall|k: int| 0 <= k < i ==> a@[k] == b@[k],
        decreases a@.len() - i,
    {
        if a[i] != b[i] {
            return false;
        }
        i = i + 1;
    }
    assert(a@ =~= b@);
    true
}

/// Whether the format was read with exactly these bytes.
fn format_read_as(formats: &Vec<(u32, Option<Vec<u8>>)>, format: u32, expected: &Vec<u8>) -> (r: bool)
    ensures
        r == (spec_read_format(formats@, format) == Some(expected@)),
{
    let mut i: usize = 0;
    assert(formats@.skip(0) =~= formats@);
    while i < formats.len()
        invariant
            i <= formats@.len(),
            spec_read_format(formats@.skip(i as int), format) == spec_read_format(formats@, format),
        decreases formats@.len() - i,
    {
        assert(formats@.skip(i as int).drop_first() =~= formats@.skip(i + 1));
        assert(formats@.skip(i as int)[0] == formats@[i as int]);
        if formats[i].0 == format {
            return match &formats[i].1 {
                Some(bytes) => bytes_eq(bytes, expected),
                None => false,
            };
        }
        i = i + 1;
    }
    assert(formats@.skip(i as int) =~= Seq::<(u32, Option<Vec<u8>>)>::empty());
    false
}

/// Whether the restored clipboard is the snapshot.
pub fn clipboard_snapshot_matches(expected: &ClipboardSnapshotKind, actual: &ClipboardReading) -> (r: bool)
    ensures
        r == spec_snapshot_matches(*expected, *actual),
{
    match expected {
        ClipboardSnapshotKind::Empty => actual.format_count == 0,
        ClipboardSnapshotKind::UnicodeText(text) => match &actual.text {
            Some(a) => crate::text::str_eq(a.as_str(), text.as_str()),
            None => false,
        },
        ClipboardSnapshotKind::FileDrop { hdrop, preferred_drop_effect } => {
            if !format_read_as(&actual.formats, CF_HDROP, hdrop) {
                return false;
            }
            match preferred_drop_effect {
                None => true,
                Some((format, bytes)) => format_read_as(&actual.formats, *format, bytes),
            }
        },
        ClipboardSnapshotKind::Image { formats } => {
            let mut k: usize = 0;
            while k < formats.len()
                invariant
                    k <= formats@.len(),
                    *expected == (ClipboardSnapshotKind::Image { formats: *formats }),
                    forall|j: int|
                        0 <= j < k ==> spec_read_format(actual.formats@, (#[trigger] formats@[j]).0)
                            == Some(formats@[j].1@),
                decreases formats@.len() - k,
            {
                if !format_read_as(&actual.formats, formats[k].0, &formats[k].1) {
                    let ghost j = k as int;
                    assert(spec_read_format(actual.formats@, formats@[j].0) != Some(formats@[j].1@));
                    return false;
                }
                k = k + 1;
            }
            true
        },
    }
}

#[derive(Debug, Clone, Copy, PartialEq, Eq)]
pub enum ClipboardListenerError {
    ThreadSpawnFailed,
}

/// What the clipboard listener does on a poll tick.
#[derive(Debug, Clone, Copy, PartialEq, Eq, Structural)]
pub enum WatchTick {
    /// Nothing to read.
    Skip,
    /// Read the clipboard text, which the sequence number says changed.
    Read { sequence: u32 },
}

/// The clipboard listener's memory: the last clipboard sequence number it has dealt with.
pub struct ClipboardWatch {
    last_seen: u32,
}

impl ClipboardWatch {
    pub closed spec fn spec_last_seen(&self) -> u32 {
        self.last_seen
    }

    /// Starts from the sequence number at startup, so the clipboard's startup content is never
    /// delivered.
    pub fn new(initial_sequence: u32) -> (r: Self)
        ensures
            r.spec_last_seen() == initial_sequence,
    {
        ClipboardWatch { last_seen: initial_sequence }
    }

    /// A poll: read a change worth observing; otherwise remember the current sequence.
    pub fn on_tick(&mut self, current: u32, internal_depth: u32, last_internal_sequence: u32) -> (r:
        WatchTick)
        ensures
            spec_should_observe(old(self).spec_last_seen(), current, internal_depth, last_internal_sequence)
                ==> (r == (WatchTick::Read { sequence: current }) && final(self).spec_last_seen()
                == old(self).spec_last_seen()),
            !spec_should_observe(old(self).spec_last_seen(), current, internal_depth, last_internal_sequence)
                ==> (r == WatchTick::Skip && final(self).spec_last_seen() == current),
    {
        if !should_observe_clipboard_sequence(self.last_seen, current, internal_depth, last_internal_sequence) {
            self.last_seen = current;
            return WatchTick::Skip;
        }
        WatchTick::Read { sequence: current }
    }

    /// After a read of the change at `sequence`: deliver non-empty text of a stable user change,
    /// and mark the change as dealt with; a change that was internal is marked too; a change that
    /// moved during the read stays pending.
    pub fn after_read(
        &mut self,
        sequence: u32,
        after_read_sequence: u32,
        internal_depth: u32,
        last_internal_sequence: u32,
        text: Option<String>,
    ) -> (r: Option<String>)
        ensures
            spec_should_deliver(sequence, after_read_sequence, internal_depth, last_internal_sequence)
                ==> (final(self).spec_last_seen() == sequence && match text {
                Some(t) => if t@.len() > 0 {
                    r matches Some(s) && s@ == t@
                } else {
                    r is None
                },
                None => r is None,
            }),
            !spec_should_deliver(sequence, after_read_sequence, internal_depth, last_internal_sequence)
                ==> (r is None && final(self).spec_last_seen() == (if after_read_sequence == sequence && (
            internal_depth != 0 || after_read_sequence == last_internal_sequence) {
                after_read_sequence
            } else {
                old(self).spec_last_seen()
            })),
    {
        if !should_deliver_clipboard_read(sequence, after_read_sequence, internal_depth, last_internal_sequence) {
            if after_read_sequence == sequence && (internal_depth != 0 || after_read_sequence
                == last_internal_sequence) {
                self.last_seen = after_read_sequence;
            }
            return None;
        }
        self.last_seen = sequence;
        match text {
            Some(t) => {
                if t.as_str().is_empty() {
                    None
                } else {
                    Some(t)
                }
            },
            None => None,
        }
    }
}

#[derive(Debug, Clone, PartialEq, Eq)]
pub enum SelectedTextRuntimeError {
    ClipboardSnapshotFailed,
    UnsupportedClipboardState,
    ClipboardRestoreVerificationFailed,
    ClipboardOpenTimeout,
    ClipboardReadFailed,
    ClipboardWriteFailed,
    ClipboardTextDecodeFailed,
    KeyboardInjection(RuntimeError),
    ActionDoesNotMatchSelection,
}

/// A selection captured through the clipboard.
pub struct SelectedTextSession {
    selected: SelectedText,
}

impl SelectedTextSession {
    pub closed spec fn spec_selected(&self) -> Seq<char> {
        self.selected@
    }

    /// A session for copied text; none when nothing was copied or the text cannot be a
    /// selection (empty, or holding NUL).
    pub fn from_copied_text(text: Option<String>) -> (r: Option<Self>)
        ensures
            match text {
                Some(t) => if t@.len() > 0 && !t@.contains('\0') {
                    r matches Some(s) && s.spec_selected() == t@
                } else {
                    r is None
                },
                None => r is None,
            },
    {
        match text {
            Some(t) => match SelectedText::try_new(t.as_str()) {
                Ok(selected) => Some(SelectedTextSession { selected }),
                Err(_) => None,
            },
            None => None,
        }
    }

    pub fn selected_text(&self) -> (r: &SelectedText)
        ensures
            r@ == self.spec_selected(),
    {
        &self.selected
    }

    /// The events that apply a replacement planned for this selection; refused when the action
    /// was planned for another selection.
    pub fn apply(self, action: &SelectedReplacementAction) -> (r: Result<Vec<KeyInput>, SelectedTextRuntimeError>)
        ensures
            action.spec_source() != self.spec_selected() ==> r == Err::<Vec<KeyInput>, _>(
                SelectedTextRuntimeError::ActionDoesNotMatchSelection,
            ),
            action.spec_source() == self.spec_selected() ==> (r matches Ok(inputs) && inputs@ == (if action.spec_replacement().len() == 0 {
                spec_key_press(VK_DELETE)
            } else {
                spec_unicode_presses(spec_utf16(action.spec_replacement()))
            })),
    {
        if !crate::text::str_eq(action.source().as_str(), self.selected.as_str()) {
            return Err(SelectedTextRuntimeError::ActionDoesNotMatchSelection);
        }
        Ok(build_selected_text_inputs(action.replacement().as_str()))
    }

    /// Ends the session without replacing anything.
    pub fn finish_without_replacement(self) -> (r: Result<(), SelectedTextRuntimeError>)
        ensures
            r is Ok,
    {
        Ok(())
    }
}

} // verus!
