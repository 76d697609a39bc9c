//! The state the keyboard hook keeps between events, and what each key event does to it.

use vstd::prelude::*;

use super::keyboard_policy::{
    input_ownership_matches, preclassify_key_down, spec_key_down, spec_preclassify_key_down,
    spec_undo_hotkey_matches, spec_updated_keyboard, undo_hotkey_matches, update_keyboard_state,
    InputOwnershipStamp, KeyDownDisposition,
};
use super::keys::{VK_CONTROL, VK_LWIN, VK_MENU, VK_RWIN};
use crate::persistence::UndoHotkey;

verus! {

/// The tracked modifier and toggle state, the key-up to swallow, the foreground window, the
/// Undo binding and the count of observed external inputs.
pub struct TrackerModel {
    pub keys: Seq<u8>,
    pub suppressed_keyup: Option<u32>,
    pub foreground: usize,
    pub hotkey: UndoHotkey,
    pub revision: u64,
}

/// What the hook does with a key event once the tracker has recorded it.
#[derive(Debug, Clone, Copy, PartialEq, Eq)]
pub enum KeyEventPlan {
    /// Pass the key-up on, or swallow it when it belongs to a key-down the hook replaced.
    KeyUp { suppress: bool },
    /// The Undo binding was pressed.
    UndoHotkey { ownership_stamp: InputOwnershipStamp },
    /// A key-down for the input processor.
    KeyDown { disposition: KeyDownDisposition, ownership_stamp: InputOwnershipStamp },
}

/// The plan, and whether tracked text must be invalidated first (the focus moved).
#[derive(Debug, Clone, Copy, PartialEq, Eq)]
pub struct KeyEventStep {
    pub invalidate_first: bool,
    pub plan: KeyEventPlan,
}

/// The revision after one more external input (wrapping).
pub open spec fn spec_next_revision(revision: u64) -> u64 {
    if revision == u64::MAX {
        0
    } else {
        (revision + 1) as u64
    }
}

/// Ctrl, Alt or a Windows key is down.
pub open spec fn spec_command_modifier_active(keys: Seq<u8>) -> bool {
    spec_key_down(keys, VK_CONTROL) || spec_key_down(keys, VK_MENU) || spec_key_down(keys, VK_LWIN)
        || spec_key_down(keys, VK_RWIN)
}

/// A key event: counts as external input; a key-down first follows the focus (invalidating on a
/// change) and records the transition; a key-up records it and may be swallowed once; a
/// key-down is the Undo binding or goes to the processor.
pub open spec fn spec_begin_key_event(m: TrackerModel, vk: u32, down: bool, foreground: usize) -> (
    TrackerModel,
    KeyEventStep,
) {
    let revision = spec_next_revision(m.revision);
    let invalidate_first = down && m.foreground != foreground;
    let tracked_foreground = if down {
        foreground
    } else {
        m.foreground
    };
    let keys = spec_updated_keyboard(m.keys, vk, down);
    let stamp = InputOwnershipStamp { input_revision: revision, foreground_window_id: tracked_foreground };
    if !down {
        let suppress = m.suppressed_keyup == Some(vk);
        (
            TrackerModel {
                keys,
                suppressed_keyup: if suppress {
                    None
                } else {
                    m.suppressed_keyup
                },
                foreground: tracked_foreground,
                hotkey: m.hotkey,
                revision,
            },
            KeyEventStep { invalidate_first, plan: KeyEventPlan::KeyUp { suppress } },
        )
    } else {
        let next = TrackerModel {
            keys,
            suppressed_keyup: m.suppressed_keyup,
            foreground: tracked_foreground,
            hotkey: m.hotkey,
            revision,
        };
        if spec_undo_hotkey_matches(m.hotkey, vk, keys) {
            (
                next,
                KeyEventStep {
                    invalidate_first,
                    plan: KeyEventPlan::UndoHotkey { ownership_stamp: stamp },
                },
            )
        } else {
            (
                next,
                KeyEventStep {
                    invalidate_first,
                    plan: KeyEventPlan::KeyDown {
                        disposition: spec_preclassify_key_down(
                            vk,
                            spec_command_modifier_active(keys),
                        ),
                        ownership_stamp: stamp,
                    },
                },
            )
        }
    }
}

/// The keyboard hook's state between events.
pub struct KeyboardTracker {
    keyboard_state: [u8; 256],
    suppressed_keyup_vk: Option<u32>,
    foreground_window_id: usize,
    undo_hotkey: UndoHotkey,
    input_revision: u64,
}

impl KeyboardTracker {
    pub closed spec fn model(&self) -> TrackerModel {
        TrackerModel {
            keys: self.keyboard_state@,
            suppressed_keyup: self.suppressed_keyup_vk,
            foreground: self.foreground_window_id,
            hotkey: self.undo_hotkey,
            revision: self.input_revision,
        }
    }

    /// Starts from the keyboard state and foreground window read when the hook is attached.
    pub fn new(keyboard_state: [u8; 256], foreground_window_id: usize, undo_hotkey: UndoHotkey) -> (r: Self)
        ensures
            r.model() == (TrackerModel {
                keys: keyboard_state@,
                suppressed_keyup: None,
                foreground: foreground_window_id,
                hotkey: undo_hotkey,
                revision: 0,
            }),
    {
        KeyboardTracker {
            keyboard_state,
            suppressed_keyup_vk: None,
            foreground_window_id,
            undo_hotkey,
            input_revision: 0,
        }
    }

    /// Counts one more external input.
    pub fn note_external_input(&mut self)
        ensures
            final(self).model() == (TrackerModel {
                revision: spec_next_revision(old(self).model().revision),
                ..old(self).model()
            }),
    {
        self.input_revision = if self.input_revision == u64::MAX {
            0
        } else {
            self.input_revision + 1
        };
    }

    /// Records a key transition.
    pub fn update_key_state(&mut self, vk_code: u32, is_key_down: bool)
        ensures
            final(self).model() == (TrackerModel {
                keys: spec_updated_keyboard(old(self).model().keys, vk_code, is_key_down),
                ..old(self).model()
            }),
    {
        update_keyboard_state(&mut self.keyboard_state, vk_code, is_key_down);
    }

    /// Follows the focus; true when it moved.
    pub fn sync_foreground_window(&mut self, current: usize) -> (r: bool)
        ensures
            r == (old(self).model().foreground != current),
            final(self).model() == (TrackerModel { foreground: current, ..old(self).model() }),
    {
        let changed = self.foreground_window_id != current;
        self.foreground_window_id = current;
        changed
    }

    /// The tracked modifier and toggle state, in the layout keyboard-state functions read.
    pub fn keyboard_state(&self) -> (r: [u8; 256])
        ensures
            r@ == self.model().keys,
    {
        self.keyboard_state
    }

    pub fn command_modifier_active(&self) -> (r: bool)
        ensures
            r == spec_command_modifier_active(self.model().keys),
    {
        (self.keyboard_state[VK_CONTROL as usize] & 0x80) != 0 || (self.keyboard_state[VK_MENU as usize]
            & 0x80) != 0 || (self.keyboard_state[VK_LWIN as usize] & 0x80) != 0 || (
        self.keyboard_state[VK_RWIN as usize] & 0x80) != 0
    }

    pub fn undo_hotkey_matches(&self, vk_code: u32) -> (r: bool)
        ensures
            r == spec_undo_hotkey_matches(self.model().hotkey, vk_code, self.model().keys),
    {
        undo_hotkey_matches(self.undo_hotkey, vk_code, &self.keyboard_state)
    }

    pub fn ownership_stamp(&self) -> (r: InputOwnershipStamp)
        ensures
            r == (InputOwnershipStamp {
                input_revision: self.model().revision,
                foreground_window_id: self.model().foreground,
            }),
    {
        InputOwnershipStamp::new(self.input_revision, self.foreground_window_id)
    }

    /// Whether a side effect planned under `expected` is still safe now that `current` has the
    /// focus.
    pub fn ownership_unchanged(&self, expected: InputOwnershipStamp, current: usize) -> (r: bool)
        ensures
            r == (self.model().revision == expected.input_revision && self.model().foreground
                == expected.foreground_window_id && current == expected.foreground_window_id),
    {
        input_ownership_matches(expected, self.input_revision, self.foreground_window_id, current)
    }

    /// Swallows the next key-up of this key.
    pub fn suppress_keyup(&mut self, vk_code: u32)
        ensures
            final(self).model() == (TrackerModel {
                suppressed_keyup: Some(vk_code),
                ..old(self).model()
            }),
    {
        self.suppressed_keyup_vk = Some(vk_code);
    }

    /// An event injected by another program: it counts as external input, and its transition
    /// is recorded only when the downstream hooks let it through.
    pub fn note_foreign_event(&mut self, vk_code: u32, is_key_down: bool, passed_on: bool)
        ensures
            final(self).model() == (TrackerModel {
                keys: if passed_on {
                    spec_updated_keyboard(old(self).model().keys, vk_code, is_key_down)
                } else {
                    old(self).model().keys
                },
                revision: spec_next_revision(old(self).model().revision),
                ..old(self).model()
            }),
    {
        self.note_external_input();
        if passed_on {
            self.update_key_state(vk_code, is_key_down);
        }
    }

    /// Records a key event from the physical keyboard and decides what the hook does with it.
    pub fn begin_key_event(&mut self, vk_code: u32, is_key_down: bool, foreground_window_id: usize) -> (r:
        KeyEventStep)
        ensures
            (final(self).model(), r) == spec_begin_key_event(
                old(self).model(),
                vk_code,
                is_key_down,
                foreground_window_id,
            ),
    {
        self.note_external_input();
        let mut invalidate_first = false;
        if is_key_down {
            invalidate_first = self.sync_foreground_window(foreground_window_id);
        }
        self.update_key_state(vk_code, is_key_down);
        let ownership_stamp = self.ownership_stamp();
        if !is_key_down {
            let suppress = match self.suppressed_keyup_vk {
                Some(vk) => vk == vk_code,
                None => false,
            };
            if suppress {
                self.suppressed_keyup_vk = None;
            }
            return KeyEventStep { invalidate_first, plan: KeyEventPlan::KeyUp { suppress } };
        }
        if self.undo_hotkey_matches(vk_code) {
            return KeyEventStep { invalidate_first, plan: KeyEventPlan::UndoHotkey { ownership_stamp } };
        }
        let disposition = preclassify_key_down(vk_code, self.command_modifier_active());
        KeyEventStep { invalidate_first, plan: KeyEventPlan::KeyDown { disposition, ownership_stamp } }
    }
}

} // verus!
