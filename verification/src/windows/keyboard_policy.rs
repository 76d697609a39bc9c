//! The decisions of the global keyboard hook: how a key event affects the tracked modifier
//! state and the typed token, when tracked text ownership is stale, what a finished injection
//! means for correction and Undo, and which key events a replacement injects.

use vstd::array::ArrayAdditionalExecFns;
use vstd::prelude::*;

use super::keys::{
    LLKHF_INJECTED, SUNSWITCHER_INJECTED_MARKER, VK_BACK, VK_CAPITAL, VK_CONTROL, VK_DELETE, VK_DOWN, VK_END, VK_ESCAPE, VK_HOME, VK_INSERT, VK_LCONTROL, VK_LEFT, VK_LMENU, VK_LSHIFT, VK_LWIN, VK_MENU, VK_NEXT, VK_NUMLOCK, VK_OEM_1, VK_OEM_3, VK_OEM_4, VK_OEM_6, VK_OEM_7, VK_OEM_COMMA, VK_OEM_PERIOD, VK_PAUSE, VK_PRIOR, VK_RCONTROL, VK_RETURN, VK_RIGHT, VK_RMENU, VK_RSHIFT, VK_RWIN, VK_SCROLL, VK_SHIFT, VK_TAB, VK_UP, WM_LBUTTONDOWN, WM_MBUTTONDOWN, WM_RBUTTONDOWN, WM_XBUTTONDOWN,
};
use crate::input::{Boundary, InputEvent, PhysicalKey};
use crate::persistence::UndoHotkey;
use crate::replacement::{ReplacementAction, ReplacementOutcome, UndoOutcome};

verus! {

/// Receives the hook's input events and side-effect results. By default a processor ignores
/// side-effect results and has nothing to undo.
pub trait InputProcessor {
    fn process(&mut self, event: InputEvent) -> RuntimeDirective;

    fn replacement_outcome(&mut self, outcome: ReplacementOutcome) {
    }

    fn undo(&mut self) -> (r: UndoDirective)
        default_ensures
            r == UndoDirective::Pass,
    {
        UndoDirective::Pass
    }

    fn undo_outcome(&mut self, outcome: UndoOutcome) {
    }
}

#[derive(Debug, Clone, PartialEq, Eq)]
pub enum RuntimeDirective {
    Pass,
    Replace(ReplacementAction),
}

#[derive(Debug, Clone, PartialEq, Eq)]
pub enum UndoDirective {
    Pass,
    Restore(ReplacementAction),
}

#[derive(Debug, Clone, PartialEq, Eq, Structural)]
pub enum RuntimeError {
    AlreadyRunning,
    RuntimeStateUnavailable,
    HookInstallFailed,
    MouseHookInstallFailed,
    HookUninstallFailed,
    MouseHookUninstallFailed,
    MessageLoopFailed,
    InjectionFailed { expected: u32, sent: u32 },
}

/// The input revision and foreground window a side effect was planned under.
#[derive(Debug, Clone, Copy, PartialEq, Eq, Structural)]
pub struct InputOwnershipStamp {
    pub input_revision: u64,
    pub foreground_window_id: usize,
}

impl InputOwnershipStamp {
    pub fn new(input_revision: u64, foreground_window_id: usize) -> (r: Self)
        ensures
            r.input_revision == input_revision,
            r.foreground_window_id == foreground_window_id,
    {
        InputOwnershipStamp { input_revision, foreground_window_id }
    }
}

/// A foreground change means the tracked text no longer belongs to the focused window.
pub fn foreground_change_requires_invalidation(previous: usize, current: usize) -> (r: bool)
    ensures
        r == (previous != current),
{
    previous != current
}

/// A planned side effect is still safe when no input arrived and no window took the focus.
pub fn input_ownership_matches(
    expected: InputOwnershipStamp,
    current_revision: u64,
    tracked_foreground_window_id: usize,
    current_foreground_window_id: usize,
) -> (r: bool)
    ensures
        r == (current_revision == expected.input_revision && tracked_foreground_window_id
            == expected.foreground_window_id && current_foreground_window_id
            == expected.foreground_window_id),
{
    current_revision == expected.input_revision && tracked_foreground_window_id
        == expected.foreground_window_id && current_foreground_window_id
        == expected.foreground_window_id
}

pub open spec fn spec_is_toggle_key(vk: u32) -> bool {
    vk == VK_CAPITAL as u32 || vk == VK_NUMLOCK as u32 || vk == VK_SCROLL as u32
}

pub fn is_toggle_key(vk_code: u32) -> (r: bool)
    ensures
        r == spec_is_toggle_key(vk_code),
{
    vk_code == VK_CAPITAL as u32 || vk_code == VK_NUMLOCK as u32 || vk_code == VK_SCROLL as u32
}

pub open spec fn spec_is_shift_modifier_key(vk: u32) -> bool {
    vk == VK_SHIFT as u32 || vk == VK_LSHIFT as u32 || vk == VK_RSHIFT as u32
}

pub fn is_shift_modifier_key(vk_code: u32) -> (r: bool)
    ensures
        r == spec_is_shift_modifier_key(vk_code),
{
    vk_code == VK_SHIFT as u32 || vk_code == VK_LSHIFT as u32 || vk_code == VK_RSHIFT as u32
}

/// Keys that move the caret or edit text in ways the tracker cannot follow.
pub open spec fn spec_is_state_invalidating_key(vk: u32) -> bool {
    ||| vk == VK_ESCAPE as u32
    ||| vk == VK_DELETE as u32
    ||| vk == VK_INSERT as u32
    ||| vk == VK_HOME as u32
    ||| vk == VK_END as u32
    ||| vk == VK_PRIOR as u32
    ||| vk == VK_NEXT as u32
    ||| vk == VK_LEFT as u32
    ||| vk == VK_RIGHT as u32
    ||| vk == VK_UP as u32
    ||| vk == VK_DOWN as u32
}

pub fn is_state_invalidating_key(vk_code: u32) -> (r: bool)
    ensures
        r == spec_is_state_invalidating_key(vk_code),
        vk_code == 0x1B || vk_code == 0x2E || vk_code == 0x2D || vk_code == 0x24 || vk_code == 0x23
            || vk_code == 0x21 || vk_code == 0x22 || vk_code == 0x25 || vk_code == 0x27 || vk_code == 0x26
            || vk_code == 0x28 ==> r,
{
    vk_code == VK_ESCAPE as u32 || vk_code == VK_DELETE as u32 || vk_code == VK_INSERT as u32
        || vk_code == VK_HOME as u32 || vk_code == VK_END as u32 || vk_code == VK_PRIOR as u32
        || vk_code == VK_NEXT as u32 || vk_code == VK_LEFT as u32 || vk_code == VK_RIGHT as u32
        || vk_code == VK_UP as u32 || vk_code == VK_DOWN as u32
}

/// The caret-moving and editing keys (Escape 0x1B, Delete 0x2E, Insert 0x2D, Home 0x24, End
/// 0x23, Page Up 0x21, Page Down 0x22, Left 0x25, Right 0x27, Up 0x26, Down 0x28) each
/// invalidate tracking, and a key press of any of them, with or without a
/// command modifier, becomes an invalidation: the token before the caret is no longer known.
pub proof fn lemma_caret_and_editing_keys_invalidate(vk: u32, command_modifier_active: bool)
    requires
        vk == 0x1B || vk == 0x2E || vk == 0x2D || vk == 0x24 || vk == 0x23 || vk == 0x21 || vk == 0x22
            || vk == 0x25 || vk == 0x27 || vk == 0x26 || vk == 0x28,
    ensures
        spec_is_state_invalidating_key(vk),
        spec_preclassify_key_down(vk, command_modifier_active) == KeyDownDisposition::Event(
            InputEvent::Invalidate,
        ),
{
    assert(VK_ESCAPE == 0x1B && VK_DELETE == 0x2E && VK_INSERT == 0x2D && VK_HOME == 0x24 && VK_END == 0x23
        && VK_PRIOR == 0x21 && VK_NEXT == 0x22 && VK_LEFT == 0x25 && VK_RIGHT == 0x27 && VK_UP == 0x26
        && VK_DOWN == 0x28);
}

/// The keys whose letters differ between the Latin and Cyrillic layouts have their own
/// identity: backquote 0xC0, left bracket 0xDB, right bracket 0xDD, semicolon 0xBA, quote 0xDE,
/// comma 0xBC and period 0xBE. Every other key (letters, digits, space, arrows, ...) is an
/// ordinary key.
pub proof fn lemma_layout_ambiguous_keys(vk: u32)
    requires
        vk < 0x100,
    ensures
        vk == 0xC0 ==> spec_physical_key_from_vk(vk) == PhysicalKey::Grave,
        vk == 0xDB ==> spec_physical_key_from_vk(vk) == PhysicalKey::LeftBracket,
        vk == 0xDD ==> spec_physical_key_from_vk(vk) == PhysicalKey::RightBracket,
        vk == 0xBA ==> spec_physical_key_from_vk(vk) == PhysicalKey::Semicolon,
        vk == 0xDE ==> spec_physical_key_from_vk(vk) == PhysicalKey::Quote,
        vk == 0xBC ==> spec_physical_key_from_vk(vk) == PhysicalKey::Comma,
        vk == 0xBE ==> spec_physical_key_from_vk(vk) == PhysicalKey::Period,
        !(vk == 0xC0 || vk == 0xDB || vk == 0xDD || vk == 0xBA || vk == 0xDE || vk == 0xBC || vk == 0xBE)
            ==> spec_physical_key_from_vk(vk) == PhysicalKey::Other,
{
    assert(vk as u16 == vk);
}

/// Undo fires on the bare Pause key (0x13): only while Shift (0x10), Ctrl (0x11), Alt (0x12)
/// and both Windows keys (0x5B, 0x5C) are up, that is their state bytes are below 0x80. No
/// other key fires it.
pub proof fn lemma_undo_hotkey_is_bare_pause(vk: u32, state: Seq<u8>)
    requires
        state.len() == 256,
    ensures
        spec_undo_hotkey_matches(UndoHotkey::Pause, vk, state) <==> (vk == 0x13 && state[0x10] < 0x80
            && state[0x11] < 0x80 && state[0x12] < 0x80 && state[0x5B] < 0x80 && state[0x5C] < 0x80),
{
    assert(forall|b: u8| #[trigger] (b & 0x80u8) != 0 <==> b >= 0x80) by (bit_vector);
}

/// Mouse button presses move the caret.
pub fn mouse_message_invalidates_tracking(message: u32) -> (r: bool)
    ensures
        r == (message == WM_LBUTTONDOWN || message == WM_RBUTTONDOWN || message == WM_MBUTTONDOWN
            || message == WM_XBUTTONDOWN),
{
    message == WM_LBUTTONDOWN || message == WM_RBUTTONDOWN || message == WM_MBUTTONDOWN
        || message == WM_XBUTTONDOWN
}

/// Injected by another program: the injected flag without this application's marker.
pub fn is_foreign_injected_keyboard_event(flags: u32, extra_info: u64) -> (r: bool)
    ensures
        r == ((flags & LLKHF_INJECTED) != 0 && extra_info != SUNSWITCHER_INJECTED_MARKER),
{
    (flags & LLKHF_INJECTED) != 0 && extra_info != SUNSWITCHER_INJECTED_MARKER
}

/// The physical key identity of a layout-ambiguous virtual key.
pub open spec fn spec_physical_key_from_vk(vk: u32) -> PhysicalKey {
    let key = vk as u16;
    if key == VK_OEM_3 {
        PhysicalKey::Grave
    } else if key == VK_OEM_4 {
        PhysicalKey::LeftBracket
    } else if key == VK_OEM_6 {
        PhysicalKey::RightBracket
    } else if key == VK_OEM_1 {
        PhysicalKey::Semicolon
    } else if key == VK_OEM_7 {
        PhysicalKey::Quote
    } else if key == VK_OEM_COMMA {
        PhysicalKey::Comma
    } else if key == VK_OEM_PERIOD {
        PhysicalKey::Period
    } else {
        PhysicalKey::Other
    }
}

pub fn physical_key_from_vk(vk_code: u32) -> (r: PhysicalKey)
    ensures
        r == spec_physical_key_from_vk(vk_code),
{
    let key = vk_code as u16;
    if key == VK_OEM_3 {
        PhysicalKey::Grave
    } else if key == VK_OEM_4 {
        PhysicalKey::LeftBracket
    } else if key == VK_OEM_6 {
        PhysicalKey::RightBracket
    } else if key == VK_OEM_1 {
        PhysicalKey::Semicolon
    } else if key == VK_OEM_7 {
        PhysicalKey::Quote
    } else if key == VK_OEM_COMMA {
        PhysicalKey::Comma
    } else if key == VK_OEM_PERIOD {
        PhysicalKey::Period
    } else {
        PhysicalKey::Other
    }
}

/// What a key-down means before layout translation.
#[derive(Debug, Clone, Copy, PartialEq, Eq)]
pub enum KeyDownDisposition {
    Ignore,
    Event(InputEvent),
    Translate,
}

/// Shift is part of text entry; command-modified keys invalidate before anything else; then
/// Backspace, Enter and Tab are edits and boundaries; caret and editing keys invalidate; other
/// keys are translated through the active layout.
pub open spec fn spec_preclassify_key_down(vk: u32, command_modifier_active: bool) -> KeyDownDisposition {
    if spec_is_shift_modifier_key(vk) {
        KeyDownDisposition::Ignore
    } else if command_modifier_active {
        KeyDownDisposition::Event(InputEvent::Invalidate)
    } else if vk == VK_BACK as u32 {
        KeyDownDisposition::Event(InputEvent::Backspace)
    } else if vk == VK_RETURN as u32 {
        KeyDownDisposition::Event(InputEvent::Boundary(Boundary::Enter))
    } else if vk == VK_TAB as u32 {
        KeyDownDisposition::Event(InputEvent::Boundary(Boundary::Tab))
    } else if spec_is_state_invalidating_key(vk) {
        KeyDownDisposition::Event(InputEvent::Invalidate)
    } else {
        KeyDownDisposition::Translate
    }
}

pub fn preclassify_key_down(vk_code: u32, command_modifier_active: bool) -> (r: KeyDownDisposition)
    ensures
        r == spec_preclassify_key_down(vk_code, command_modifier_active),
{
    if is_shift_modifier_key(vk_code) {
        return KeyDownDisposition::Ignore;
    }
    if command_modifier_active {
        return KeyDownDisposition::Event(InputEvent::Invalidate);
    }
    if vk_code == VK_BACK as u32 {
        return KeyDownDisposition::Event(InputEvent::Backspace);
    }
    if vk_code == VK_RETURN as u32 {
        return KeyDownDisposition::Event(InputEvent::Boundary(Boundary::Enter));
    }
    if vk_code == VK_TAB as u32 {
        return KeyDownDisposition::Event(InputEvent::Boundary(Boundary::Tab));
    }
    if is_state_invalidating_key(vk_code) {
        return KeyDownDisposition::Event(InputEvent::Invalidate);
    }
    KeyDownDisposition::Translate
}

/// A generic modifier is tracked as its left-hand key.
pub open spec fn spec_tracked_vk(vk: u32) -> u32 {
    let key = vk as u16;
    if key == VK_SHIFT {
        VK_LSHIFT as u32
    } else if key == VK_CONTROL {
        VK_LCONTROL as u32
    } else if key == VK_MENU {
        VK_LMENU as u32
    } else {
        vk
    }
}

/// A key's state byte after a transition: the high bit is "down"; a toggle key flips its low bit
/// when pressed from up.
pub open spec fn spec_key_byte(byte: u8, down: bool, toggle: bool) -> u8 {
    if down {
        let flipped = if (byte & 0x80u8) == 0 && toggle {
            byte ^ 0x01u8
        } else {
            byte
        };
        flipped | 0x80u8
    } else {
        byte & 0x7fu8
    }
}

/// A generic modifier is down when either of its sides is.
pub open spec fn spec_sync_modifier(state: Seq<u8>, generic: u16, left: u16, right: u16) -> Seq<u8> {
    let active = (state[left as int] & 0x80u8) != 0 || (state[right as int] & 0x80u8) != 0;
    let byte = state[generic as int];
    state.update(
        generic as int,
        if active {
            byte | 0x80u8
        } else {
            byte & 0x7fu8
        },
    )
}

/// The keyboard state after a key transition.
pub open spec fn spec_updated_keyboard(state: Seq<u8>, vk: u32, down: bool) -> Seq<u8> {
    let index = spec_tracked_vk(vk);
    if index >= 256 {
        state
    } else {
        let s1 = state.update(
            index as int,
            spec_key_byte(state[index as int], down, spec_is_toggle_key(index)),
        );
        let s2 = spec_sync_modifier(s1, VK_SHIFT, VK_LSHIFT, VK_RSHIFT);
        let s3 = spec_sync_modifier(s2, VK_CONTROL, VK_LCONTROL, VK_RCONTROL);
        spec_sync_modifier(s3, VK_MENU, VK_LMENU, VK_RMENU)
    }
}

fn sync_generic_modifier(state: &mut [u8; 256], generic: u16, left: u16, right: u16)
    requires
        generic < 256,
        left < 256,
        right < 256,
    ensures
        final(state)@ == spec_sync_modifier(old(state)@, generic, left, right),
{
    let active = (state[left as usize] & 0x80) != 0 || (state[right as usize] & 0x80) != 0;
    let byte = state[generic as usize];
    let value = if active {
        byte | 0x80
    } else {
        byte & 0x7f
    };
    state.set(generic as usize, value);
}

/// Records a key transition in the tracked keyboard state.
pub fn update_keyboard_state(state: &mut [u8; 256], vk_code: u32, is_key_down: bool)
    ensures
        final(state)@ == spec_updated_keyboard(old(state)@, vk_code, is_key_down),
{
    let key = vk_code as u16;
    let tracked_vk: u32 = if key == VK_SHIFT {
        VK_LSHIFT as u32
    } else if key == VK_CONTROL {
        VK_LCONTROL as u32
    } else if key == VK_MENU {
        VK_LMENU as u32
    } else {
        vk_code
    };
    if tracked_vk >= 256 {
        return;
    }
    let index = tracked_vk as usize;
    let byte = state[index];
    let was_down = (byte & 0x80) != 0;
    let value = if is_key_down {
        let flipped = if !was_down && is_toggle_key(tracked_vk) {
            byte ^ 0x01
        } else {
            byte
        };
        flipped | 0x80
    } else {
        byte & 0x7f
    };
    state.set(index, value);
    sync_generic_modifier(state, VK_SHIFT, VK_LSHIFT, VK_RSHIFT);
    sync_generic_modifier(state, VK_CONTROL, VK_LCONTROL, VK_RCONTROL);
    sync_generic_modifier(state, VK_MENU, VK_LMENU, VK_RMENU);
}

/// A key counts as down when the high bit of its state byte is set.
pub open spec fn spec_key_down(state: Seq<u8>, key: u16) -> bool {
    (state[key as int] & 0x80u8) != 0
}

/// The Undo binding, pressed without Shift, Ctrl, Alt or the Windows keys.
pub open spec fn spec_undo_hotkey_matches(hotkey: UndoHotkey, vk: u32, state: Seq<u8>) -> bool {
    let no_modifiers = !spec_key_down(state, VK_SHIFT) && !spec_key_down(state, VK_CONTROL)
        && !spec_key_down(state, VK_MENU) && !spec_key_down(state, VK_LWIN) && !spec_key_down(
        state,
        VK_RWIN,
    );
    match hotkey {
        UndoHotkey::Pause => vk == VK_PAUSE as u32 && no_modifiers,
    }
}

pub fn undo_hotkey_matches(hotkey: UndoHotkey, vk_code: u32, keyboard_state: &[u8; 256]) -> (r: bool)
    ensures
        r == spec_undo_hotkey_matches(hotkey, vk_code, keyboard_state@),
{
    let no_modifiers = (keyboard_state[VK_SHIFT as usize] & 0x80) == 0 && (
    keyboard_state[VK_CONTROL as usize] & 0x80) == 0 && (keyboard_state[VK_MENU as usize] & 0x80)
        == 0 && (keyboard_state[VK_LWIN as usize] & 0x80) == 0 && (keyboard_state[VK_RWIN as usize]
        & 0x80) == 0;
    match hotkey {
        UndoHotkey::Pause => vk_code == VK_PAUSE as u32 && no_modifiers,
    }
}

/// The injection failed before sending anything.
pub open spec fn spec_sent_nothing(result: Result<(), RuntimeError>) -> bool {
    match result {
        Err(RuntimeError::InjectionFailed { sent, .. }) => sent == 0,
        _ => false,
    }
}

/// An Undo counts as not executed only when the injection sent nothing and nothing else
/// touched the input meanwhile; any partial or concurrent effect makes it uncertain.
pub fn undo_outcome_after_injection(
    injection_result: &Result<(), RuntimeError>,
    state_unchanged: bool,
) -> (r: UndoOutcome)
    ensures
        r == (if !state_unchanged {
            UndoOutcome::Uncertain
        } else if injection_result is Ok {
            UndoOutcome::Applied
        } else if spec_sent_nothing(*injection_result) {
            UndoOutcome::NotExecuted
        } else {
            UndoOutcome::Uncertain
        }),
{
    if !state_unchanged {
        return UndoOutcome::Uncertain;
    }
    match injection_result {
        Ok(()) => UndoOutcome::Applied,
        Err(RuntimeError::InjectionFailed { sent, .. }) => {
            if *sent == 0 {
                UndoOutcome::NotExecuted
            } else {
                UndoOutcome::Uncertain
            }
        },
        Err(_) => UndoOutcome::Uncertain,
    }
}

/// A replacement counts as applied only when the whole injection succeeded and nothing else
/// touched the input meanwhile.
pub fn replacement_outcome_after_injection(
    injection_result: &Result<(), RuntimeError>,
    state_unchanged: bool,
) -> (r: ReplacementOutcome)
    ensures
        r == (if injection_result is Ok && state_unchanged {
            ReplacementOutcome::Applied
        } else {
            ReplacementOutcome::Aborted
        }),
{
    if injection_result.is_ok() && state_unchanged {
        ReplacementOutcome::Applied
    } else {
        ReplacementOutcome::Aborted
    }
}

/// The physical key-up to swallow after an injection: only when the injection succeeded.
pub fn keyup_suppression_after_injection(vk_code: u32, injection_result: &Result<(), RuntimeError>) -> (r:
    Option<u32>)
    ensures
        r == (if injection_result is Ok {
            Some(vk_code)
        } else {
            None
        }),
{
    match injection_result {
        Ok(()) => Some(vk_code),
        Err(_) => None,
    }
}

/// What the hook planned for a key event before offering it to the downstream hooks.
#[derive(Debug, Clone, Copy, PartialEq, Eq, Structural)]
pub enum PlannedEffect {
    /// A key-up, to be swallowed or passed on.
    KeyUp { suppress: bool },
    /// A key-down the processor let through.
    Pass,
    /// The Undo binding.
    Undo,
    /// A key-down that completed a token the processor wants replaced.
    Replace,
}

/// What the hook answers the system for an event: the downstream hooks' answer, or that the
/// event is swallowed.
#[derive(Debug, Clone, Copy, PartialEq, Eq, Structural)]
pub enum HookAnswer {
    Downstream,
    Swallow,
}

/// What the hook does once the downstream hooks have seen the event.
#[derive(Debug, Clone, Copy, PartialEq, Eq, Structural)]
pub enum DownstreamStep {
    /// Stop here: report an aborted replacement if `abort_replacement`, invalidate tracked text
    /// if `invalidate`, and answer with `answer`.
    Finish { abort_replacement: bool, invalidate: bool, answer: HookAnswer },
    /// Ask the processor for its Undo and execute it.
    ExecuteUndo,
    /// Inject the planned replacement.
    ExecuteReplacement,
}

/// After the downstream hooks: a key-up is swallowed when it was marked; a suppressed key-down
/// means the application did not get what was observed, so tracked text is invalidated (and a
/// planned replacement aborted); a changed input ownership does the same, and swallows an Undo
/// key; otherwise a planned Undo or replacement is executed.
pub open spec fn spec_after_downstream(
    planned: PlannedEffect,
    downstream_suppressed: bool,
    ownership_unchanged: bool,
) -> DownstreamStep {
    match planned {
        PlannedEffect::KeyUp { suppress } => DownstreamStep::Finish {
            abort_replacement: false,
            invalidate: false,
            answer: if suppress {
                HookAnswer::Swallow
            } else {
                HookAnswer::Downstream
            },
        },
        PlannedEffect::Pass => DownstreamStep::Finish {
            abort_replacement: false,
            invalidate: downstream_suppressed,
            answer: HookAnswer::Downstream,
        },
        PlannedEffect::Undo => if downstream_suppressed {
            DownstreamStep::Finish { abort_replacement: false, invalidate: true, answer: HookAnswer::Downstream }
        } else if !ownership_unchanged {
            DownstreamStep::Finish { abort_replacement: false, invalidate: true, answer: HookAnswer::Swallow }
        } else {
            DownstreamStep::ExecuteUndo
        },
        PlannedEffect::Replace => if downstream_suppressed || !ownership_unchanged {
            DownstreamStep::Finish { abort_replacement: true, invalidate: true, answer: HookAnswer::Downstream }
        } else {
            DownstreamStep::ExecuteReplacement
        },
    }
}

pub fn after_downstream(planned: PlannedEffect, downstream_suppressed: bool, ownership_unchanged: bool) -> (r:
    DownstreamStep)
    ensures
        r == spec_after_downstream(planned, downstream_suppressed, ownership_unchanged),
{
    match planned {
        PlannedEffect::KeyUp { suppress } => DownstreamStep::Finish {
            abort_replacement: false,
            invalidate: false,
            answer: if suppress {
                HookAnswer::Swallow
            } else {
                HookAnswer::Downstream
            },
        },
        PlannedEffect::Pass => DownstreamStep::Finish {
            abort_replacement: false,
            invalidate: downstream_suppressed,
            answer: HookAnswer::Downstream,
        },
        PlannedEffect::Undo => if downstream_suppressed {
            DownstreamStep::Finish { abort_replacement: false, invalidate: true, answer: HookAnswer::Downstream }
        } else if !ownership_unchanged {
            DownstreamStep::Finish { abort_replacement: false, invalidate: true, answer: HookAnswer::Swallow }
        } else {
            DownstreamStep::ExecuteUndo
        },
        PlannedEffect::Replace => if downstream_suppressed || !ownership_unchanged {
            DownstreamStep::Finish { abort_replacement: true, invalidate: true, answer: HookAnswer::Downstream }
        } else {
            DownstreamStep::ExecuteReplacement
        },
    }
}

/// How an executed Undo ends: its outcome when one was injected (none when the processor had
/// nothing to undo); tracked text is invalidated after an uncertain one; the Undo key's release
/// is always swallowed, and so is the key itself.
#[derive(Debug, Clone, Copy, PartialEq, Eq)]
pub struct UndoFinish {
    pub outcome: Option<UndoOutcome>,
    pub invalidate: bool,
    pub suppress_keyup: u32,
    pub answer: HookAnswer,
}

pub fn finish_undo(vk_code: u32, injection: Option<Result<(), RuntimeError>>, ownership_unchanged: bool) -> (r:
    UndoFinish)
    ensures
        r.suppress_keyup == vk_code,
        r.answer == HookAnswer::Swallow,
        match injection {
            None => r.outcome is None && !r.invalidate,
            Some(result) => r.outcome == Some(
                if !ownership_unchanged {
                    UndoOutcome::Uncertain
                } else if result is Ok {
                    UndoOutcome::Applied
                } else if spec_sent_nothing(result) {
                    UndoOutcome::NotExecuted
                } else {
                    UndoOutcome::Uncertain
                },
            ) && (r.invalidate <==> r.outcome == Some(UndoOutcome::Uncertain)),
        },
{
    match injection {
        None => UndoFinish { outcome: None, invalidate: false, suppress_keyup: vk_code, answer: HookAnswer::Swallow },
        Some(result) => {
            let outcome = undo_outcome_after_injection(&result, ownership_unchanged);
            let invalidate = match outcome {
                UndoOutcome::Uncertain => true,
                _ => false,
            };
            UndoFinish { outcome: Some(outcome), invalidate, suppress_keyup: vk_code, answer: HookAnswer::Swallow }
        },
    }
}

/// How an injected replacement ends: its outcome; tracked text is invalidated when it aborted;
/// after a successful injection the key's release is swallowed and so is the key, otherwise the
/// downstream answer stands.
#[derive(Debug, Clone, Copy, PartialEq, Eq)]
pub struct ReplacementFinish {
    pub outcome: ReplacementOutcome,
    pub invalidate: bool,
    pub suppress_keyup: Option<u32>,
    pub answer: HookAnswer,
}

pub fn finish_replacement(
    vk_code: u32,
    injection_result: &Result<(), RuntimeError>,
    ownership_unchanged: bool,
) -> (r: ReplacementFinish)
    ensures
        r.outcome == (if injection_result is Ok && ownership_unchanged {
            ReplacementOutcome::Applied
        } else {
            ReplacementOutcome::Aborted
        }),
        r.invalidate <==> r.outcome == ReplacementOutcome::Aborted,
        r.suppress_keyup == (if injection_result is Ok {
            Some(vk_code)
        } else {
            None
        }),
        r.answer == (if injection_result is Ok {
            HookAnswer::Swallow
        } else {
            HookAnswer::Downstream
        }),
{
    let outcome = replacement_outcome_after_injection(injection_result, ownership_unchanged);
    let invalidate = match outcome {
        ReplacementOutcome::Aborted => true,
        ReplacementOutcome::Applied => false,
    };
    let suppress_keyup = keyup_suppression_after_injection(vk_code, injection_result);
    let answer = match suppress_keyup {
        Some(_) => HookAnswer::Swallow,
        None => HookAnswer::Downstream,
    };
    ReplacementFinish { outcome, invalidate, suppress_keyup, answer }
}

} // verus!
