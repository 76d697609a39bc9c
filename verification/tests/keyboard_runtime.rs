use sunswitcher::windows::key_inputs::{platform_key_event, PlatformKeyEvent};
use sunswitcher::windows::keyboard_policy::{
    after_downstream, finish_replacement, finish_undo, DownstreamStep, HookAnswer, PlannedEffect,
};
use sunswitcher::correction::{CorrectionDecision, ReplacementText};
use sunswitcher::input::{Boundary, CompletedToken, InputBuffer, InputEvent, InputOutcome, PhysicalKey};
use sunswitcher::persistence::UndoHotkey;
use sunswitcher::replacement::{ReplacementAction, ReplacementEngine, ReplacementOutcome, UndoOutcome};
use sunswitcher::windows::key_inputs::{build_ctrl_chord_inputs, build_replacement_inputs, KeyInput};
use sunswitcher::windows::keyboard_policy::{
    foreground_change_requires_invalidation, input_ownership_matches,
    is_foreign_injected_keyboard_event, is_shift_modifier_key, is_toggle_key,
    keyup_suppression_after_injection, mouse_message_invalidates_tracking, physical_key_from_vk,
    preclassify_key_down, replacement_outcome_after_injection, undo_hotkey_matches,
    undo_outcome_after_injection, update_keyboard_state, InputOwnershipStamp, KeyDownDisposition,
    RuntimeError,
};
use sunswitcher::windows::keyboard_tracker::{KeyEventPlan, KeyboardTracker};
use sunswitcher::windows::keys::{
    LLKHF_INJECTED, SUNSWITCHER_INJECTED_MARKER, VK_BACK, VK_CAPITAL, VK_CONTROL, VK_LCONTROL,
    VK_LSHIFT, VK_NUMLOCK, VK_OEM_1, VK_OEM_3, VK_OEM_4, VK_OEM_6, VK_OEM_7, VK_OEM_COMMA,
    VK_OEM_PERIOD, VK_PAUSE, VK_RETURN, VK_RSHIFT, VK_SCROLL, VK_SHIFT, VK_TAB, WM_LBUTTONDOWN,
    WM_MBUTTONDOWN, WM_RBUTTONDOWN, WM_XBUTTONDOWN,
};

fn action(source: &str, replacement: &str, boundary: Boundary) -> ReplacementAction {
    ReplacementEngine::new()
        .plan(
            &CompletedToken::new(source, boundary),
            CorrectionDecision::Replace(ReplacementText::try_new(replacement).unwrap()),
        )
        .unwrap()
}

fn key_down(input: &KeyInput) -> bool {
    match input {
        KeyInput::VirtualKey { key_up, .. } | KeyInput::Unicode { key_up, .. } => !key_up,
    }
}

#[test]
fn certification_reentrant_foreground_change_invalidates_inflight_side_effect_ownership() {
    let stamp = InputOwnershipStamp::new(11, 100);
    assert!(input_ownership_matches(stamp, 11, 100, 100));
    assert!(!input_ownership_matches(stamp, 11, 100, 200));
    assert!(!input_ownership_matches(stamp, 12, 100, 100));
}

// Two expectations meet here. Tracking "fresh typing" immediately after an invalidation would
// contradict `invalidation_fails_closed_and_discards_all_tracked_state` and the fail-closed
// rule: after an invalidation the caret context is unknown, so typing is ignored until a
// boundary resynchronizes. Tracking restarts at that boundary, and the fresh word that follows
// is completed.
#[test]
fn certification_foreground_change_discards_stale_token_but_fresh_typing_restarts_tracking() {
    let mut buffer = InputBuffer::new();
    for character in "дял".chars() {
        assert_eq!(
            buffer.process(InputEvent::character(character)),
            InputOutcome::Continue
        );
    }

    assert!(foreground_change_requires_invalidation(100, 200));
    assert!(!foreground_change_requires_invalidation(100, 100));
    assert_eq!(
        buffer.process(InputEvent::Invalidate),
        InputOutcome::Invalidated
    );
    for character in "привте".chars() {
        assert_eq!(
            buffer.process(InputEvent::character(character)),
            InputOutcome::Continue
        );
    }
    assert_eq!(buffer.process(InputEvent::character(' ')), InputOutcome::Continue);
    for character in "привте".chars() {
        buffer.process(InputEvent::character(character));
    }
    let InputOutcome::Completed(token) = buffer.process(InputEvent::character(' ')) else {
        panic!("typing after a resynchronizing boundary should be tracked");
    };
    assert_eq!(token.text(), "привте");
}

#[test]
fn certification_undo_retry_is_allowed_only_when_injection_sent_nothing() {
    let not_executed = Err(RuntimeError::InjectionFailed {
        expected: 12,
        sent: 0,
    });
    let uncertain = Err(RuntimeError::InjectionFailed {
        expected: 12,
        sent: 4,
    });
    assert_eq!(
        undo_outcome_after_injection(&not_executed, true),
        UndoOutcome::NotExecuted
    );
    assert_eq!(
        undo_outcome_after_injection(&uncertain, true),
        UndoOutcome::Uncertain
    );
}

#[test]
fn certification_replacement_outcome_matches_actual_injection_effect() {
    let failed = Err(RuntimeError::InjectionFailed {
        expected: 12,
        sent: 4,
    });
    let succeeded: Result<(), RuntimeError> = Ok(());
    assert_eq!(
        replacement_outcome_after_injection(&failed, true),
        ReplacementOutcome::Aborted
    );
    assert_eq!(
        replacement_outcome_after_injection(&succeeded, true),
        ReplacementOutcome::Applied
    );
    assert_eq!(
        replacement_outcome_after_injection(&succeeded, false),
        ReplacementOutcome::Aborted
    );
}

#[test]
fn foreground_window_change_requires_invalidation() {
    assert!(!foreground_change_requires_invalidation(100, 100));
    assert!(foreground_change_requires_invalidation(100, 200));
}

#[test]
fn certification_failed_injection_never_suppresses_the_physical_keyup() {
    let failed = Err(RuntimeError::InjectionFailed {
        expected: 12,
        sent: 4,
    });
    assert_eq!(keyup_suppression_after_injection(VK_TAB as u32, &failed), None);
}

#[test]
fn certification_windows_runtime_preserves_layout_ambiguous_physical_keys() {
    for (vk_code, expected) in [
        (VK_OEM_3, PhysicalKey::Grave),
        (VK_OEM_4, PhysicalKey::LeftBracket),
        (VK_OEM_6, PhysicalKey::RightBracket),
        (VK_OEM_1, PhysicalKey::Semicolon),
        (VK_OEM_7, PhysicalKey::Quote),
        (VK_OEM_COMMA, PhysicalKey::Comma),
        (VK_OEM_PERIOD, PhysicalKey::Period),
    ] {
        assert_eq!(physical_key_from_vk(vk_code as u32), expected);
    }
}

#[test]
fn certification_pause_is_the_default_unmodified_undo_binding() {
    let state = [0u8; 256];
    assert_eq!(UndoHotkey::default(), UndoHotkey::Pause);
    assert!(undo_hotkey_matches(
        UndoHotkey::default(),
        VK_PAUSE as u32,
        &state
    ));
}

#[test]
fn certification_foreign_injected_input_cannot_become_owned_text_state() {
    assert!(is_foreign_injected_keyboard_event(LLKHF_INJECTED, 0));
    assert!(!is_foreign_injected_keyboard_event(
        LLKHF_INJECTED,
        SUNSWITCHER_INJECTED_MARKER
    ));
}

#[test]
fn certification_command_modified_editing_keys_fail_closed() {
    for vk_code in [VK_BACK, VK_RETURN, VK_TAB] {
        assert_eq!(
            preclassify_key_down(vk_code as u32, true),
            KeyDownDisposition::Event(InputEvent::Invalidate)
        );
    }
}

#[test]
fn certification_replacement_sequence_preserves_delete_then_insert_then_boundary_order() {
    let inputs = build_replacement_inputs(&action("дял", "для", Boundary::Character('!')));

    for pair in inputs[..6].chunks_exact(2) {
        assert_eq!(pair[0], KeyInput::VirtualKey { key: VK_BACK, key_up: false });
    }

    let replacement_units: Vec<u16> = "для".encode_utf16().collect();
    for (pair, expected_unit) in inputs[6..12].chunks_exact(2).zip(replacement_units) {
        assert_eq!(pair[0], KeyInput::Unicode { unit: expected_unit, key_up: false });
    }

    assert_eq!(inputs[12], KeyInput::Unicode { unit: '!' as u16, key_up: false });
}

#[test]
fn certification_enter_boundary_is_replayed_as_virtual_key() {
    let inputs = build_replacement_inputs(&action("abcx", "OK", Boundary::Enter));
    assert_eq!(
        inputs[inputs.len() - 2],
        KeyInput::VirtualKey { key: VK_RETURN, key_up: false }
    );
}

#[test]
fn certification_tab_boundary_normalizes_held_key_then_replays_a_full_press() {
    let inputs = build_replacement_inputs(&action("abcx", "OK", Boundary::Tab));
    let replay = &inputs[inputs.len() - 3..];
    assert_eq!(replay[0], KeyInput::VirtualKey { key: VK_TAB, key_up: true });
    assert_eq!(replay[1], KeyInput::VirtualKey { key: VK_TAB, key_up: false });
    assert_eq!(replay[2], KeyInput::VirtualKey { key: VK_TAB, key_up: true });
}

#[test]
fn certification_cyrillic_replacement_is_encoded_as_utf16_unicode_events() {
    let inputs = build_replacement_inputs(&action("дял", "для", Boundary::Character(' ')));
    let replacement_start = 3 * 2;
    let replacement_end = replacement_start + "для".encode_utf16().count() * 2;
    let units: Vec<u16> = inputs[replacement_start..replacement_end]
        .chunks_exact(2)
        .map(|pair| match pair[0] {
            KeyInput::Unicode { unit, .. } => unit,
            KeyInput::VirtualKey { .. } => panic!("expected a Unicode event"),
        })
        .collect();

    assert_eq!(units, "для".encode_utf16().collect::<Vec<_>>());
}

#[test]
fn mouse_clicks_invalidate_tracked_text_state() {
    assert!(mouse_message_invalidates_tracking(WM_LBUTTONDOWN));
    assert!(mouse_message_invalidates_tracking(WM_RBUTTONDOWN));
    assert!(mouse_message_invalidates_tracking(WM_MBUTTONDOWN));
    assert!(mouse_message_invalidates_tracking(WM_XBUTTONDOWN));
    assert!(!mouse_message_invalidates_tracking(0x0200));
}

#[test]
fn command_modified_editing_keys_preempt_normal_special_key_semantics() {
    for vk_code in [VK_BACK, VK_RETURN, VK_TAB] {
        assert_eq!(
            preclassify_key_down(vk_code as u32, true),
            KeyDownDisposition::Event(InputEvent::Invalidate)
        );
    }

    assert_eq!(
        preclassify_key_down(VK_BACK as u32, false),
        KeyDownDisposition::Event(InputEvent::Backspace)
    );
    assert_eq!(
        preclassify_key_down(VK_RETURN as u32, false),
        KeyDownDisposition::Event(InputEvent::Boundary(Boundary::Enter))
    );
    assert_eq!(
        preclassify_key_down(VK_TAB as u32, false),
        KeyDownDisposition::Event(InputEvent::Boundary(Boundary::Tab))
    );
}

#[test]
fn failed_replacement_injection_does_not_suppress_physical_keyup() {
    let failed = Err(RuntimeError::InjectionFailed {
        expected: 8,
        sent: 0,
    });
    let succeeded: Result<(), RuntimeError> = Ok(());

    assert_eq!(keyup_suppression_after_injection(VK_TAB as u32, &failed), None);
    assert_eq!(
        keyup_suppression_after_injection(VK_TAB as u32, &succeeded),
        Some(VK_TAB as u32)
    );
}

#[test]
fn toggle_keys_are_explicit_keyboard_state() {
    assert!(is_toggle_key(VK_CAPITAL as u32));
    assert!(is_toggle_key(VK_NUMLOCK as u32));
    assert!(is_toggle_key(VK_SCROLL as u32));
}

#[test]
fn shift_modifier_is_transparent_to_token_tracking() {
    assert!(is_shift_modifier_key(VK_SHIFT as u32));
    assert!(is_shift_modifier_key(VK_LSHIFT as u32));
    assert!(is_shift_modifier_key(VK_RSHIFT as u32));
}

#[test]
fn builds_backspace_text_and_boundary_input_sequence() {
    let inputs = build_replacement_inputs(&action("abcx", "OK", Boundary::Enter));
    assert_eq!(inputs.len(), 4 * 2 + 2 * 2 + 2);
}

#[test]
fn ctrl_chord_has_explicit_press_and_release_order() {
    let keys = build_ctrl_chord_inputs(b'C' as u16);
    assert_eq!(keys.len(), 4);
    assert_eq!(keys[0], KeyInput::VirtualKey { key: VK_CONTROL, key_up: false });
    assert_eq!(keys[1], KeyInput::VirtualKey { key: b'C' as u16, key_up: false });
    assert_eq!(keys[2], KeyInput::VirtualKey { key: b'C' as u16, key_up: true });
    assert_eq!(keys[3], KeyInput::VirtualKey { key: VK_CONTROL, key_up: true });
}

#[test]
fn generated_events_are_balanced_down_up_pairs() {
    let inputs = build_replacement_inputs(&action("дял", "для", Boundary::Character('.')));
    assert_eq!(inputs.len() % 2, 0);
    for pair in inputs.chunks_exact(2) {
        assert!(key_down(&pair[0]));
        assert!(!key_down(&pair[1]));
    }
}

#[test]
fn generic_modifier_follows_either_side_and_toggle_flips_once_per_press() {
    let mut state = [0u8; 256];
    update_keyboard_state(&mut state, VK_CONTROL as u32, true);
    assert_eq!(state[VK_LCONTROL as usize] & 0x80, 0x80);
    assert_eq!(state[VK_CONTROL as usize] & 0x80, 0x80);
    update_keyboard_state(&mut state, VK_CONTROL as u32, false);
    assert_eq!(state[VK_CONTROL as usize] & 0x80, 0);

    update_keyboard_state(&mut state, VK_CAPITAL as u32, true);
    assert_eq!(state[VK_CAPITAL as usize], 0x81);
    update_keyboard_state(&mut state, VK_CAPITAL as u32, true);
    assert_eq!(state[VK_CAPITAL as usize], 0x81);
    update_keyboard_state(&mut state, VK_CAPITAL as u32, false);
    assert_eq!(state[VK_CAPITAL as usize], 0x01);

    update_keyboard_state(&mut state, 300, true);
    assert_eq!(state[VK_CAPITAL as usize], 0x01);
}

#[test]
fn tracker_swallows_only_the_key_up_of_a_replaced_key_down_once() {
    let mut tracker = KeyboardTracker::new([0u8; 256], 100, UndoHotkey::Pause);
    let down = tracker.begin_key_event(VK_TAB as u32, true, 100);
    assert!(!down.invalidate_first);
    assert!(matches!(
        down.plan,
        KeyEventPlan::KeyDown {
            disposition: KeyDownDisposition::Event(InputEvent::Boundary(Boundary::Tab)),
            ..
        }
    ));
    tracker.suppress_keyup(VK_TAB as u32);
    let up = tracker.begin_key_event(VK_TAB as u32, false, 100);
    assert_eq!(up.plan, KeyEventPlan::KeyUp { suppress: true });
    let again = tracker.begin_key_event(VK_TAB as u32, false, 100);
    assert_eq!(again.plan, KeyEventPlan::KeyUp { suppress: false });
}

#[test]
fn tracker_invalidates_on_focus_change_and_stales_earlier_stamps() {
    let mut tracker = KeyboardTracker::new([0u8; 256], 100, UndoHotkey::Pause);
    let first = tracker.begin_key_event(0x41, true, 100);
    let stamp = match first.plan {
        KeyEventPlan::KeyDown { ownership_stamp, disposition } => {
            assert_eq!(disposition, KeyDownDisposition::Translate);
            ownership_stamp
        }
        other => panic!("unexpected plan {other:?}"),
    };
    assert!(tracker.ownership_unchanged(stamp, 100));
    assert!(!tracker.ownership_unchanged(stamp, 200));

    let moved = tracker.begin_key_event(0x42, true, 200);
    assert!(moved.invalidate_first);
    assert!(!tracker.ownership_unchanged(stamp, 200));

    let pause = tracker.begin_key_event(VK_PAUSE as u32, true, 200);
    assert!(matches!(pause.plan, KeyEventPlan::UndoHotkey { .. }));
}

#[test]
fn every_generated_keyboard_event_is_owned_by_sunswitcher() {
    let mut inputs = build_replacement_inputs(&action("дял", "для", Boundary::Character(' ')));
    inputs.extend(build_ctrl_chord_inputs(b'V' as u16));
    for input in inputs {
        let event = platform_key_event(input);
        assert_eq!(event.extra_info, SUNSWITCHER_INJECTED_MARKER);
    }
}

#[test]
fn platform_events_carry_key_unit_and_flags() {
    assert_eq!(
        platform_key_event(KeyInput::VirtualKey { key: VK_BACK, key_up: true }),
        PlatformKeyEvent { virtual_key: VK_BACK, scan_code: 0, flags: 0x2, extra_info: SUNSWITCHER_INJECTED_MARKER }
    );
    assert_eq!(
        platform_key_event(KeyInput::Unicode { unit: 0x0434, key_up: false }),
        PlatformKeyEvent { virtual_key: 0, scan_code: 0x0434, flags: 0x4, extra_info: SUNSWITCHER_INJECTED_MARKER }
    );
    assert_eq!(platform_key_event(KeyInput::Unicode { unit: 0x0434, key_up: true }).flags, 0x6);
}

#[test]
fn downstream_answer_decides_what_the_hook_does_next() {
    assert_eq!(
        after_downstream(PlannedEffect::KeyUp { suppress: true }, false, true),
        DownstreamStep::Finish { abort_replacement: false, invalidate: false, answer: HookAnswer::Swallow }
    );
    assert_eq!(
        after_downstream(PlannedEffect::Pass, true, true),
        DownstreamStep::Finish { abort_replacement: false, invalidate: true, answer: HookAnswer::Downstream }
    );
    assert_eq!(
        after_downstream(PlannedEffect::Undo, false, false),
        DownstreamStep::Finish { abort_replacement: false, invalidate: true, answer: HookAnswer::Swallow }
    );
    assert_eq!(after_downstream(PlannedEffect::Undo, false, true), DownstreamStep::ExecuteUndo);
    assert_eq!(
        after_downstream(PlannedEffect::Replace, true, true),
        DownstreamStep::Finish { abort_replacement: true, invalidate: true, answer: HookAnswer::Downstream }
    );
    assert_eq!(
        after_downstream(PlannedEffect::Replace, false, false),
        DownstreamStep::Finish { abort_replacement: true, invalidate: true, answer: HookAnswer::Downstream }
    );
    assert_eq!(after_downstream(PlannedEffect::Replace, false, true), DownstreamStep::ExecuteReplacement);
}

#[test]
fn finished_injections_report_outcome_invalidation_and_keyup() {
    let failed = Err(RuntimeError::InjectionFailed { expected: 8, sent: 3 });
    let applied = finish_replacement(0x20, &Ok(()), true);
    assert_eq!(applied.outcome, ReplacementOutcome::Applied);
    assert!(!applied.invalidate);
    assert_eq!(applied.suppress_keyup, Some(0x20));
    assert_eq!(applied.answer, HookAnswer::Swallow);
    let raced = finish_replacement(0x20, &Ok(()), false);
    assert_eq!(raced.outcome, ReplacementOutcome::Aborted);
    assert!(raced.invalidate);
    assert_eq!(raced.suppress_keyup, Some(0x20));
    let broken = finish_replacement(0x20, &failed, true);
    assert_eq!(broken.outcome, ReplacementOutcome::Aborted);
    assert_eq!(broken.suppress_keyup, None);
    assert_eq!(broken.answer, HookAnswer::Downstream);

    let nothing = finish_undo(0x13, None, true);
    assert_eq!(nothing.outcome, None);
    assert!(!nothing.invalidate);
    assert_eq!(nothing.suppress_keyup, 0x13);
    assert_eq!(nothing.answer, HookAnswer::Swallow);
    let uncertain = finish_undo(0x13, Some(failed), true);
    assert_eq!(uncertain.outcome, Some(UndoOutcome::Uncertain));
    assert!(uncertain.invalidate);
    let retry = finish_undo(0x13, Some(Err(RuntimeError::InjectionFailed { expected: 8, sent: 0 })), true);
    assert_eq!(retry.outcome, Some(UndoOutcome::NotExecuted));
    assert!(!retry.invalidate);
}
