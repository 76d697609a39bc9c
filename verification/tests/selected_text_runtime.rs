use sunswitcher::windows::clipboard_policy::{
    clipboard_snapshot_matches, ClipboardReading, ClipboardSnapshotKind,
};
use sunswitcher::windows::keys::CF_HDROP;
use sunswitcher::replacement::{
    SelectedReplacementEngine, SelectedReplacementText, SelectedText, SelectedTextDecision,
};
use sunswitcher::windows::clipboard_policy::{
    classify_clipboard_snapshot, ClipboardSnapshotMode, SelectedTextRuntimeError,
    SelectedTextSession,
};
use sunswitcher::windows::key_inputs::{build_selected_text_inputs, unicode_clipboard_units, KeyInput};
use sunswitcher::windows::keys::VK_DELETE;

#[test]
fn certification_clipboard_payload_round_trips_representative_selected_text() {
    let cases = [
        "Short selection",
        "Русский текст с punctuation!",
        "line 1\r\nline 2\r\nline 3",
        "emoji 😀🚀 and symbols → ✓",
        "A long selection can be processed without using the clipboard as the replacement transport.",
    ];

    for text in cases {
        let units = unicode_clipboard_units(text);
        assert_eq!(units.last(), Some(&0));
        let decoded = String::from_utf16(&units[..units.len() - 1]).unwrap();
        assert_eq!(decoded, text);
    }
}

#[test]
fn certification_plain_text_clipboard_is_supported_even_with_auxiliary_formats() {
    for format_count in [1, 2, 4, 8, 16] {
        assert_eq!(
            classify_clipboard_snapshot(format_count, true, false, false),
            ClipboardSnapshotMode::UnicodeText
        );
    }
}

#[test]
fn certification_copied_file_clipboard_is_a_supported_preservation_state() {
    for format_count in [1, 2, 4, 8, 16] {
        assert_eq!(
            classify_clipboard_snapshot(format_count, false, true, false),
            ClipboardSnapshotMode::FileDrop
        );
    }
}

#[test]
fn certification_file_clipboard_wins_when_windows_also_exposes_text_or_image() {
    assert_eq!(
        classify_clipboard_snapshot(8, true, true, true),
        ClipboardSnapshotMode::FileDrop
    );
}

#[test]
fn certification_screenshot_image_clipboard_is_supported() {
    for format_count in [1, 2, 4, 8] {
        assert_eq!(
            classify_clipboard_snapshot(format_count, false, false, true),
            ClipboardSnapshotMode::Image
        );
    }
}

#[test]
fn certification_image_clipboard_wins_over_text_fallback() {
    assert_eq!(
        classify_clipboard_snapshot(6, true, false, true),
        ClipboardSnapshotMode::Image
    );
}

#[test]
fn certification_unknown_non_text_non_file_clipboard_fails_closed() {
    for format_count in [1, 2, 8] {
        assert_eq!(
            classify_clipboard_snapshot(format_count, false, false, false),
            ClipboardSnapshotMode::Unsupported
        );
    }
}

#[test]
fn certification_large_selected_replacement_is_one_direct_input_batch() {
    let text = format!("{}{}", "абвгд".repeat(600), " 😀 end");
    let inputs = build_selected_text_inputs(&text);
    assert_eq!(inputs.len(), text.encode_utf16().count() * 2);
    assert!(inputs
        .iter()
        .all(|input| matches!(input, KeyInput::Unicode { .. })));
}

#[test]
fn unicode_clipboard_payload_is_nul_terminated() {
    assert_eq!(unicode_clipboard_units("abc"), vec![97, 98, 99, 0]);
}

#[test]
fn unicode_clipboard_payload_preserves_non_ascii_and_surrogate_pairs() {
    let units = unicode_clipboard_units("для 😀");
    assert_eq!(units.last(), Some(&0));
    assert_eq!(
        &units[..units.len() - 1],
        "для 😀".encode_utf16().collect::<Vec<_>>().as_slice()
    );
}

#[test]
fn clipboard_snapshot_policy_supports_empty_text_and_files() {
    assert_eq!(
        classify_clipboard_snapshot(0, false, false, false),
        ClipboardSnapshotMode::Empty
    );
    assert_eq!(
        classify_clipboard_snapshot(4, true, false, false),
        ClipboardSnapshotMode::UnicodeText
    );
    assert_eq!(
        classify_clipboard_snapshot(8, false, true, false),
        ClipboardSnapshotMode::FileDrop
    );
}

#[test]
fn copied_file_state_takes_priority_over_text_and_image_fallbacks() {
    assert_eq!(
        classify_clipboard_snapshot(8, true, true, true),
        ClipboardSnapshotMode::FileDrop
    );
}

#[test]
fn image_state_takes_priority_over_text_fallback() {
    assert_eq!(
        classify_clipboard_snapshot(6, true, false, true),
        ClipboardSnapshotMode::Image
    );
}

#[test]
fn clipboard_snapshot_policy_rejects_unknown_non_text_non_file_state() {
    assert_eq!(
        classify_clipboard_snapshot(1, false, false, false),
        ClipboardSnapshotMode::Unsupported
    );
}

#[test]
fn direct_selected_text_injection_uses_unicode_events() {
    let text = "для 😀";
    let inputs = build_selected_text_inputs(text);
    assert_eq!(inputs.len(), text.encode_utf16().count() * 2);
    for pair in inputs.chunks_exact(2) {
        assert!(matches!(pair[0], KeyInput::Unicode { key_up: false, .. }));
        assert!(matches!(pair[1], KeyInput::Unicode { key_up: true, .. }));
    }
}

#[test]
fn empty_selected_replacement_deletes_the_active_selection() {
    let inputs = build_selected_text_inputs("");
    assert_eq!(
        inputs,
        vec![
            KeyInput::VirtualKey { key: VK_DELETE, key_up: false },
            KeyInput::VirtualKey { key: VK_DELETE, key_up: true },
        ]
    );
}

#[test]
fn session_applies_only_an_action_planned_for_its_selection() {
    let session = SelectedTextSession::from_copied_text(Some("text".to_string())).unwrap();
    assert_eq!(session.selected_text().as_str(), "text");
    let other = SelectedReplacementEngine::new()
        .plan(
            SelectedText::try_new("other").unwrap(),
            SelectedTextDecision::Replace(SelectedReplacementText::try_new("OTHER").unwrap()),
        )
        .unwrap();
    assert_eq!(
        session.apply(&other),
        Err(SelectedTextRuntimeError::ActionDoesNotMatchSelection)
    );

    let session = SelectedTextSession::from_copied_text(Some("text".to_string())).unwrap();
    let own = SelectedReplacementEngine::new()
        .plan(
            SelectedText::try_new("text").unwrap(),
            SelectedTextDecision::Replace(SelectedReplacementText::try_new("TEXT").unwrap()),
        )
        .unwrap();
    assert_eq!(session.apply(&own).unwrap().len(), 8);

    assert!(SelectedTextSession::from_copied_text(None).is_none());
    assert!(SelectedTextSession::from_copied_text(Some(String::new())).is_none());
}

#[test]
fn restored_clipboard_is_verified_against_the_snapshot() {
    let reading = |format_count: i32, text: Option<&str>, formats: Vec<(u32, Option<Vec<u8>>)>| ClipboardReading {
        format_count,
        text: text.map(str::to_owned),
        formats,
    };
    assert!(clipboard_snapshot_matches(&ClipboardSnapshotKind::Empty, &reading(0, None, vec![])));
    assert!(!clipboard_snapshot_matches(&ClipboardSnapshotKind::Empty, &reading(1, None, vec![])));

    let text = ClipboardSnapshotKind::UnicodeText("для".to_owned());
    assert!(clipboard_snapshot_matches(&text, &reading(3, Some("для"), vec![])));
    assert!(!clipboard_snapshot_matches(&text, &reading(3, Some("дл"), vec![])));
    assert!(!clipboard_snapshot_matches(&text, &reading(3, None, vec![])));

    let files = ClipboardSnapshotKind::FileDrop {
        hdrop: vec![1, 2, 3],
        preferred_drop_effect: Some((49_000, vec![5])),
    };
    assert!(clipboard_snapshot_matches(
        &files,
        &reading(2, None, vec![(CF_HDROP, Some(vec![1, 2, 3])), (49_000, Some(vec![5]))])
    ));
    assert!(!clipboard_snapshot_matches(
        &files,
        &reading(2, None, vec![(CF_HDROP, Some(vec![1, 2, 3])), (49_000, None)])
    ));
    assert!(!clipboard_snapshot_matches(
        &files,
        &reading(2, None, vec![(CF_HDROP, Some(vec![1, 2])), (49_000, Some(vec![5]))])
    ));
    let files_only = ClipboardSnapshotKind::FileDrop { hdrop: vec![1], preferred_drop_effect: None };
    assert!(clipboard_snapshot_matches(&files_only, &reading(1, None, vec![(CF_HDROP, Some(vec![1]))])));

    let image = ClipboardSnapshotKind::Image { formats: vec![(17, vec![9, 9]), (8, vec![7])] };
    assert!(clipboard_snapshot_matches(
        &image,
        &reading(2, None, vec![(17, Some(vec![9, 9])), (8, Some(vec![7]))])
    ));
    assert!(!clipboard_snapshot_matches(
        &image,
        &reading(2, None, vec![(17, Some(vec![9, 9])), (8, Some(vec![6]))])
    ));
    assert!(!clipboard_snapshot_matches(&image, &reading(1, None, vec![(17, Some(vec![9, 9])), (8, None)])));
}
