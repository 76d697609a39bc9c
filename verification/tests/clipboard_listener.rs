use sunswitcher::windows::clipboard_policy::{
    should_deliver_clipboard_read, should_observe_clipboard_sequence, ClipboardWatch, WatchTick,
};

#[test]
fn certification_clipboard_listener_ignores_startup_and_internal_mutations_but_observes_user_changes()
 {
    assert!(!should_observe_clipboard_sequence(10, 10, 0, 0));
    assert!(should_observe_clipboard_sequence(10, 11, 0, 0));
    assert!(!should_observe_clipboard_sequence(11, 12, 1, 0));
    assert!(!should_observe_clipboard_sequence(12, 13, 0, 13));
    assert!(should_observe_clipboard_sequence(13, 14, 0, 13));
}

#[test]
fn certification_clipboard_listener_delivers_only_a_stable_user_owned_read() {
    assert!(should_deliver_clipboard_read(20, 20, 0, 0));
    assert!(!should_deliver_clipboard_read(20, 21, 0, 0));
    assert!(!should_deliver_clipboard_read(20, 20, 1, 0));
    assert!(!should_deliver_clipboard_read(20, 20, 0, 20));
}

#[test]
fn watch_delivers_a_user_copy_once_and_skips_internal_and_empty_reads() {
    let mut watch = ClipboardWatch::new(10);
    assert_eq!(watch.on_tick(10, 0, 0), WatchTick::Skip);

    assert_eq!(watch.on_tick(11, 0, 0), WatchTick::Read { sequence: 11 });
    assert_eq!(
        watch.after_read(11, 11, 0, 0, Some("copied text".to_string())),
        Some("copied text".to_string())
    );
    assert_eq!(watch.on_tick(11, 0, 0), WatchTick::Skip);

    assert_eq!(watch.on_tick(12, 0, 0), WatchTick::Read { sequence: 12 });
    assert_eq!(watch.after_read(12, 13, 0, 0, Some("moving".to_string())), None);
    assert_eq!(watch.on_tick(13, 0, 0), WatchTick::Read { sequence: 13 });
    assert_eq!(watch.after_read(13, 13, 0, 0, Some(String::new())), None);

    assert_eq!(watch.on_tick(14, 1, 0), WatchTick::Skip);
    assert_eq!(watch.on_tick(14, 0, 0), WatchTick::Skip);
}
