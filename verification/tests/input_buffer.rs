use sunswitcher::input::{Boundary, InputBuffer, InputEvent, InputOutcome, PhysicalKey};


#[test]
fn completes_token_on_space() {
    let mut buffer = InputBuffer::new();
    for character in "дял".chars() {
        assert_eq!(
            buffer.process(InputEvent::character(character)),
            InputOutcome::Continue
        );
    }

    let InputOutcome::Completed(token) = buffer.process(InputEvent::character(' ')) else {
        panic!("space should complete the token");
    };

    assert_eq!(token.text(), "дял");
    assert_eq!(token.boundary(), Boundary::Character(' '));
    assert!(
        token
            .physical_keys()
            .iter()
            .all(|key| *key == PhysicalKey::Other)
    );
    assert!(buffer.current_token().is_empty());
}

#[test]
fn backspace_updates_text_and_physical_key_state_together() {
    let mut buffer = InputBuffer::new();
    buffer.process(InputEvent::typed_character(';', PhysicalKey::Semicolon));
    buffer.process(InputEvent::character('x'));
    buffer.process(InputEvent::Backspace);

    let InputOutcome::Completed(token) = buffer.process(InputEvent::character(' ')) else {
        panic!("expected completion");
    };
    assert_eq!(token.text(), ";");
    assert_eq!(token.physical_keys(), &[PhysicalKey::Semicolon]);
}

#[test]
fn plain_punctuation_is_a_boundary_but_layout_ambiguous_physical_key_is_deferred() {
    let mut plain = InputBuffer::new();
    plain.process(InputEvent::character('a'));
    let InputOutcome::Completed(token) = plain.process(InputEvent::character(',')) else {
        panic!("plain comma should complete the token");
    };
    assert_eq!(token.text(), "a");
    assert_eq!(token.boundary(), Boundary::Character(','));

    let mut physical = InputBuffer::new();
    physical.process(InputEvent::character('a'));
    assert_eq!(
        physical.process(InputEvent::typed_character(',', PhysicalKey::Comma)),
        InputOutcome::Continue
    );
    assert_eq!(physical.current_token(), "a,");
}

#[test]
fn invalidation_fails_closed_and_discards_all_tracked_state() {
    let mut buffer = InputBuffer::new();
    buffer.process(InputEvent::typed_character('[', PhysicalKey::LeftBracket));
    buffer.process(InputEvent::character('a'));

    assert_eq!(
        buffer.process(InputEvent::Invalidate),
        InputOutcome::Invalidated
    );
    assert!(buffer.current_token().is_empty());

    buffer.process(InputEvent::character('x'));
    buffer.process(InputEvent::typed_character(',', PhysicalKey::Comma));
    assert!(buffer.current_token().is_empty());

    assert_eq!(
        buffer.process(InputEvent::character(' ')),
        InputOutcome::Continue
    );
    buffer.process(InputEvent::character('x'));
    assert_eq!(buffer.current_token(), "x");
}

#[test]
fn physical_key_recognizes_base_and_shifted_oem_symbols() {
    for (character, expected) in [
        ('`', PhysicalKey::Grave),
        ('~', PhysicalKey::Grave),
        ('[', PhysicalKey::LeftBracket),
        ('{', PhysicalKey::LeftBracket),
        (']', PhysicalKey::RightBracket),
        ('}', PhysicalKey::RightBracket),
        (';', PhysicalKey::Semicolon),
        (':', PhysicalKey::Semicolon),
        ('\'', PhysicalKey::Quote),
        ('"', PhysicalKey::Quote),
        (',', PhysicalKey::Comma),
        ('<', PhysicalKey::Comma),
        ('.', PhysicalKey::Period),
        ('>', PhysicalKey::Period),
    ] {
        assert_eq!(PhysicalKey::from_layout_symbol(character), expected);
    }
}


fn complete(text: &str, boundary_event: InputEvent) -> (String, Boundary) {
    let mut buffer = InputBuffer::new();
    for character in text.chars() {
        assert_eq!(
            buffer.process(InputEvent::character(character)),
            InputOutcome::Continue
        );
    }

    let InputOutcome::Completed(token) = buffer.process(boundary_event) else {
        panic!("expected a completed token for {text:?}");
    };
    (token.text().to_owned(), token.boundary())
}

#[test]
fn certification_common_unambiguous_boundaries_complete_exactly_the_owned_token() {
    let cases = [
        (InputEvent::character(' '), Boundary::Character(' ')),
        (InputEvent::character('.'), Boundary::Character('.')),
        (InputEvent::character(','), Boundary::Character(',')),
        (InputEvent::character('!'), Boundary::Character('!')),
        (InputEvent::character('?'), Boundary::Character('?')),
        (InputEvent::character(')'), Boundary::Character(')')),
        (InputEvent::Boundary(Boundary::Enter), Boundary::Enter),
        (InputEvent::Boundary(Boundary::Tab), Boundary::Tab),
    ];

    for (event, expected_boundary) in cases {
        let (token, boundary) = complete("дял", event);
        assert_eq!(token, "дял");
        assert_eq!(boundary, expected_boundary);
    }
}

#[test]
fn certification_all_layout_ambiguous_oem_keys_can_remain_in_a_potential_token() {
    let cases = [
        ('`', PhysicalKey::Grave),
        ('[', PhysicalKey::LeftBracket),
        (']', PhysicalKey::RightBracket),
        (';', PhysicalKey::Semicolon),
        ('\'', PhysicalKey::Quote),
        (',', PhysicalKey::Comma),
        ('.', PhysicalKey::Period),
        ('~', PhysicalKey::Grave),
        ('{', PhysicalKey::LeftBracket),
        ('}', PhysicalKey::RightBracket),
        (':', PhysicalKey::Semicolon),
        ('"', PhysicalKey::Quote),
        ('<', PhysicalKey::Comma),
        ('>', PhysicalKey::Period),
    ];

    for (produced, key) in cases {
        let mut buffer = InputBuffer::new();
        assert_eq!(
            buffer.process(InputEvent::typed_character(produced, key)),
            InputOutcome::Continue
        );
        let InputOutcome::Completed(token) = buffer.process(InputEvent::character(' ')) else {
            panic!("ambiguous key should be deferred until the unambiguous boundary");
        };
        assert_eq!(token.text(), produced.to_string());
        assert_eq!(token.physical_keys(), &[key]);
    }
}

#[test]
fn certification_edit_then_complete_reports_the_final_visible_token() {
    let mut buffer = InputBuffer::new();
    for character in "дях".chars() {
        buffer.process(InputEvent::character(character));
    }
    buffer.process(InputEvent::Backspace);
    buffer.process(InputEvent::character('л'));

    let InputOutcome::Completed(token) = buffer.process(InputEvent::character(' ')) else {
        panic!("expected completion");
    };
    assert_eq!(token.text(), "дял");
}

#[test]
fn certification_cursor_or_unknown_editing_action_prevents_stale_completion() {
    let mut buffer = InputBuffer::new();
    for character in "дял".chars() {
        buffer.process(InputEvent::character(character));
    }
    assert_eq!(
        buffer.process(InputEvent::Invalidate),
        InputOutcome::Invalidated
    );

    // Text typed while the caret context is unknown must not become a partial owned token.
    for character in "привте".chars() {
        assert_eq!(
            buffer.process(InputEvent::character(character)),
            InputOutcome::Continue
        );
    }
    assert!(buffer.current_token().is_empty());

    // The first unambiguous boundary re-establishes a known token start for subsequent input.
    assert_eq!(
        buffer.process(InputEvent::character(' ')),
        InputOutcome::Continue
    );
    for character in "дял".chars() {
        assert_eq!(
            buffer.process(InputEvent::character(character)),
            InputOutcome::Continue
        );
    }
    let InputOutcome::Completed(token) = buffer.process(InputEvent::character(' ')) else {
        panic!("expected tracking to resume after an unambiguous boundary");
    };
    assert_eq!(token.text(), "дял");
}

#[test]
fn default_buffer_tracks_from_the_first_character() {
    let mut buffer = InputBuffer::default();
    assert_eq!(buffer.current_token(), "");
    buffer.process(InputEvent::character('x'));
    assert_eq!(buffer.current_token(), "x");
}
