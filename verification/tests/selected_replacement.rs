use sunswitcher::replacement::{
    SelectedReplacementEngine, SelectedReplacementText, SelectedText, SelectedTextDecision,
};

#[test]
fn plans_selected_text_replacement_from_typed_decision() {
    let selected = SelectedText::try_new("Hello world").unwrap();
    let decision =
        SelectedTextDecision::Replace(SelectedReplacementText::try_new("HELLO WORLD").unwrap());

    let action = SelectedReplacementEngine::new()
        .plan(selected, decision)
        .expect("selected replacement action");

    assert_eq!(action.source().as_str(), "Hello world");
    assert_eq!(action.replacement().as_str(), "HELLO WORLD");
}

#[test]
fn keep_and_identical_replacement_have_no_side_effect() {
    let engine = SelectedReplacementEngine::new();
    assert_eq!(
        engine.plan(
            SelectedText::try_new("text").unwrap(),
            SelectedTextDecision::Keep,
        ),
        None
    );
    assert_eq!(
        engine.plan(
            SelectedText::try_new("text").unwrap(),
            SelectedTextDecision::Replace(SelectedReplacementText::try_new("text").unwrap()),
        ),
        None
    );
}

#[test]
fn typed_selection_contract_rejects_unrepresentable_clipboard_text() {
    assert!(SelectedText::try_new("").is_err());
    assert!(SelectedText::try_new("a\0b").is_err());
    assert!(SelectedReplacementText::try_new("a\0b").is_err());
    assert!(SelectedReplacementText::try_new("").is_ok());
}

#[test]
fn certification_selection_replacement_preserves_full_unicode_text() {
    let cases = [
        ("Привет, world!", "Hello, мир!"),
        ("line 1\nline 2\nline 3", "строка 1\nстрока 2\nстрока 3"),
        ("emoji 😀 + кириллица", "emoji 🚀 + English"),
        ("  spaces stay selected  ", "  spaces stay replaced  "),
    ];

    for (source, replacement) in cases {
        let action = SelectedReplacementEngine::new()
            .plan(
                SelectedText::try_new(source).unwrap(),
                SelectedTextDecision::Replace(
                    SelectedReplacementText::try_new(replacement).unwrap(),
                ),
            )
            .expect("non-identical selected replacement");

        assert_eq!(action.source().as_str(), source);
        assert_eq!(action.replacement().as_str(), replacement);
    }
}

#[test]
fn certification_empty_replacement_is_an_explicit_delete_not_invalid_state() {
    let action = SelectedReplacementEngine::new()
        .plan(
            SelectedText::try_new("delete me").unwrap(),
            SelectedTextDecision::Replace(SelectedReplacementText::try_new("").unwrap()),
        )
        .expect("empty replacement intentionally deletes selection");

    assert_eq!(action.source().as_str(), "delete me");
    assert_eq!(action.replacement().as_str(), "");
}
