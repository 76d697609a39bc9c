//! The input buffer owns the characters of the word being typed and decides when the word is
//! complete. It fails closed: once the caret position is uncertain it ignores typing until an
//! unambiguous boundary re-establishes a known token start.

use vstd::prelude::*;

use crate::text::{char_is_alphanumeric, is_alphanumeric, pop_char, push_char};

verus! {

/// Platform-neutral identity of the keys whose symbol depends on the keyboard layout.
#[derive(Debug, Clone, Copy, PartialEq, Eq, Hash, Structural)]
pub enum PhysicalKey {
    Other,
    Grave,
    LeftBracket,
    RightBracket,
    Semicolon,
    Quote,
    Comma,
    Period,
}

/// The key that produces `c` on a Latin QWERTY layout, shifted or not.
pub open spec fn spec_key_of_symbol(c: char) -> PhysicalKey {
    if c == '`' || c == '~' {
        PhysicalKey::Grave
    } else if c == '[' || c == '{' {
        PhysicalKey::LeftBracket
    } else if c == ']' || c == '}' {
        PhysicalKey::RightBracket
    } else if c == ';' || c == ':' {
        PhysicalKey::Semicolon
    } else if c == '\'' || c == '"' {
        PhysicalKey::Quote
    } else if c == ',' || c == '<' {
        PhysicalKey::Comma
    } else if c == '.' || c == '>' {
        PhysicalKey::Period
    } else {
        PhysicalKey::Other
    }
}

/// The symbol a layout-ambiguous key produces with Shift on a Latin QWERTY layout.
pub open spec fn spec_shifted_symbol(key: PhysicalKey) -> Option<char> {
    match key {
        PhysicalKey::Grave => Some('~'),
        PhysicalKey::LeftBracket => Some('{'),
        PhysicalKey::RightBracket => Some('}'),
        PhysicalKey::Semicolon => Some(':'),
        PhysicalKey::Quote => Some('"'),
        PhysicalKey::Comma => Some('<'),
        PhysicalKey::Period => Some('>'),
        PhysicalKey::Other => None,
    }
}

impl PhysicalKey {
    /// Every key except `Other` may produce punctuation in one layout and a letter in another.
    pub fn is_layout_ambiguous(self) -> (r: bool)
        ensures
            r == (self != PhysicalKey::Other),
    {
        !matches!(self, PhysicalKey::Other)
    }

    pub fn from_layout_symbol(character: char) -> (r: Self)
        ensures
            r == spec_key_of_symbol(character),
    {
        match character {
            '`' | '~' => PhysicalKey::Grave,
            '[' | '{' => PhysicalKey::LeftBracket,
            ']' | '}' => PhysicalKey::RightBracket,
            ';' | ':' => PhysicalKey::Semicolon,
            '\'' | '"' => PhysicalKey::Quote,
            ',' | '<' => PhysicalKey::Comma,
            '.' | '>' => PhysicalKey::Period,
            _ => PhysicalKey::Other,
        }
    }

    pub fn is_shifted_symbol(self, character: char) -> (r: bool)
        ensures
            r == (spec_shifted_symbol(self) == Some(character)),
    {
        match self.shifted_symbol() {
            Some(symbol) => symbol == character,
            None => false,
        }
    }

    pub fn shifted_symbol(self) -> (r: Option<char>)
        ensures
            r == spec_shifted_symbol(self),
    {
        match self {
            PhysicalKey::Grave => Some('~'),
            PhysicalKey::LeftBracket => Some('{'),
            PhysicalKey::RightBracket => Some('}'),
            PhysicalKey::Semicolon => Some(':'),
            PhysicalKey::Quote => Some('"'),
            PhysicalKey::Comma => Some('<'),
            PhysicalKey::Period => Some('>'),
            PhysicalKey::Other => None,
        }
    }
}

/// A character as the application received it, with the physical key that produced it.
#[derive(Debug, Clone, Copy, PartialEq, Eq)]
pub struct TypedCharacter {
    pub produced: char,
    pub physical_key: PhysicalKey,
}

impl TypedCharacter {
    pub fn new(produced: char, physical_key: PhysicalKey) -> (r: Self)
        ensures
            r.produced == produced,
            r.physical_key == physical_key,
    {
        TypedCharacter { produced, physical_key }
    }

    pub fn plain(produced: char) -> (r: Self)
        ensures
            r.produced == produced,
            r.physical_key == PhysicalKey::Other,
    {
        TypedCharacter::new(produced, PhysicalKey::Other)
    }

    pub fn produced(self) -> (r: char)
        ensures
            r == self.produced,
    {
        self.produced
    }

    pub fn physical_key(self) -> (r: PhysicalKey)
        ensures
            r == self.physical_key,
    {
        self.physical_key
    }
}

/// What ended a token.
#[derive(Debug, Clone, Copy, PartialEq, Eq)]
pub enum Boundary {
    Character(char),
    Enter,
    Tab,
}

/// A finished token: its text, the physical key of each of its characters, and its boundary.
#[derive(Debug, Clone, PartialEq, Eq)]
pub struct CompletedToken {
    text: String,
    physical_keys: Vec<PhysicalKey>,
    boundary: Boundary,
}

impl CompletedToken {
    pub closed spec fn spec_text(&self) -> Seq<char> {
        self.text@
    }

    pub closed spec fn spec_keys(&self) -> Seq<PhysicalKey> {
        self.physical_keys@
    }

    pub closed spec fn spec_boundary(&self) -> Boundary {
        self.boundary
    }

    /// A token typed without layout-ambiguous keys: every character counts as `Other`.
    pub fn new(text: &str, boundary: Boundary) -> (r: Self)
        ensures
            r.spec_text() == text@,
            r.spec_keys() == Seq::new(text@.len(), |i: int| PhysicalKey::Other),
            r.spec_boundary() == boundary,
    {
        let count = crate::text::chars_of(text).len();
        let mut physical_keys: Vec<PhysicalKey> = Vec::new();
        let mut i: usize = 0;
        while i < count
            invariant
                i <= count,
                count == text@.len(),
                physical_keys@ == Seq::new(i as nat, |j: int| PhysicalKey::Other),
            decreases count - i,
        {
            physical_keys.push(PhysicalKey::Other);
            i = i + 1;
            assert(physical_keys@ =~= Seq::new(i as nat, |j: int| PhysicalKey::Other));
        }
        CompletedToken { text: text.to_owned(), physical_keys, boundary }
    }

    pub fn text(&self) -> (r: &str)
        ensures
            r@ == self.spec_text(),
    {
        self.text.as_str()
    }

    pub fn physical_keys(&self) -> (r: &[PhysicalKey])
        ensures
            r@ == self.spec_keys(),
    {
        self.physical_keys.as_slice()
    }

    pub fn boundary(&self) -> (r: Boundary)
        ensures
            r == self.spec_boundary(),
    {
        self.boundary
    }
}

/// One observed input event.
#[derive(Debug, Clone, Copy, PartialEq, Eq)]
pub enum InputEvent {
    Character(TypedCharacter),
    Backspace,
    Boundary(Boundary),
    Invalidate,
}

impl InputEvent {
    pub fn character(character: char) -> (r: Self)
        ensures
            r == InputEvent::Character(TypedCharacter { produced: character, physical_key: PhysicalKey::Other }),
    {
        InputEvent::Character(TypedCharacter::plain(character))
    }

    pub fn typed_character(character: char, physical_key: PhysicalKey) -> (r: Self)
        ensures
            r == InputEvent::Character(TypedCharacter { produced: character, physical_key }),
    {
        InputEvent::Character(TypedCharacter::new(character, physical_key))
    }
}

/// What one event did to the tracked token.
#[derive(Debug, Clone, PartialEq, Eq)]
pub enum InputOutcome {
    Continue,
    Completed(CompletedToken),
    Invalidated,
}

/// The mathematical content of an [`InputOutcome`].
pub enum OutcomeModel {
    Continue,
    Completed(Seq<char>, Seq<PhysicalKey>, Boundary),
    Invalidated,
}

impl InputOutcome {
    pub open spec fn model(&self) -> OutcomeModel {
        match self {
            InputOutcome::Continue => OutcomeModel::Continue,
            InputOutcome::Completed(token) => OutcomeModel::Completed(
                token.spec_text(),
                token.spec_keys(),
                token.spec_boundary(),
            ),
            InputOutcome::Invalidated => OutcomeModel::Invalidated,
        }
    }
}

/// The mathematical state of an [`InputBuffer`].
pub struct BufferModel {
    pub token: Seq<char>,
    pub keys: Seq<PhysicalKey>,
    pub synchronized: bool,
}

/// A character that continues a token rather than ending it: letters, digits, the word joiners
/// `_ - ' ’`, and any layout-ambiguous key (its meaning is decided later).
pub open spec fn spec_is_token_character(c: TypedCharacter) -> bool {
    char_is_alphanumeric(c.produced) || c.produced == '_' || c.produced == '-' || c.produced
        == '\'' || c.produced == '’' || c.physical_key != PhysicalKey::Other
}

/// Ends the tracked token: an empty token completes nothing.
pub open spec fn spec_complete(state: BufferModel, boundary: Boundary) -> (BufferModel, OutcomeModel) {
    if state.token.len() == 0 {
        (state, OutcomeModel::Continue)
    } else {
        (
            BufferModel { token: Seq::empty(), keys: Seq::empty(), synchronized: true },
            OutcomeModel::Completed(state.token, state.keys, boundary),
        )
    }
}

/// One step of the input buffer.
pub open spec fn spec_step(state: BufferModel, event: InputEvent) -> (BufferModel, OutcomeModel) {
    if !state.synchronized {
        match event {
            InputEvent::Character(c) => if !spec_is_token_character(c) {
                (BufferModel { synchronized: true, ..state }, OutcomeModel::Continue)
            } else {
                (state, OutcomeModel::Continue)
            },
            InputEvent::Boundary(_) => (
                BufferModel { synchronized: true, ..state },
                OutcomeModel::Continue,
            ),
            InputEvent::Invalidate => (state, OutcomeModel::Invalidated),
            InputEvent::Backspace => (state, OutcomeModel::Continue),
        }
    } else {
        match event {
            InputEvent::Character(c) => if spec_is_token_character(c) {
                (
                    BufferModel {
                        token: state.token.push(c.produced),
                        keys: state.keys.push(c.physical_key),
                        synchronized: true,
                    },
                    OutcomeModel::Continue,
                )
            } else {
                spec_complete(state, Boundary::Character(c.produced))
            },
            InputEvent::Boundary(b) => spec_complete(state, b),
            InputEvent::Backspace => (
                BufferModel {
                    token: if state.token.len() == 0 {
                        state.token
                    } else {
                        state.token.drop_last()
                    },
                    keys: if state.keys.len() == 0 {
                        state.keys
                    } else {
                        state.keys.drop_last()
                    },
                    synchronized: true,
                },
                OutcomeModel::Continue,
            ),
            InputEvent::Invalidate => (
                BufferModel { token: Seq::empty(), keys: Seq::empty(), synchronized: false },
                OutcomeModel::Invalidated,
            ),
        }
    }
}

/// Tracks the token being typed.
#[derive(Debug)]
pub struct InputBuffer {
    token: String,
    physical_keys: Vec<PhysicalKey>,
    synchronized: bool,
}

impl Default for InputBuffer {
    fn default() -> (r: Self)
        ensures
            r.model() == (BufferModel { token: Seq::empty(), keys: Seq::empty(), synchronized: true }),
            r.wf(),
    {
        InputBuffer::new()
    }
}

impl InputBuffer {
    pub closed spec fn model(&self) -> BufferModel {
        BufferModel {
            token: self.token@,
            keys: self.physical_keys@,
            synchronized: self.synchronized,
        }
    }

    /// The buffer's invariant: one physical key per tracked character, and nothing tracked
    /// while desynchronized.
    pub open spec fn wf(&self) -> bool {
        &&& self.model().token.len() == self.model().keys.len()
        &&& !self.model().synchronized ==> self.model().token.len() == 0
    }

    pub fn new() -> (r: Self)
        ensures
            r.model() == (BufferModel { token: Seq::empty(), keys: Seq::empty(), synchronized: true }),
            r.wf(),
    {
        InputBuffer { token: String::new(), physical_keys: Vec::new(), synchronized: true }
    }

    pub fn process(&mut self, event: InputEvent) -> (r: InputOutcome)
        ensures
            (final(self).model(), r.model()) == spec_step(old(self).model(), event),
            old(self).wf() ==> final(self).wf(),
    {
        if !self.synchronized {
            return match event {
                InputEvent::Character(character) => {
                    if !is_token_character(character) {
                        self.synchronized = true;
                    }
                    InputOutcome::Continue
                },
                InputEvent::Boundary(_) => {
                    self.synchronized = true;
                    InputOutcome::Continue
                },
                InputEvent::Invalidate => InputOutcome::Invalidated,
                InputEvent::Backspace => InputOutcome::Continue,
            };
        }
        match event {
            InputEvent::Character(character) => {
                if is_token_character(character) {
                    push_char(&mut self.token, character.produced);
                    self.physical_keys.push(character.physical_key);
                    InputOutcome::Continue
                } else {
                    self.complete(Boundary::Character(character.produced))
                }
            },
            InputEvent::Boundary(boundary) => self.complete(boundary),
            InputEvent::Backspace => {
                let _ = pop_char(&mut self.token);
                let _ = self.physical_keys.pop();
                InputOutcome::Continue
            },
            InputEvent::Invalidate => {
                self.token = String::new();
                self.physical_keys = Vec::new();
                self.synchronized = false;
                InputOutcome::Invalidated
            },
        }
    }

    pub fn current_token(&self) -> (r: &str)
        ensures
            r@ == self.model().token,
    {
        self.token.as_str()
    }

    fn complete(&mut self, boundary: Boundary) -> (r: InputOutcome)
        requires
            old(self).synchronized,
        ensures
            (final(self).model(), r.model()) == spec_complete(old(self).model(), boundary),
    {
        if self.token.as_str().is_empty() {
            return InputOutcome::Continue;
        }
        let mut text = String::new();
        let mut physical_keys: Vec<PhysicalKey> = Vec::new();
        std::mem::swap(&mut text, &mut self.token);
        std::mem::swap(&mut physical_keys, &mut self.physical_keys);
        InputOutcome::Completed(CompletedToken { text, physical_keys, boundary })
    }
}

/// The state after a run of events.
pub open spec fn spec_run(state: BufferModel, events: Seq<InputEvent>) -> BufferModel
    decreases events.len(),
{
    if events.len() == 0 {
        state
    } else {
        spec_run(spec_step(state, events[0]).0, events.drop_first())
    }
}

/// Whether some event of a run completes a token.
pub open spec fn spec_run_completes(state: BufferModel, events: Seq<InputEvent>) -> bool
    decreases events.len(),
{
    if events.len() == 0 {
        false
    } else {
        spec_step(state, events[0]).1 is Completed || spec_run_completes(
            spec_step(state, events[0]).0,
            events.drop_first(),
        )
    }
}

/// An event that continues a token or edits it, but cannot re-establish the caret position.
pub open spec fn spec_is_ambiguous_edit(event: InputEvent) -> bool {
    match event {
        InputEvent::Character(c) => spec_is_token_character(c),
        InputEvent::Backspace => true,
        _ => false,
    }
}

/// While tracking is synchronized, a letter, a digit or one of the word joiners `-`, `_`, `'`
/// and `’` continues the word, whatever key produced it: the character (and its key) is
/// appended to the token and nothing is completed, so a hyphenated or apostrophized word stays
/// one token.
pub proof fn lemma_word_characters_extend_the_token(state: BufferModel, c: TypedCharacter)
    requires
        state.synchronized,
        char_is_alphanumeric(c.produced) || c.produced == '-' || c.produced == '_' || c.produced == '\''
            || c.produced == '\u{2019}',
    ensures
        spec_step(state, InputEvent::Character(c)) == (
        BufferModel {
            token: state.token.push(c.produced),
            keys: state.keys.push(c.physical_key),
            synchronized: true,
        },
        OutcomeModel::Continue,
        ),
{
}

/// Fail closed: once tracking is invalidated, typing and Backspace (without an unambiguous
/// boundary) neither complete a token nor start tracking one.
pub proof fn lemma_invalidated_typing_is_ignored(state: BufferModel, events: Seq<InputEvent>)
    requires
        !state.synchronized,
        forall|i: int| 0 <= i < events.len() ==> spec_is_ambiguous_edit(#[trigger] events[i]),
    ensures
        spec_run(state, events) == state,
        !spec_run_completes(state, events),
    decreases events.len(),
{
    if events.len() > 0 {
        assert(spec_is_ambiguous_edit(events[0]));
        assert forall|i: int| 0 <= i < events.drop_first().len() implies spec_is_ambiguous_edit(
            #[trigger] events.drop_first()[i],
        ) by {
            assert(events.drop_first()[i] == events[i + 1]);
        }
        lemma_invalidated_typing_is_ignored(state, events.drop_first());
    }
}

/// After invalidation, the first unambiguous boundary restarts tracking with an empty token.
pub proof fn lemma_boundary_resynchronizes(state: BufferModel, boundary: Boundary)
    requires
        !state.synchronized,
        state.token.len() == 0,
        state.keys.len() == 0,
    ensures
        spec_step(state, InputEvent::Boundary(boundary)).0 == (BufferModel {
            token: Seq::empty(),
            keys: Seq::empty(),
            synchronized: true,
        }),
        spec_step(state, InputEvent::Boundary(boundary)).1 is Continue,
{
    assert(state.token =~= Seq::empty());
    assert(state.keys =~= Seq::empty());
}

/// Backspace undoes a token character typed just before it.
pub proof fn lemma_backspace_undoes_typed_character(state: BufferModel, c: TypedCharacter)
    requires
        state.synchronized,
        spec_is_token_character(c),
    ensures
        spec_step(spec_step(state, InputEvent::Character(c)).0, InputEvent::Backspace).0 == state,
{
    assert(state.token.push(c.produced).drop_last() =~= state.token);
    assert(state.keys.push(c.physical_key).drop_last() =~= state.keys);
}

/// A completed token is never empty, carries one physical key per character, and leaves the
/// buffer empty and synchronized.
pub proof fn lemma_completed_token_shape(state: BufferModel, event: InputEvent)
    requires
        state.token.len() == state.keys.len(),
        spec_step(state, event).1 is Completed,
    ensures
        spec_step(state, event).1 matches OutcomeModel::Completed(text, keys, _) && text.len() > 0
            && text.len() == keys.len() && text == state.token,
        spec_step(state, event).0.token.len() == 0,
        spec_step(state, event).0.synchronized,
{
}

fn is_token_character(character: TypedCharacter) -> (r: bool)
    ensures
        r == spec_is_token_character(character),
{
    let produced = character.produced;
    is_alphanumeric(produced) || produced == '_' || produced == '-' || produced == '\''
        || produced == '’' || character.physical_key.is_layout_ambiguous()
}

} // verus!
