//! The keyboard events a replacement is typed with, and the UTF-16 text they carry.

use vstd::prelude::*;

use super::keys::{
    KEYEVENTF_KEYUP, KEYEVENTF_UNICODE, SUNSWITCHER_INJECTED_MARKER, VK_BACK, VK_CONTROL, VK_DELETE,
    VK_RETURN, VK_TAB,
};
use crate::input::Boundary;
use crate::replacement::ReplacementAction;
use crate::text::chars_of;

verus! {

/// One injected keyboard event: a virtual key, or a UTF-16 code unit typed as Unicode input.
#[derive(Debug, Clone, Copy, PartialEq, Eq, Structural)]
pub enum KeyInput {
    VirtualKey { key: u16, key_up: bool },
    Unicode { unit: u16, key_up: bool },
}

/// A keyboard event as the platform's input injection takes it: virtual key, scan code (the
/// UTF-16 unit of Unicode input), flags, and the extra-info value that marks it as ours.
#[derive(Debug, Clone, Copy, PartialEq, Eq, Structural)]
pub struct PlatformKeyEvent {
    pub virtual_key: u16,
    pub scan_code: u16,
    pub flags: u32,
    pub extra_info: u64,
}

/// A virtual key goes by its code; a Unicode unit goes in the scan code with the Unicode flag;
/// a release adds the key-up flag; every event carries this application's marker.
pub open spec fn spec_platform_key_event(input: KeyInput) -> PlatformKeyEvent {
    match input {
        KeyInput::VirtualKey { key, key_up } => PlatformKeyEvent {
            virtual_key: key,
            scan_code: 0,
            flags: if key_up {
                KEYEVENTF_KEYUP
            } else {
                0
            },
            extra_info: SUNSWITCHER_INJECTED_MARKER,
        },
        KeyInput::Unicode { unit, key_up } => PlatformKeyEvent {
            virtual_key: 0,
            scan_code: unit,
            flags: if key_up {
                (KEYEVENTF_UNICODE + KEYEVENTF_KEYUP) as u32
            } else {
                KEYEVENTF_UNICODE
            },
            extra_info: SUNSWITCHER_INJECTED_MARKER,
        },
    }
}

/// The platform form of a planned event. Every event this application injects is marked with
/// its own extra-info value, so the hook can tell it from the user's typing.
pub fn platform_key_event(input: KeyInput) -> (r: PlatformKeyEvent)
    ensures
        r == spec_platform_key_event(input),
        r.extra_info == SUNSWITCHER_INJECTED_MARKER,
{
    match input {
        KeyInput::VirtualKey { key, key_up } => PlatformKeyEvent {
            virtual_key: key,
            scan_code: 0,
            flags: if key_up {
                KEYEVENTF_KEYUP
            } else {
                0
            },
            extra_info: SUNSWITCHER_INJECTED_MARKER,
        },
        KeyInput::Unicode { unit, key_up } => PlatformKeyEvent {
            virtual_key: 0,
            scan_code: unit,
            flags: if key_up {
                KEYEVENTF_UNICODE + KEYEVENTF_KEYUP
            } else {
                KEYEVENTF_UNICODE
            },
            extra_info: SUNSWITCHER_INJECTED_MARKER,
        },
    }
}

/// The UTF-16 encoding of one character: one unit below U+10000, else a surrogate pair.
pub open spec fn spec_utf16_char(c: char) -> Seq<u16> {
    let v = c as u32;
    if v < 0x10000 {
        seq![v as u16]
    } else {
        let w = (v - 0x10000) as u32;
        seq![(0xD800 + w / 0x400) as u16, (0xDC00 + w % 0x400) as u16]
    }
}

/// The UTF-16 encoding of a character sequence.
pub open spec fn spec_utf16(s: Seq<char>) -> Seq<u16>
    decreases s.len(),
{
    if s.len() == 0 {
        Seq::empty()
    } else {
        spec_utf16(s.drop_last()) + spec_utf16_char(s.last())
    }
}

/// A press and release of a virtual key.
pub open spec fn spec_key_press(key: u16) -> Seq<KeyInput> {
    seq![KeyInput::VirtualKey { key, key_up: false }, KeyInput::VirtualKey { key, key_up: true }]
}

/// A press and release of each unit, in order.
pub open spec fn spec_unicode_presses(units: Seq<u16>) -> Seq<KeyInput>
    decreases units.len(),
{
    if units.len() == 0 {
        Seq::empty()
    } else {
        spec_unicode_presses(units.drop_last()) + seq![
            KeyInput::Unicode { unit: units.last(), key_up: false },
            KeyInput::Unicode { unit: units.last(), key_up: true },
        ]
    }
}

/// `count` presses of a key.
pub open spec fn spec_repeated_presses(key: u16, count: nat) -> Seq<KeyInput>
    decreases count,
{
    if count == 0 {
        Seq::empty()
    } else {
        spec_repeated_presses(key, (count - 1) as nat) + spec_key_press(key)
    }
}

/// How a boundary is replayed: a character is typed; Enter is pressed; the held Tab is released
/// first and then pressed in full.
pub open spec fn spec_boundary_inputs(boundary: Boundary) -> Seq<KeyInput> {
    match boundary {
        Boundary::Character(c) => spec_unicode_presses(spec_utf16_char(c)),
        Boundary::Enter => spec_key_press(VK_RETURN),
        Boundary::Tab => seq![
            KeyInput::VirtualKey { key: VK_TAB, key_up: true },
            KeyInput::VirtualKey { key: VK_TAB, key_up: false },
            KeyInput::VirtualKey { key: VK_TAB, key_up: true },
        ],
    }
}

/// The event releases the key or unit that `down` pressed.
pub open spec fn spec_releases(down: KeyInput, up: KeyInput) -> bool {
    match (down, up) {
        (KeyInput::VirtualKey { key: a, key_up: false }, KeyInput::VirtualKey { key: b, key_up: true }) => a
            == b,
        (KeyInput::Unicode { unit: a, key_up: false }, KeyInput::Unicode { unit: b, key_up: true }) => a
            == b,
        _ => false,
    }
}

/// The events come in pairs, each a press followed by the release of the same key or unit.
pub open spec fn spec_balanced(s: Seq<KeyInput>) -> bool {
    &&& s.len() % 2 == 0
    &&& forall|k: int| 0 <= k < s.len() / 2 ==> #[trigger] spec_releases(s[2 * k], s[2 * k + 1])
}

proof fn lemma_balanced_concat(a: Seq<KeyInput>, b: Seq<KeyInput>)
    requires
        spec_balanced(a),
        spec_balanced(b),
    ensures
        spec_balanced(a + b),
{
    let c = a + b;
    assert forall|k: int| 0 <= k < c.len() / 2 implies #[trigger] spec_releases(c[2 * k], c[2 * k + 1]) by {
        if 2 * k < a.len() {
            assert(c[2 * k] == a[2 * k]);
            assert(c[2 * k + 1] == a[2 * k + 1]);
        } else {
            let j = k - a.len() / 2;
            assert(2 * j == 2 * k - a.len());
            assert(c[2 * k] == b[2 * j]);
            assert(c[2 * k + 1] == b[2 * j + 1]);
        }
    }
}

proof fn lemma_key_press_balanced(key: u16)
    ensures
        spec_balanced(spec_key_press(key)),
{
    assert(spec_releases(spec_key_press(key)[0], spec_key_press(key)[1]));
}

proof fn lemma_repeated_presses_balanced(key: u16, count: nat)
    ensures
        spec_balanced(spec_repeated_presses(key, count)),
    decreases count,
{
    if count > 0 {
        lemma_repeated_presses_balanced(key, (count - 1) as nat);
        lemma_key_press_balanced(key);
        lemma_balanced_concat(spec_repeated_presses(key, (count - 1) as nat), spec_key_press(key));
    }
}

proof fn lemma_unicode_presses_balanced(units: Seq<u16>)
    ensures
        spec_balanced(spec_unicode_presses(units)),
    decreases units.len(),
{
    if units.len() > 0 {
        lemma_unicode_presses_balanced(units.drop_last());
        let pair = seq![
            KeyInput::Unicode { unit: units.last(), key_up: false },
            KeyInput::Unicode { unit: units.last(), key_up: true },
        ];
        assert(spec_releases(pair[0], pair[1]));
        lemma_balanced_concat(spec_unicode_presses(units.drop_last()), pair);
    }
}

/// Every replacement that ends in a typed character or Enter injects balanced press/release
/// pairs: nothing it presses stays down. (The Tab boundary first releases the Tab key the user
/// still holds, so it starts with a release.)
pub proof fn lemma_replacement_inputs_balanced(delete: nat, replacement: Seq<char>, boundary: Boundary)
    requires
        !(boundary is Tab),
    ensures
        spec_balanced(
            spec_repeated_presses(VK_BACK, delete) + spec_unicode_presses(spec_utf16(replacement))
                + spec_boundary_inputs(boundary),
        ),
{
    lemma_repeated_presses_balanced(VK_BACK, delete);
    lemma_unicode_presses_balanced(spec_utf16(replacement));
    lemma_balanced_concat(spec_repeated_presses(VK_BACK, delete), spec_unicode_presses(spec_utf16(replacement)));
    match boundary {
        Boundary::Character(c) => lemma_unicode_presses_balanced(spec_utf16_char(c)),
        Boundary::Enter => lemma_key_press_balanced(VK_RETURN),
        Boundary::Tab => {},
    }
    lemma_balanced_concat(
        spec_repeated_presses(VK_BACK, delete) + spec_unicode_presses(spec_utf16(replacement)),
        spec_boundary_inputs(boundary),
    );
}

/// The injected text of a selection replacement is balanced press/release pairs too.
pub proof fn lemma_selected_text_inputs_balanced(text: Seq<char>)
    ensures
        spec_balanced(
            if text.len() == 0 {
                spec_key_press(VK_DELETE)
            } else {
                spec_unicode_presses(spec_utf16(text))
            },
        ),
{
    lemma_key_press_balanced(VK_DELETE);
    lemma_unicode_presses_balanced(spec_utf16(text));
}

/// The UTF-16 units of one character.
pub fn utf16_char(c: char) -> (r: Vec<u16>)
    ensures
        r@ == spec_utf16_char(c),
{
    let v = c as u32;
    let mut out: Vec<u16> = Vec::new();
    if v < 0x10000 {
        out.push(v as u16);
    } else {
        let w = v - 0x10000;
        assert(w < 0x100000) by {
            assert(v <= 0x10FFFF);
        }
        out.push((0xD800 + w / 0x400) as u16);
        out.push((0xDC00 + w % 0x400) as u16);
    }
    assert(out@ =~= spec_utf16_char(c));
    out
}

/// The UTF-16 units of a string.
pub fn utf16_units(text: &str) -> (r: Vec<u16>)
    ensures
        r@ == spec_utf16(text@),
{
    let chars = chars_of(text);
    let mut out: Vec<u16> = Vec::new();
    let mut i: usize = 0;
    while i < chars.len()
        invariant
            i <= chars@.len(),
            chars@ == text@,
            out@ == spec_utf16(chars@.take(i as int)),
        decreases chars@.len() - i,
    {
        let mut units = utf16_char(chars[i]);
        assert(chars@.take(i + 1).drop_last() =~= chars@.take(i as int));
        out.append(&mut units);
        i = i + 1;
    }
    assert(chars@.take(chars@.len() as int) =~= chars@);
    out
}

/// Appends a press and release of each unit.
fn push_unicode_presses(inputs: &mut Vec<KeyInput>, units: &Vec<u16>)
    ensures
        final(inputs)@ == old(inputs)@ + spec_unicode_presses(units@),
{
    let mut i: usize = 0;
    while i < units.len()
        invariant
            i <= units@.len(),
            inputs@ == old(inputs)@ + spec_unicode_presses(units@.take(i as int)),
        decreases units@.len() - i,
    {
        let unit = units[i];
        inputs.push(KeyInput::Unicode { unit, key_up: false });
        inputs.push(KeyInput::Unicode { unit, key_up: true });
        assert(units@.take(i + 1).drop_last() =~= units@.take(i as int));
        i = i + 1;
        assert(inputs@ =~= old(inputs)@ + spec_unicode_presses(units@.take(i as int)));
    }
    assert(units@.take(units@.len() as int) =~= units@);
}

/// The events that execute a replacement: one Backspace press per deleted character, the
/// replacement's UTF-16 units, then the boundary.
pub fn build_replacement_inputs(action: &ReplacementAction) -> (r: Vec<KeyInput>)
    ensures
        r@ == spec_repeated_presses(VK_BACK, action.spec_delete()) + spec_unicode_presses(
            spec_utf16(action.spec_replacement()),
        ) + spec_boundary_inputs(action.spec_boundary()),
{
    let mut inputs: Vec<KeyInput> = Vec::new();
    let count = action.delete_previous_chars();
    let mut k: usize = 0;
    while k < count
        invariant
            k <= count,
            inputs@ == spec_repeated_presses(VK_BACK, k as nat),
        decreases count - k,
    {
        inputs.push(KeyInput::VirtualKey { key: VK_BACK, key_up: false });
        inputs.push(KeyInput::VirtualKey { key: VK_BACK, key_up: true });
        k = k + 1;
        assert(inputs@ =~= spec_repeated_presses(VK_BACK, k as nat));
    }
    let ghost deletes = inputs@;
    let units = utf16_units(action.replacement().as_str());
    push_unicode_presses(&mut inputs, &units);
    let ghost typed = inputs@;
    match action.boundary() {
        Boundary::Character(c) => {
            let boundary_units = utf16_char(c);
            push_unicode_presses(&mut inputs, &boundary_units);
        },
        Boundary::Enter => {
            inputs.push(KeyInput::VirtualKey { key: VK_RETURN, key_up: false });
            inputs.push(KeyInput::VirtualKey { key: VK_RETURN, key_up: true });
        },
        Boundary::Tab => {
            inputs.push(KeyInput::VirtualKey { key: VK_TAB, key_up: true });
            inputs.push(KeyInput::VirtualKey { key: VK_TAB, key_up: false });
            inputs.push(KeyInput::VirtualKey { key: VK_TAB, key_up: true });
        },
    }
    assert(inputs@ =~= spec_repeated_presses(VK_BACK, action.spec_delete()) + spec_unicode_presses(
        spec_utf16(action.spec_replacement()),
    ) + spec_boundary_inputs(action.spec_boundary()));
    inputs
}

/// The events that replace a selection: Delete for an empty replacement, else the text's UTF-16
/// units typed as Unicode input.
pub fn build_selected_text_inputs(text: &str) -> (r: Vec<KeyInput>)
    ensures
        r@ == (if text@.len() == 0 {
            spec_key_press(VK_DELETE)
        } else {
            spec_unicode_presses(spec_utf16(text@))
        }),
{
    let mut inputs: Vec<KeyInput> = Vec::new();
    if text.is_empty() {
        inputs.push(KeyInput::VirtualKey { key: VK_DELETE, key_up: false });
        inputs.push(KeyInput::VirtualKey { key: VK_DELETE, key_up: true });
        assert(inputs@ =~= spec_key_press(VK_DELETE));
        return inputs;
    }
    let units = utf16_units(text);
    push_unicode_presses(&mut inputs, &units);
    assert(inputs@ =~= spec_unicode_presses(spec_utf16(text@)));
    inputs
}

/// Ctrl held around a press of `key`.
pub fn build_ctrl_chord_inputs(key: u16) -> (r: Vec<KeyInput>)
    ensures
        r@ == seq![
            KeyInput::VirtualKey { key: VK_CONTROL, key_up: false },
            KeyInput::VirtualKey { key, key_up: false },
            KeyInput::VirtualKey { key, key_up: true },
            KeyInput::VirtualKey { key: VK_CONTROL, key_up: true },
        ],
{
    let mut inputs: Vec<KeyInput> = Vec::new();
    inputs.push(KeyInput::VirtualKey { key: VK_CONTROL, key_up: false });
    inputs.push(KeyInput::VirtualKey { key, key_up: false });
    inputs.push(KeyInput::VirtualKey { key, key_up: true });
    inputs.push(KeyInput::VirtualKey { key: VK_CONTROL, key_up: true });
    assert(inputs@ =~= seq![
        KeyInput::VirtualKey { key: VK_CONTROL, key_up: false },
        KeyInput::VirtualKey { key, key_up: false },
        KeyInput::VirtualKey { key, key_up: true },
        KeyInput::VirtualKey { key: VK_CONTROL, key_up: true },
    ]);
    inputs
}

/// The clipboard payload of a text: its UTF-16 units and a terminating NUL.
pub fn unicode_clipboard_units(text: &str) -> (r: Vec<u16>)
    ensures
        r@ == spec_utf16(text@).push(0),
{
    let mut units = utf16_units(text);
    units.push(0);
    units
}

} // verus!
