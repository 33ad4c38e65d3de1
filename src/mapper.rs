//! The event mapper: one character to the key events that type it.
use vstd::prelude::*;

verus! {

/// Whether a key goes down or comes up.
#[derive(Clone, Copy, Debug, PartialEq, Eq, Structural)]
pub enum KeyAction {
    Press,
    Release,
}

/// The keys that are driven by key code rather than by inserting a character.
#[derive(Clone, Copy, Debug, PartialEq, Eq, Structural)]
pub enum NamedKey {
    Return,
    Tab,
}

/// A platform-neutral key event.
#[derive(Clone, Copy, Debug, PartialEq, Eq, Structural)]
pub enum KeyEvent {
    /// Insert this character as typed text.
    Type(char),
    /// Press or release a named key.
    Key(NamedKey, KeyAction),
}

/// What the mapper makes of one character.
#[derive(Debug)]
pub enum Mapping {
    /// The character is typed by these events, in order (possibly none).
    Events(Vec<KeyEvent>),
    /// The character has no key-event representation.
    Unsupported,
}

/// Code points of the three private-use areas.
pub open spec fn is_private_use(c: char) -> bool {
    let v = c as u32;
    (0xE000 <= v && v <= 0xF8FF) || (0xF0000 <= v && v <= 0xFFFFD) || (0x100000 <= v && v
        <= 0x10FFFD)
}

/// C0 and C1 control characters, and DEL.
pub open spec fn is_control(c: char) -> bool {
    let v = c as u32;
    v < 0x20 || (0x7F <= v && v <= 0x9F)
}

/// A character the mapper can represent (possibly by no event at all).
pub open spec fn is_supported(c: char) -> bool {
    !is_private_use(c)
}

/// The events that type a supported character.
pub open spec fn key_events(c: char) -> Seq<KeyEvent> {
    if c == '\n' {
        seq![KeyEvent::Key(NamedKey::Return, KeyAction::Press), KeyEvent::Key(NamedKey::Return, KeyAction::Release)]
    } else if c == '\t' {
        seq![KeyEvent::Key(NamedKey::Tab, KeyAction::Press), KeyEvent::Key(NamedKey::Tab, KeyAction::Release)]
    } else if is_control(c) {
        seq![]
    } else {
        seq![KeyEvent::Type(c)]
    }
}

/// The mapping of one character, as a value.
pub open spec fn spec_map_char(c: char) -> Option<Seq<KeyEvent>> {
    if is_supported(c) {
        Some(key_events(c))
    } else {
        None
    }
}

/// Maps one character to its key events, or marks it unsupported.
pub fn map_char(c: char) -> (r: Mapping)
    ensures
        match r {
            Mapping::Events(v) => spec_map_char(c) == Some(v@),
            Mapping::Unsupported => spec_map_char(c) == None::<Seq<KeyEvent>>,
        },
{
    let v = c as u32;
    if (0xE000 <= v && v <= 0xF8FF) || (0xF0000 <= v && v <= 0xFFFFD) || (0x100000 <= v && v
        <= 0x10FFFD) {
        return Mapping::Unsupported;
    }
    let mut events: Vec<KeyEvent> = Vec::new();
    if c == '\n' {
        events.push(KeyEvent::Key(NamedKey::Return, KeyAction::Press));
        events.push(KeyEvent::Key(NamedKey::Return, KeyAction::Release));
    } else if c == '\t' {
        events.push(KeyEvent::Key(NamedKey::Tab, KeyAction::Press));
        events.push(KeyEvent::Key(NamedKey::Tab, KeyAction::Release));
    } else if v < 0x20 || (0x7F <= v && v <= 0x9F) {
    } else {
        events.push(KeyEvent::Type(c));
    }
    proof {
        assert(events@ =~= key_events(c));
    }
    Mapping::Events(events)
}

} // verus!
