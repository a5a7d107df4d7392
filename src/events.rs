//! What the monitor's loop reacts to: the periodic tick, and the key presses
//! that ask it to quit.

use vstd::prelude::*;

verus! {

/// What the loop is told to do.
#[derive(Clone, Copy, Debug, PartialEq, Eq, Structural)]
pub enum Event {
    Tick,
    Quit,
}

/// A terminal event that asks for nothing.
#[derive(Clone, Copy, Debug, PartialEq, Eq, Structural)]
pub struct NoOp;

/// Whether a key went down, repeated or came up.
#[derive(Clone, Copy, Debug, PartialEq, Eq, Structural)]
pub enum KeyKind {
    Press,
    Repeat,
    Release,
}

/// A key event as the loop needs it: its kind, the character of a character
/// key (`None` for other keys), and whether Control was the only modifier
/// held.
#[derive(Clone, Copy, Debug, PartialEq, Eq, Structural)]
pub struct KeyInput {
    pub kind: KeyKind,
    pub character: Option<char>,
    pub control_only: bool,
}

/// A terminal event: a key, or anything else (resize, mouse, focus, paste).
#[derive(Clone, Copy, Debug, PartialEq, Eq, Structural)]
pub enum TerminalEvent {
    Key(KeyInput),
    Other,
}

/// Whether `key` asks to quit: a press of `q`, or of `c` with Control alone.
pub open spec fn asks_to_quit(key: KeyInput) -> bool {
    &&& key.kind == KeyKind::Press
    &&& (key.character == Some('q') || (key.character == Some('c') && key.control_only))
}

/// Whether `key` asks to quit.
pub fn is_shutdown_event(key: &KeyInput) -> (r: bool)
    ensures
        r == asks_to_quit(*key),
{
    if key.kind != KeyKind::Press {
        false
    } else {
        match key.character {
            Some(c) => c == 'q' || (c == 'c' && key.control_only),
            None => false,
        }
    }
}

/// `Quit` for a key that asks to quit, `NoOp` for any other event.
pub open spec fn event_of(value: TerminalEvent) -> Result<Event, NoOp> {
    match value {
        TerminalEvent::Key(key) => if asks_to_quit(key) {
            Ok(Event::Quit)
        } else {
            Err(NoOp)
        },
        TerminalEvent::Other => Err(NoOp),
    }
}

impl TryFrom<TerminalEvent> for Event {
    type Error = NoOp;

    fn try_from(value: TerminalEvent) -> (r: Result<Event, NoOp>) {
        if let TerminalEvent::Key(key) = value {
            if is_shutdown_event(&key) {
                return Ok(Event::Quit);
            }
        }
        Err(NoOp)
    }
}

impl vstd::std_specs::convert::TryFromSpecImpl<TerminalEvent> for Event {
    open spec fn obeys_try_from_spec() -> bool {
        true
    }

    open spec fn try_from_spec(v: TerminalEvent) -> Result<Event, NoOp> {
        event_of(v)
    }
}

} // verus!
