//! The kernel's console loop: what each byte read from the serial port does, with the arrow
//! keys that terminals send as escape sequences.
use vstd::prelude::*;

verus! {

/// Where the console is in an escape sequence.
#[derive(Debug, Copy, Clone, PartialEq, Eq, Structural)]
pub enum ConsoleState {
    /// Not in an escape sequence.
    Normal,
    /// After an escape byte: a `[` must follow.
    Escape,
    /// After an escape byte and `[`: the key follows.
    Bracket,
}

/// An arrow key.
#[derive(Debug, Copy, Clone, PartialEq, Eq, Structural)]
pub enum Arrow {
    Up,
    Down,
    Right,
    Left,
}

/// What the console does on one step.
#[derive(Debug, Copy, Clone, PartialEq, Eq, Structural)]
pub enum ConsoleAction {
    /// Nothing to show; read the next byte.
    Read,
    /// No byte was waiting: let other tasks run, then read again.
    Yield,
    /// Start a new line.
    Newline,
    /// Rub out the last character shown.
    Erase,
    /// Show the character with this code.
    Echo(u8),
    /// Name the arrow key pressed.
    Key(Arrow),
    /// Report an escape sequence that ends in this byte and names no arrow key.
    UnknownEscape(u8),
}

/// The console's next state and action after reading `input`: a byte, or `None` when no byte
/// was waiting.
pub open spec fn console_spec(state: ConsoleState, input: Option<u8>) -> (ConsoleState, ConsoleAction) {
    match state {
        ConsoleState::Normal => match input {
            None => (ConsoleState::Normal, ConsoleAction::Yield),
            Some(ch) => if ch == 13 {
                (ConsoleState::Normal, ConsoleAction::Newline)
            } else if ch == 27 {
                (ConsoleState::Escape, ConsoleAction::Read)
            } else if ch == 127 {
                (ConsoleState::Normal, ConsoleAction::Erase)
            } else {
                (ConsoleState::Normal, ConsoleAction::Echo(ch))
            },
        },
        ConsoleState::Escape => if input == Some(91u8) {
            (ConsoleState::Bracket, ConsoleAction::Read)
        } else {
            (ConsoleState::Normal, ConsoleAction::Read)
        },
        ConsoleState::Bracket => match input {
            None => (ConsoleState::Normal, ConsoleAction::Read),
            Some(ch) => if ch == 65 {
                (ConsoleState::Normal, ConsoleAction::Key(Arrow::Up))
            } else if ch == 66 {
                (ConsoleState::Normal, ConsoleAction::Key(Arrow::Down))
            } else if ch == 67 {
                (ConsoleState::Normal, ConsoleAction::Key(Arrow::Right))
            } else if ch == 68 {
                (ConsoleState::Normal, ConsoleAction::Key(Arrow::Left))
            } else {
                (ConsoleState::Normal, ConsoleAction::UnknownEscape(ch))
            },
        },
    }
}

/// One step of the console: the byte read from the serial port, or `None` when none was
/// waiting, moves it to its next state and says what to do. A carriage return starts a new
/// line, delete rubs out, an escape byte starts a sequence whose `[` and key byte are read
/// next; any other byte is shown.
pub fn console_step(state: ConsoleState, input: Option<u8>) -> (r: (ConsoleState, ConsoleAction))
    ensures
        r == console_spec(state, input),
{
    match state {
        ConsoleState::Normal => match input {
            None => (ConsoleState::Normal, ConsoleAction::Yield),
            Some(ch) => if ch == 13 {
                (ConsoleState::Normal, ConsoleAction::Newline)
            } else if ch == 27 {
                (ConsoleState::Escape, ConsoleAction::Read)
            } else if ch == 127 {
                (ConsoleState::Normal, ConsoleAction::Erase)
            } else {
                (ConsoleState::Normal, ConsoleAction::Echo(ch))
            },
        },
        ConsoleState::Escape => match input {
            Some(ch) => if ch == 91 {
                (ConsoleState::Bracket, ConsoleAction::Read)
            } else {
                (ConsoleState::Normal, ConsoleAction::Read)
            },
            None => (ConsoleState::Normal, ConsoleAction::Read),
        },
        ConsoleState::Bracket => match input {
            None => (ConsoleState::Normal, ConsoleAction::Read),
            Some(ch) => if ch == 65 {
                (ConsoleState::Normal, ConsoleAction::Key(Arrow::Up))
            } else if ch == 66 {
                (ConsoleState::Normal, ConsoleAction::Key(Arrow::Down))
            } else if ch == 67 {
                (ConsoleState::Normal, ConsoleAction::Key(Arrow::Right))
            } else if ch == 68 {
                (ConsoleState::Normal, ConsoleAction::Key(Arrow::Left))
            } else {
                (ConsoleState::Normal, ConsoleAction::UnknownEscape(ch))
            },
        },
    }
}

/// Whatever comes in, an escape sequence under way ends within two more steps: one of
/// them leads back to the normal state.
pub proof fn lemma_escape_ends(state: ConsoleState, a: Option<u8>, b: Option<u8>)
    requires
        state != ConsoleState::Normal,
    ensures
        ({
            let (s1, _) = console_spec(state, a);
            let (s2, _) = console_spec(s1, b);
            s1 == ConsoleState::Normal || s2 == ConsoleState::Normal
        }),
{
}

} // verus!
