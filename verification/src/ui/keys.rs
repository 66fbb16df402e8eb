//! The keys of the interactive view.

use vstd::prelude::*;

verus! {

/// A key.
#[derive(Clone, Copy, Debug, PartialEq, Eq, Structural)]
pub enum KeyCode {
    Char(char),
    Enter,
    Esc,
    Up,
    Down,
    Tab,
    BackTab,
    Backspace,
    /// A key that nothing is bound to.
    Other,
}

/// A key with what is held down beside it.
#[derive(Clone, Copy, Debug, PartialEq, Eq, Structural)]
pub struct KeyEvent {
    pub code: KeyCode,
    pub shift: bool,
    pub control: bool,
}

impl KeyEvent {
    /// A key with nothing beside it.
    pub fn plain(code: KeyCode) -> (r: Self)
        ensures
            r == (KeyEvent { code, shift: false, control: false }),
    {
        KeyEvent { code, shift: false, control: false }
    }
}

/// What the terminal tells.
#[derive(Clone, Copy, Debug, PartialEq, Eq, Structural)]
pub enum TerminalEvent {
    /// A key is pressed.
    Press(KeyEvent),
    /// The terminal's size has changed.
    Resize,
    /// Something that is of no interest, such as the release of a key.
    Other,
}

/// Whether a key picks up the selected commit, and whether with the commits above it.
pub open spec fn picks(code: KeyCode) -> Option<bool> {
    if code == KeyCode::Char('m') {
        Some(false)
    } else if code == KeyCode::Char('M') {
        Some(true)
    } else {
        None
    }
}

/// Computes `picks`.
pub fn move_pick(key: &KeyEvent) -> (r: Option<bool>)
    ensures
        r == picks(key.code),
{
    match key.code {
        KeyCode::Char('m') => Some(false),
        KeyCode::Char('M') => Some(true),
        _ => None,
    }
}

/// What a key makes of the help, which takes all keys while it is open.
pub open spec fn help_after(open: bool, code: KeyCode) -> Option<bool> {
    if open {
        Some(!(code == KeyCode::Char('?') || code == KeyCode::Esc))
    } else if code == KeyCode::Char('?') {
        Some(true)
    } else {
        None
    }
}

/// Computes `help_after`.
pub fn help_transition(open: bool, key: &KeyEvent) -> (r: Option<bool>)
    ensures
        r == help_after(open, key.code),
{
    if open {
        Some(
            match key.code {
                KeyCode::Char('?') => false,
                KeyCode::Esc => false,
                _ => true,
            },
        )
    } else {
        match key.code {
            KeyCode::Char('?') => Some(true),
            _ => None,
        }
    }
}

} // verus!
