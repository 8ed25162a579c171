use crate::field::{ShiftDim, ShiftDir};
use vstd::prelude::*;
use vstd::string::StrSliceExecFns;

verus! {

/// What a player asks for: a shift of the board, or the end of the game.
#[derive(Copy, Clone, Debug, PartialEq, Eq, Structural)]
pub enum Action {
    Shift(ShiftDim, ShiftDir),
    Quit,
}

/// The action bound to the key `c`: `a`/`h` left, `d`/`l` right, `w`/`k` up,
/// `s`/`j` down, `q` quit.
pub open spec fn key_action(c: char) -> Option<Action> {
    if c == 'a' || c == 'h' {
        Some(Action::Shift(ShiftDim::Horizontal, ShiftDir::Direct))
    } else if c == 'd' || c == 'l' {
        Some(Action::Shift(ShiftDim::Horizontal, ShiftDir::Reverse))
    } else if c == 'w' || c == 'k' {
        Some(Action::Shift(ShiftDim::Vertical, ShiftDir::Direct))
    } else if c == 's' || c == 'j' {
        Some(Action::Shift(ShiftDim::Vertical, ShiftDir::Reverse))
    } else if c == 'q' {
        Some(Action::Quit)
    } else {
        None
    }
}

/// The action that the text `s` names: a single key, or nothing.
pub open spec fn action_for(s: Seq<char>) -> Option<Action> {
    if s.len() == 1 {
        key_action(s[0])
    } else {
        None
    }
}

/// Reads one command key; `None` for any other text.
pub fn select_action(s: &str) -> (r: Option<Action>)
    ensures
        r == action_for(s@),
{
    if s.unicode_len() != 1 {
        return None;
    }
    let c = s.get_char(0);
    if c == 'a' || c == 'h' {
        Some(Action::Shift(ShiftDim::Horizontal, ShiftDir::Direct))
    } else if c == 'd' || c == 'l' {
        Some(Action::Shift(ShiftDim::Horizontal, ShiftDir::Reverse))
    } else if c == 'w' || c == 'k' {
        Some(Action::Shift(ShiftDim::Vertical, ShiftDir::Direct))
    } else if c == 's' || c == 'j' {
        Some(Action::Shift(ShiftDim::Vertical, ShiftDir::Reverse))
    } else if c == 'q' {
        Some(Action::Quit)
    } else {
        None
    }
}

} // verus!
