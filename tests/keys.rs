use game2048::action::{select_action, Action};
use game2048::field::{ShiftDim, ShiftDir};

#[test]
fn movement_keys_select_shifts() {
    let left = Some(Action::Shift(ShiftDim::Horizontal, ShiftDir::Direct));
    let right = Some(Action::Shift(ShiftDim::Horizontal, ShiftDir::Reverse));
    let up = Some(Action::Shift(ShiftDim::Vertical, ShiftDir::Direct));
    let down = Some(Action::Shift(ShiftDim::Vertical, ShiftDir::Reverse));
    assert_eq!(select_action("a"), left);
    assert_eq!(select_action("h"), left);
    assert_eq!(select_action("d"), right);
    assert_eq!(select_action("l"), right);
    assert_eq!(select_action("w"), up);
    assert_eq!(select_action("k"), up);
    assert_eq!(select_action("s"), down);
    assert_eq!(select_action("j"), down);
}

#[test]
fn quit_key_selects_quit() {
    assert_eq!(select_action("q"), Some(Action::Quit));
}

#[test]
fn other_text_selects_nothing() {
    assert_eq!(select_action(""), None);
    assert_eq!(select_action("x"), None);
    assert_eq!(select_action("aa"), None);
    assert_eq!(select_action("A"), None);
    assert_eq!(select_action("\u{e9}"), None);
}
