use vstd::prelude::*;
use crate::board::Direction;
use crate::ui::UiMode;

verus! {

/// A key as the program sees it.
#[derive(Clone, Copy, Debug, PartialEq, Eq, Structural)]
pub enum Key {
    Char(char),
    Ctrl(char),
    Left,
    Right,
    Up,
    Down,
    Enter,
    Esc,
    Backspace,
    Delete,
    Other,
}

/// What a key asks the owner of the tree and the board to do.
#[derive(Clone, Copy, Debug, PartialEq, Eq, Structural)]
pub enum Action {
    Quit,
    AskToQuit,
    Move(Direction),
    ZoomIn,
    ZoomOut,
    ResetZoom,
    EnterSelected,
    LeaveFolder,
    AskToDelete,
    ConfirmDelete,
    Dismiss,
    Nothing,
}

/// Keys that browse the map, in any mode that shows it without a prompt.
pub open spec fn browse_action(key: Key) -> Action {
    match key {
        Key::Right | Key::Char('l') => Action::Move(Direction::Right),
        Key::Left | Key::Char('h') => Action::Move(Direction::Left),
        Key::Up | Key::Char('k') => Action::Move(Direction::Up),
        Key::Down | Key::Char('j') => Action::Move(Direction::Down),
        Key::Char('+') => Action::ZoomIn,
        Key::Char('-') => Action::ZoomOut,
        Key::Char('0') => Action::ResetZoom,
        Key::Enter => Action::EnterSelected,
        Key::Esc => Action::LeaveFolder,
        Key::Char('q') | Key::Ctrl('c') => Action::AskToQuit,
        _ => Action::Nothing,
    }
}

/// The action for `key` in `mode`. The exit prompt is confirmed by `y` or Ctrl-C and
/// dismissed by any other key; a deletion prompt is confirmed by `y` and dismissed by any
/// other key; a message is dismissed by any key. Otherwise the keys browse the map, `q`
/// and Ctrl-C ask to quit, and backspace or delete ask to delete the selection (which
/// `on_delete_key` turns into a warning while the scan runs).
pub open spec fn key_action(mode: UiMode, key: Key) -> Action {
    match mode {
        UiMode::Exiting { .. } => if key == Key::Char('y') || key == Key::Ctrl('c') {
            Action::Quit
        } else {
            Action::Dismiss
        },
        UiMode::DeleteFile(_) => if key == Key::Char('y') {
            Action::ConfirmDelete
        } else {
            Action::Dismiss
        },
        UiMode::ErrorMessage(_) | UiMode::WarningMessage(_) => Action::Dismiss,
        UiMode::Normal | UiMode::Loading => if key == Key::Backspace || key == Key::Delete {
            Action::AskToDelete
        } else {
            browse_action(key)
        },
        UiMode::ScreenTooSmall => browse_action(key),
    }
}

fn browse(key: Key) -> (r: Action)
    ensures
        r == browse_action(key),
{
    match key {
        Key::Right | Key::Char('l') => Action::Move(Direction::Right),
        Key::Left | Key::Char('h') => Action::Move(Direction::Left),
        Key::Up | Key::Char('k') => Action::Move(Direction::Up),
        Key::Down | Key::Char('j') => Action::Move(Direction::Down),
        Key::Char('+') => Action::ZoomIn,
        Key::Char('-') => Action::ZoomOut,
        Key::Char('0') => Action::ResetZoom,
        Key::Enter => Action::EnterSelected,
        Key::Esc => Action::LeaveFolder,
        Key::Char('q') | Key::Ctrl('c') => Action::AskToQuit,
        _ => Action::Nothing,
    }
}

/// Decides what `key` does in `mode` (see `key_action`).
pub fn action_for_key(mode: &UiMode, key: Key) -> (r: Action)
    ensures
        r == key_action(*mode, key),
{
    match mode {
        UiMode::Exiting { .. } => if key == Key::Char('y') || key == Key::Ctrl('c') {
            Action::Quit
        } else {
            Action::Dismiss
        },
        UiMode::DeleteFile(_) => if key == Key::Char('y') {
            Action::ConfirmDelete
        } else {
            Action::Dismiss
        },
        UiMode::ErrorMessage(_) | UiMode::WarningMessage(_) => Action::Dismiss,
        UiMode::Normal | UiMode::Loading => if key == Key::Backspace || key == Key::Delete {
            Action::AskToDelete
        } else {
            browse(key)
        },
        UiMode::ScreenTooSmall => browse(key),
    }
}

} // verus!
