use diskonaut::board::Direction;
use diskonaut::sequencer::{action_for_key, Action, Key};
use diskonaut::tree::{FileTree, FileType};
use diskonaut::ui::UiMode;

#[test]
fn keys_in_normal_mode() {
    assert_eq!(action_for_key(&UiMode::Normal, Key::Right), Action::Move(Direction::Right));
    assert_eq!(action_for_key(&UiMode::Normal, Key::Char('k')), Action::Move(Direction::Up));
    assert_eq!(action_for_key(&UiMode::Normal, Key::Char('+')), Action::ZoomIn);
    assert_eq!(action_for_key(&UiMode::Normal, Key::Char('0')), Action::ResetZoom);
    assert_eq!(action_for_key(&UiMode::Normal, Key::Enter), Action::EnterSelected);
    assert_eq!(action_for_key(&UiMode::Normal, Key::Esc), Action::LeaveFolder);
    assert_eq!(action_for_key(&UiMode::Normal, Key::Backspace), Action::AskToDelete);
    assert_eq!(action_for_key(&UiMode::Normal, Key::Char('q')), Action::AskToQuit);
    assert_eq!(action_for_key(&UiMode::Normal, Key::Ctrl('c')), Action::AskToQuit);
    assert_eq!(action_for_key(&UiMode::Normal, Key::Other), Action::Nothing);
}

#[test]
fn keys_while_loading_and_prompting() {
    assert_eq!(action_for_key(&UiMode::Loading, Key::Backspace), Action::AskToDelete);
    assert_eq!(action_for_key(&UiMode::ScreenTooSmall, Key::Backspace), Action::Nothing);
    assert_eq!(action_for_key(&UiMode::Loading, Key::Down), Action::Move(Direction::Down));
    let prompt = UiMode::DeleteFile("a".to_string());
    assert_eq!(action_for_key(&prompt, Key::Char('y')), Action::ConfirmDelete);
    assert_eq!(action_for_key(&prompt, Key::Char('n')), Action::Dismiss);
    assert_eq!(action_for_key(&UiMode::ErrorMessage("x".to_string()), Key::Enter), Action::Dismiss);
    assert_eq!(action_for_key(&prompt, Key::Ctrl('c')), Action::Dismiss);
    let exiting = UiMode::Exiting { app_loaded: true };
    assert_eq!(action_for_key(&exiting, Key::Char('y')), Action::Quit);
    assert_eq!(action_for_key(&exiting, Key::Ctrl('c')), Action::Quit);
    assert_eq!(action_for_key(&exiting, Key::Char('n')), Action::Dismiss);
}

#[test]
fn scanned_entries_are_recorded_or_counted() {
    let mut tree = FileTree::new("/scan".to_string());
    assert!(tree.record_scanned(&vec!["a".to_string()], 10, FileType::File));
    assert!(!tree.record_scanned(&vec!["a".to_string(), "b".to_string()], 1, FileType::File));
    assert_eq!(tree.failed_to_read, 1);
    assert!(!tree.record_scanned(&vec!["c".to_string()], u64::MAX, FileType::File));
    assert_eq!(tree.failed_to_read, 2);
    assert_eq!(tree.get_total_size(), 10);
    assert_eq!(tree.get_total_descendants(), 1);
}
