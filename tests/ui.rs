use diskonaut::board::DeleteError;
use diskonaut::tiles::Tile;
use diskonaut::tree::FileType;
use diskonaut::ui::{
    after_deletion, controls_legend, first_fitting, on_cancel, on_delete_key, on_quit_key,
    on_resize, on_scan_done, shows_scan_progress, truncate_middle, BottomLine, UiMode,
    NOTHING_SELECTED_MESSAGE, NOT_FOUND_MESSAGE, SCANNING_WARNING,
    LONG_CONTROLS, LONG_CONTROLS_NO_DELETE, SHORT_CONTROLS, SHORT_CONTROLS_NO_DELETE,
    TOO_SMALL_CONTROLS,
};

#[test]
fn bottom_line_builder() {
    let tile = Tile {
        name: "a".to_string(),
        size: 1,
        file_type: FileType::File,
        num_descendants: 0,
        x: 0,
        y: 0,
        width: 1,
        height: 1,
    };
    let path = "/scan/a".to_string();
    let line = BottomLine::new();
    assert!(!line.hide_delete && !line.hide_small_files_legend);
    let line = line
        .hide_delete()
        .hide_small_files_legend(true)
        .currently_selected(Some(&tile))
        .last_read_path(Some(&path));
    assert!(line.hide_delete);
    assert!(line.hide_small_files_legend);
    assert_eq!(line.currently_selected.unwrap().name, "a");
    assert_eq!(line.last_read_path.unwrap(), "/scan/a");
    assert_eq!(line.max_status_len(100), 99);
    assert_eq!(line.max_status_len(1), 0);
    let shown = BottomLine::new().hide_small_files_legend(false);
    assert_eq!(shown.max_status_len(100), 82);
}

#[test]
fn controls_legend_picks_what_fits() {
    assert_eq!(controls_legend(false, 200), LONG_CONTROLS);
    assert_eq!(controls_legend(false, 132), LONG_CONTROLS);
    assert_eq!(controls_legend(false, 131), SHORT_CONTROLS);
    assert_eq!(controls_legend(false, 46), SHORT_CONTROLS);
    assert_eq!(controls_legend(false, 45), TOO_SMALL_CONTROLS);
    assert_eq!(controls_legend(true, 110), LONG_CONTROLS_NO_DELETE);
    assert_eq!(controls_legend(true, 50), SHORT_CONTROLS_NO_DELETE);
    assert_eq!(controls_legend(true, 27), TOO_SMALL_CONTROLS);
    assert_eq!(LONG_CONTROLS.chars().count(), 132);
    assert_eq!(SHORT_CONTROLS_NO_DELETE.chars().count(), 28);
}

#[test]
fn first_fitting_line() {
    assert_eq!(first_fitting(&vec![40, 30, 10], 35), Some(1));
    assert_eq!(first_fitting(&vec![40, 30, 10], 5), None);
    assert_eq!(first_fitting(&vec![], 5), None);
}

#[test]
fn delete_confirmation_flow() {
    let mode = on_delete_key(UiMode::Normal, Some("a".to_string()));
    assert_eq!(mode, UiMode::DeleteFile("a".to_string()));
    assert_eq!(on_cancel(mode.clone(), true), UiMode::Normal);
    assert_eq!(on_delete_key(UiMode::Normal, None), UiMode::Normal);
    assert_eq!(
        on_delete_key(UiMode::Loading, Some("a".to_string())),
        UiMode::WarningMessage(SCANNING_WARNING.to_string())
    );
    assert_eq!(after_deletion(Ok(3)), UiMode::Normal);
    assert_eq!(after_deletion(Err(DeleteError::NotFound)), UiMode::ErrorMessage(NOT_FOUND_MESSAGE.to_string()));
    assert_eq!(
        after_deletion(Err(DeleteError::NothingSelected)),
        UiMode::ErrorMessage(NOTHING_SELECTED_MESSAGE.to_string())
    );
    assert_eq!(on_scan_done(UiMode::Loading), UiMode::Normal);
    assert_eq!(on_scan_done(UiMode::Exiting { app_loaded: false }), UiMode::Exiting { app_loaded: true });
    assert_eq!(on_scan_done(UiMode::ScreenTooSmall), UiMode::ScreenTooSmall);
    assert_eq!(on_cancel(UiMode::Loading, false), UiMode::Loading);
}

#[test]
fn quit_prompt_and_resize() {
    let mode = on_quit_key(false);
    assert_eq!(mode, UiMode::Exiting { app_loaded: false });
    assert!(shows_scan_progress(&mode));
    assert_eq!(on_cancel(mode, false), UiMode::Loading);
    assert_eq!(on_cancel(UiMode::Exiting { app_loaded: true }, true), UiMode::Normal);
    assert!(!shows_scan_progress(&UiMode::Normal));
    assert_eq!(on_resize(UiMode::Normal, 20, 40, true), UiMode::ScreenTooSmall);
    assert_eq!(on_resize(UiMode::ScreenTooSmall, 120, 40, true), UiMode::Normal);
    assert_eq!(on_resize(UiMode::ScreenTooSmall, 120, 40, false), UiMode::Loading);
    assert_eq!(on_resize(UiMode::DeleteFile("a".to_string()), 120, 40, true), UiMode::DeleteFile("a".to_string()));
}

fn shorten(text: &str, max_len: usize) -> String {
    truncate_middle(&text.chars().collect(), max_len).into_iter().collect()
}

#[test]
fn truncate_middle_cases() {
    assert_eq!(shorten("/scan/a", 20), "/scan/a");
    assert_eq!(shorten("/scan/some/long/path", 10), "/sc[..]ath");
    assert_eq!(shorten("/scan/some/long/path", 4), "/sc");
    assert_eq!(shorten("abc", 0), "");
}
