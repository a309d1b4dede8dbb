use diskonaut::board::{delete_selected, finish_deletion, Board, DeleteError, Direction};
use diskonaut::ui::UiMode;
use diskonaut::tiles::Rect;
use diskonaut::tree::{ChildInfo, FileTree, FileType};

fn file(name: &str, size: u64) -> ChildInfo {
    ChildInfo { name: name.to_string(), size, file_type: FileType::File, num_descendants: 0 }
}

fn grid_board() -> Board {
    // four equal children in a square area lay out as a two by two grid
    let children = vec![file("a", 10), file("b", 10), file("c", 10), file("d", 10)];
    Board::new(children, Rect { x: 0, y: 0, width: 20, height: 20 })
}

fn selected_name(board: &Board) -> String {
    board.currently_selected().unwrap().name.clone()
}

#[test]
fn new_board_selects_first_tile() {
    let board = grid_board();
    assert_eq!(board.tiles.len(), 4);
    assert_eq!(board.selected_index, Some(0));
    assert_eq!(board.zoom_level, 0);
}

#[test]
fn right_then_left_returns() {
    let mut board = grid_board();
    let start = board.selected_index;
    board.move_selected(Direction::Right);
    assert_ne!(board.selected_index, start);
    board.move_selected(Direction::Left);
    assert_eq!(board.selected_index, start);
}

#[test]
fn move_prefers_aligned_tile() {
    let mut board = grid_board();
    let start = board.tiles[0].clone();
    board.move_selected(Direction::Right);
    let now = board.currently_selected().unwrap().clone();
    assert!(now.x > start.x);
    assert_eq!(now.y, start.y);
    board.move_selected(Direction::Down);
    let below = board.currently_selected().unwrap().clone();
    assert_eq!(below.x, now.x);
    assert!(below.y > now.y);
}

#[test]
fn move_without_candidate_keeps_selection() {
    let mut board = grid_board();
    board.move_selected(Direction::Left);
    assert_eq!(board.selected_index, Some(0));
    board.move_selected(Direction::Up);
    assert_eq!(board.selected_index, Some(0));
}

#[test]
fn zoom_steps_and_resets() {
    let mut board = grid_board();
    board.zoom_in();
    board.zoom_in();
    assert_eq!(board.zoom_level, 2);
    board.zoom_out();
    assert_eq!(board.zoom_level, 1);
    board.reset_zoom();
    assert_eq!(board.zoom_level, 0);
    board.zoom_out();
    assert_eq!(board.zoom_level, 0);
}

#[test]
fn selection_follows_name_across_rebuild() {
    let mut board = grid_board();
    board.move_selected(Direction::Right);
    let name = selected_name(&board);
    let before = board.selected_index;
    let mut files = board.files.clone();
    files.reverse();
    board.change_files(files);
    assert_eq!(selected_name(&board), name);
    assert_ne!(board.selected_index, before);
}

#[test]
fn empty_board_has_no_selection() {
    let mut board = Board::new(vec![], Rect { x: 0, y: 0, width: 10, height: 10 });
    assert_eq!(board.selected_index, None);
    assert!(board.currently_selected().is_none());
    let mut tree = FileTree::new("/scan".to_string());
    assert_eq!(delete_selected(&mut tree, &mut board), Err(DeleteError::NothingSelected));
}

#[test]
fn delete_selected_updates_tree_and_board() {
    let mut tree = FileTree::new("/scan".to_string());
    tree.add_entry(&vec!["a".to_string()], 100, FileType::File).unwrap();
    tree.add_entry(&vec!["b".to_string()], 50, FileType::File).unwrap();
    let mut board = Board::new(tree.current_children(), Rect { x: 0, y: 0, width: 30, height: 10 });
    assert_eq!(selected_name(&board), "a");
    assert_eq!(delete_selected(&mut tree, &mut board), Ok(100));
    assert_eq!(tree.get_total_size(), 50);
    assert_eq!(tree.space_freed, 100);
    assert_eq!(board.tiles.len(), 1);
    assert_eq!(selected_name(&board), "b");
}

#[test]
fn small_files_region_is_selectable() {
    let children: Vec<ChildInfo> = (0..50).map(|i| file(&format!("f{}", i), 10)).collect();
    let mut board = Board::new(children, Rect { x: 0, y: 0, width: 10, height: 4 });
    let placed = board.tiles.len();
    assert!(board.unrenderable_tile_coordinates.is_some());
    let (count, bytes) = board.small_files_summary();
    assert_eq!(count, 50 - placed);
    assert_eq!(bytes, 10 * count as u128);
    board.selected_index = Some(placed);
    assert!(board.small_files_selected());
    assert!(board.currently_selected().is_none());
    let mut tree = FileTree::new("/scan".to_string());
    assert_eq!(delete_selected(&mut tree, &mut board), Err(DeleteError::NothingSelected));
}

#[test]
fn move_reaches_small_files_region() {
    let mut children = vec![file("big", 1000)];
    for i in 0..20 {
        children.push(file(&format!("s{}", i), 1));
    }
    let mut board = Board::new(children, Rect { x: 0, y: 0, width: 40, height: 10 });
    assert_eq!(board.tiles.len(), 1);
    let small = board.unrenderable_tile_coordinates.expect("the tiny files are folded");
    assert!(small.x > board.tiles[0].x);
    board.move_selected(Direction::Right);
    assert!(board.small_files_selected());
    board.move_selected(Direction::Left);
    assert_eq!(board.selected_index, Some(0));
}

#[test]
fn relayout_without_tiles_selects_nothing() {
    let mut board = grid_board();
    assert!(board.selected_index.is_some());
    board.change_files(vec![file("z1", 0), file("z2", 0)]);
    assert!(board.tiles.is_empty());
    assert_eq!(board.selected_index, None);
    let board = Board::new(vec![file("z", 0)], Rect { x: 0, y: 0, width: 10, height: 10 });
    assert_eq!(board.selected_index, None);
}

#[test]
fn finish_deletion_paths() {
    let mut tree = FileTree::new("/scan".to_string());
    tree.add_entry(&vec!["a".to_string()], 100, FileType::File).unwrap();
    let mut board = Board::new(tree.current_children(), Rect { x: 0, y: 0, width: 30, height: 10 });
    let mode = finish_deletion(&mut tree, &mut board, Err("Failed to delete: denied".to_string()));
    assert_eq!(mode, UiMode::ErrorMessage("Failed to delete: denied".to_string()));
    assert_eq!(tree.get_total_size(), 100);
    let mode = finish_deletion(&mut tree, &mut board, Ok(()));
    assert_eq!(mode, UiMode::Normal);
    assert_eq!(tree.get_total_size(), 0);
    assert_eq!(tree.space_freed, 100);
    assert!(board.tiles.is_empty());
}
