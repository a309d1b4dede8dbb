use diskonaut::tree::{FileTree, FileType, TreeError};

fn path(parts: &[&str]) -> Vec<String> {
    parts.iter().map(|p| p.to_string()).collect()
}

fn scenario_tree() -> FileTree {
    let mut tree = FileTree::new("/scan".to_string());
    tree.add_entry(&path(&["a"]), 100, FileType::File).unwrap();
    tree.add_entry(&path(&["b"]), 0, FileType::Folder).unwrap();
    tree.add_entry(&path(&["b", "c"]), 50, FileType::File).unwrap();
    tree
}

#[test]
fn insert_scenario_totals() {
    let tree = scenario_tree();
    assert_eq!(tree.get_total_size(), 150);
    assert_eq!(tree.get_total_descendants(), 3);
}

#[test]
fn delete_scenario_totals() {
    let mut tree = scenario_tree();
    assert_eq!(tree.delete_entry(&path(&["b"])), Ok(50));
    assert_eq!(tree.get_total_size(), 100);
    assert_eq!(tree.get_total_descendants(), 1);
    assert_eq!(tree.space_freed, 50);
}

#[test]
fn duplicate_insert_changes_totals_once() {
    let mut once = FileTree::new("/scan".to_string());
    once.add_entry(&path(&["x", "y"]), 70, FileType::File).unwrap();
    let mut twice = FileTree::new("/scan".to_string());
    twice.add_entry(&path(&["x", "y"]), 70, FileType::File).unwrap();
    twice.add_entry(&path(&["x", "y"]), 70, FileType::File).unwrap();
    assert_eq!(once.get_total_size(), twice.get_total_size());
    assert_eq!(once.get_total_descendants(), twice.get_total_descendants());
    assert_eq!(twice.get_total_size(), 70);
    assert_eq!(twice.get_total_descendants(), 2);
}

#[test]
fn reinsert_updates_size_last_write_wins() {
    let mut tree = scenario_tree();
    tree.add_entry(&path(&["b", "c"]), 20, FileType::File).unwrap();
    assert_eq!(tree.get_total_size(), 120);
    assert_eq!(tree.get_total_descendants(), 3);
}

#[test]
fn insert_creates_missing_folders() {
    let mut tree = FileTree::new("/scan".to_string());
    tree.add_entry(&path(&["d", "e", "f"]), 9, FileType::File).unwrap();
    assert_eq!(tree.get_total_size(), 9);
    assert_eq!(tree.get_total_descendants(), 3);
    tree.enter_folder(&"d".to_string()).unwrap();
    let children = tree.current_children();
    assert_eq!(children.len(), 1);
    assert_eq!(children[0].name, "e");
    assert_eq!(children[0].size, 9);
    assert_eq!(children[0].num_descendants, 1);
    assert_eq!(children[0].file_type, FileType::Folder);
}

#[test]
fn insert_below_a_file_is_refused() {
    let mut tree = scenario_tree();
    assert_eq!(tree.add_entry(&path(&["a", "z"]), 5, FileType::File), Err(TreeError::NotAFolder));
    assert_eq!(tree.get_total_size(), 150);
    assert_eq!(tree.get_total_descendants(), 3);
}

#[test]
fn delete_missing_is_not_found() {
    let mut tree = scenario_tree();
    assert_eq!(tree.delete_entry(&path(&["nope"])), Err(TreeError::NotFound));
    assert_eq!(tree.delete_entry(&path(&[])), Err(TreeError::NotFound));
    assert_eq!(tree.get_total_size(), 150);
    assert_eq!(tree.space_freed, 0);
}

#[test]
fn enter_checks_kind() {
    let mut tree = scenario_tree();
    assert_eq!(tree.enter_folder(&"a".to_string()), Err(TreeError::NotAFolder));
    assert_eq!(tree.enter_folder(&"q".to_string()), Err(TreeError::NotFound));
    assert_eq!(tree.enter_folder(&"b".to_string()), Ok(()));
    assert_eq!(tree.current_path, path(&["b"]));
    assert_eq!(tree.current_folder_totals(), (50, 1));
    tree.leave_folder();
    assert!(tree.current_path.is_empty());
    tree.leave_folder();
    assert!(tree.current_path.is_empty());
}

#[test]
fn deleting_current_folder_moves_to_parent() {
    let mut tree = FileTree::new("/scan".to_string());
    tree.add_entry(&path(&["p", "q", "r"]), 4, FileType::File).unwrap();
    tree.enter_folder(&"p".to_string()).unwrap();
    tree.enter_folder(&"q".to_string()).unwrap();
    assert_eq!(tree.delete_entry(&path(&["p", "q"])), Ok(4));
    assert_eq!(tree.current_path, path(&["p"]));
    assert_eq!(tree.get_total_descendants(), 1);
    assert_eq!(tree.get_total_size(), 0);
}

#[test]
fn replacing_folder_on_current_path_truncates_it() {
    let mut tree = FileTree::new("/scan".to_string());
    tree.add_entry(&path(&["p", "q"]), 4, FileType::File).unwrap();
    tree.enter_folder(&"p".to_string()).unwrap();
    tree.add_entry(&path(&["p"]), 8, FileType::File).unwrap();
    assert!(tree.current_path.is_empty());
    assert_eq!(tree.get_total_size(), 8);
    assert_eq!(tree.get_total_descendants(), 1);
}

#[test]
fn failed_to_read_counts() {
    let mut tree = FileTree::new("/scan".to_string());
    tree.increment_failed_to_read();
    tree.increment_failed_to_read();
    assert_eq!(tree.failed_to_read, 2);
    let info = tree.base_folder_info();
    assert_eq!(info.path, "/scan");
    assert_eq!(info.size, 0);
}

#[test]
fn reinserting_a_folder_keeps_its_contents() {
    let mut tree = scenario_tree();
    tree.add_entry(&path(&["b"]), 0, FileType::Folder).unwrap();
    assert_eq!(tree.get_total_size(), 150);
    assert_eq!(tree.get_total_descendants(), 3);
    tree.enter_folder(&"b".to_string()).unwrap();
    assert_eq!(tree.current_children().len(), 1);
}

#[test]
fn folder_replaced_by_file_drops_its_contents() {
    let mut tree = scenario_tree();
    tree.add_entry(&path(&["b"]), 7, FileType::File).unwrap();
    assert_eq!(tree.get_total_size(), 107);
    assert_eq!(tree.get_total_descendants(), 2);
}
