use comparew::folder::{
    align_children, compare_nodes, folder_row_matches, folder_summary_counts, format_path_bar,
    is_archive_name, is_class_name, is_text_name, window_folder_rows, FolderKind, FolderNode,
    FolderRow, FolderStatus,
};

fn hash(byte: u8) -> [u8; 32] {
    let mut value = [0u8; 32];
    value[0] = byte;
    value
}

#[test]
fn identical_files_are_equal() {
    let mut left = FolderNode::dir();
    let mut right = FolderNode::dir();
    left.insert_file("a.txt", FolderKind::File, hash(1), 3);
    right.insert_file("a.txt", FolderKind::File, hash(1), 3);
    let rows = align_children(&left.children, &right.children);
    assert_eq!(rows.len(), 1);
    assert_eq!(rows[0].status, FolderStatus::Equal);
    assert_eq!(rows[0].kind, FolderKind::File);
}

#[test]
fn left_only_and_right_only() {
    let mut left = FolderNode::dir();
    let mut right = FolderNode::dir();
    left.insert_file("old.txt", FolderKind::File, hash(1), 1);
    right.insert_file("new.txt", FolderKind::File, hash(2), 1);
    let rows = align_children(&left.children, &right.children);
    assert_eq!(rows[0].name, "new.txt");
    assert_eq!(rows[0].status, FolderStatus::RightOnly);
    assert_eq!(rows[1].name, "old.txt");
    assert_eq!(rows[1].status, FolderStatus::LeftOnly);
}

#[test]
fn different_hashes_are_different() {
    let mut left = FolderNode::dir();
    let mut right = FolderNode::dir();
    left.insert_file("a.txt", FolderKind::File, hash(1), 1);
    right.insert_file("a.txt", FolderKind::File, hash(2), 2);
    let rows = align_children(&left.children, &right.children);
    assert_eq!(rows[0].status, FolderStatus::Different);
    assert_eq!(rows[0].left_size, Some(1));
    assert_eq!(rows[0].right_size, Some(2));
}

#[test]
fn file_versus_directory_is_type_conflict() {
    let mut left = FolderNode::dir();
    let mut right = FolderNode::dir();
    left.insert_file("item", FolderKind::File, hash(1), 1);
    right.ensure_dir("item");
    let rows = align_children(&left.children, &right.children);
    assert_eq!(rows[0].status, FolderStatus::TypeConflict);
}

#[test]
fn directory_rollup_follows_children() {
    let mut left = FolderNode::dir();
    let mut right = FolderNode::dir();
    left.insert_file("dir/keep.txt", FolderKind::File, hash(1), 1);
    left.insert_file("dir/old.txt", FolderKind::File, hash(2), 1);
    right.insert_file("dir/keep.txt", FolderKind::File, hash(1), 1);
    let rows = align_children(&left.children, &right.children);
    assert_eq!(rows[0].name, "dir");
    assert_eq!(rows[0].kind, FolderKind::Dir);
    assert_eq!(rows[0].status, FolderStatus::Different);

    let mut same_l = FolderNode::dir();
    let mut same_r = FolderNode::dir();
    same_l.insert_file("dir/a.txt", FolderKind::File, hash(9), 1);
    same_r.insert_file("dir/a.txt", FolderKind::File, hash(9), 1);
    let same = align_children(&same_l.children, &same_r.children);
    assert_eq!(same[0].status, FolderStatus::Equal);
}

#[test]
fn empty_directories_are_equal() {
    let mut left = FolderNode::dir();
    let mut right = FolderNode::dir();
    left.ensure_dir("empty");
    right.ensure_dir("empty");
    let rows = align_children(&left.children, &right.children);
    assert_eq!(rows[0].status, FolderStatus::Equal);
    assert_eq!(rows[0].kind, FolderKind::Dir);
}

#[test]
fn nested_archive_compares_as_file_until_entered() {
    let mut left = FolderNode::dir();
    let mut right = FolderNode::dir();
    left.insert_file("lib/foo.jar", FolderKind::Archive, hash(4), 10);
    right.insert_file("lib/foo.jar", FolderKind::Archive, hash(4), 10);
    let rows = align_children(&left.children, &right.children);
    assert_eq!(rows[0].kind, FolderKind::Dir);
    assert_eq!(rows[0].status, FolderStatus::Equal);
    let inner = align_children(
        &left.child("lib").unwrap().children,
        &right.child("lib").unwrap().children,
    );
    assert_eq!(inner[0].kind, FolderKind::Archive);
    assert_eq!(inner[0].status, FolderStatus::Equal);

    right.children.clear();
    right.insert_file("lib/foo.jar", FolderKind::Archive, hash(5), 11);
    let dirty = align_children(
        &left.child("lib").unwrap().children,
        &right.child("lib").unwrap().children,
    );
    assert_eq!(dirty[0].status, FolderStatus::Different);
}

fn row(name: &str, status: FolderStatus, left: Option<u64>, right: Option<u64>) -> FolderRow {
    FolderRow {
        name: name.into(),
        kind: FolderKind::File,
        status,
        left_size: left,
        right_size: right,
        left_mtime: None,
        right_mtime: None,
    }
}

#[test]
fn diff_filter_window_skips_equal_rows() {
    let rows = vec![
        FolderRow {
            name: "a".into(),
            kind: FolderKind::File,
            status: FolderStatus::Equal,
            left_size: Some(1),
            right_size: Some(1),
            left_mtime: None,
            right_mtime: None,
        },
        FolderRow {
            name: "b".into(),
            kind: FolderKind::File,
            status: FolderStatus::Different,
            left_size: Some(1),
            right_size: Some(2),
            left_mtime: None,
            right_mtime: None,
        },
        FolderRow {
            name: "c".into(),
            kind: FolderKind::File,
            status: FolderStatus::LeftOnly,
            left_size: Some(1),
            right_size: None,
            left_mtime: None,
            right_mtime: None,
        },
    ];
    let (window, total) = window_folder_rows(&rows, "diff", 1, 1);
    assert_eq!(total, 2);
    assert_eq!(window.len(), 1);
    assert_eq!(window[0].name, "c");
}

#[test]
fn path_bar_joins_archives_with_bang() {
    let bar = format_path_bar(&[
        ("BOOT-INF".into(), false),
        ("lib".into(), false),
        ("foo.jar".into(), true),
    ]);
    assert_eq!(bar, "BOOT-INF/lib/foo.jar!/");
}

#[test]
fn summary_counts_add_up() {
    let rows = vec![
        row("a", FolderStatus::Equal, Some(1), Some(1)),
        row("b", FolderStatus::Different, Some(1), Some(2)),
        row("c", FolderStatus::RightOnly, None, Some(2)),
        row("d", FolderStatus::Equal, Some(3), Some(3)),
    ];
    assert_eq!(folder_summary_counts(&rows), (2, 2));
    assert_eq!(folder_summary_counts(&[]), (0, 0));
}

#[test]
fn same_filter_keeps_only_equal_rows() {
    assert!(folder_row_matches(FolderStatus::Equal, "same"));
    assert!(!folder_row_matches(FolderStatus::TypeConflict, "same"));
    assert!(folder_row_matches(FolderStatus::LeftOnly, "diff"));
    assert!(folder_row_matches(FolderStatus::Equal, "everything"));
}

#[test]
fn rows_come_out_in_name_order_once_each() {
    let mut left = FolderNode::dir();
    let mut right = FolderNode::dir();
    left.insert_file("b.txt", FolderKind::File, hash(1), 1);
    left.insert_file("a.txt", FolderKind::File, hash(1), 1);
    right.insert_file("c.txt", FolderKind::File, hash(1), 1);
    right.insert_file("a.txt", FolderKind::File, hash(1), 1);
    let rows = align_children(&left.children, &right.children);
    let names: Vec<&str> = rows.iter().map(|r| r.name.as_str()).collect();
    assert_eq!(names, vec!["a.txt", "b.txt", "c.txt"]);
}

#[test]
fn archive_and_directory_of_one_name_show_as_archive() {
    let mut left = FolderNode::dir();
    let mut right = FolderNode::dir();
    left.insert_file("x.jar", FolderKind::Archive, hash(1), 1);
    right.ensure_dir("x.jar");
    let rows = align_children(&left.children, &right.children);
    assert_eq!(rows[0].kind, FolderKind::Archive);
    assert_eq!(rows[0].status, FolderStatus::TypeConflict);
}

#[test]
fn insert_over_a_file_makes_a_directory() {
    let mut tree = FolderNode::dir();
    tree.insert_file("a", FolderKind::File, hash(1), 1);
    tree.insert_file("a/b.txt", FolderKind::File, hash(2), 2);
    let a = tree.child("a").unwrap();
    assert_eq!(a.kind, FolderKind::Dir);
    assert_eq!(a.child("b.txt").unwrap().size, Some(2));
    tree.insert_file("//", FolderKind::File, hash(3), 3);
    assert_eq!(tree.children.len(), 1);
}

#[test]
fn insert_child_replaces_an_entry() {
    let mut tree = FolderNode::dir();
    tree.insert_child("n".to_string(), FolderNode::file(FolderKind::File, hash(1), 1));
    tree.insert_child("n".to_string(), FolderNode::file(FolderKind::File, hash(2), 7).with_mtime(Some(5)));
    assert_eq!(tree.children.len(), 1);
    let n = tree.child("n").unwrap();
    assert_eq!(n.size, Some(7));
    assert_eq!(n.mtime, Some(5));
}

#[test]
fn compare_nodes_of_missing_sides() {
    let file = FolderNode::file(FolderKind::File, hash(1), 1);
    assert_eq!(compare_nodes(Some(&file), None), FolderStatus::LeftOnly);
    assert_eq!(compare_nodes(None, Some(&file)), FolderStatus::RightOnly);
    assert_eq!(compare_nodes(None, None), FolderStatus::Equal);
}

#[test]
fn name_classes_ignore_ascii_case() {
    assert!(is_archive_name("App.JAR"));
    assert!(is_archive_name("x.ear"));
    assert!(!is_archive_name("jar"));
    assert!(is_class_name("Hello.CLASS"));
    assert!(is_text_name("pom.XML"));
    assert!(is_text_name("build.gradle"));
    assert!(!is_text_name("image.png"));
}

#[test]
fn one_empty_side_lists_everything_as_one_sided() {
    let mut tree = FolderNode::dir();
    tree.insert_file("a.txt", FolderKind::File, hash(1), 4);
    tree.ensure_dir("d");
    let empty: Vec<(String, FolderNode)> = Vec::new();
    let rows = align_children(&tree.children, &empty);
    assert_eq!(rows.len(), 2);
    assert!(rows
        .iter()
        .all(|r| r.status == FolderStatus::LeftOnly && r.right_size.is_none() && r.right_mtime.is_none()));
    assert_eq!(rows[0].left_size, Some(4));
    let rows = align_children(&empty, &tree.children);
    assert!(rows.iter().all(|r| r.status == FolderStatus::RightOnly && r.left_size.is_none()));
}

#[test]
fn equal_count_matches_the_same_filter() {
    let rows = vec![
        row("a", FolderStatus::Equal, Some(1), Some(1)),
        row("b", FolderStatus::TypeConflict, Some(1), None),
        row("c", FolderStatus::Equal, Some(2), Some(2)),
    ];
    let (equal, different) = folder_summary_counts(&rows);
    let (_, same_total) = window_folder_rows(&rows, "same", 0, 10);
    let (_, diff_total) = window_folder_rows(&rows, "diff", 0, 10);
    let (_, all_total) = window_folder_rows(&rows, "all", 0, 10);
    assert_eq!(equal as usize, same_total);
    assert_eq!(different as usize, diff_total);
    assert_eq!(all_total, rows.len());
}

#[test]
fn making_folders_twice_changes_nothing() {
    let mut tree = FolderNode::dir();
    tree.insert_file("a/keep.txt", FolderKind::File, hash(1), 3);
    tree.ensure_dir("a/b/c");
    let once = format!("{:?}", tree);
    tree.ensure_dir("a/b/c");
    assert_eq!(format!("{:?}", tree), once);
    let c = tree.child("a").unwrap().child("b").unwrap().child("c").unwrap();
    assert_eq!(c.kind, FolderKind::Dir);
    assert!(tree.child("a").unwrap().child("keep.txt").is_some());
}
