use comparew::align::{align_lines, char_spans, token_spans, DiffKind, TextSpan};
use comparew::edit::EditOp;
use comparew::excel::{sheet_from_rows, ExcelSheetStatus};
use comparew::folder::{FolderKind, FolderNode};
use comparew::scan::{add_entry, ZipEntry};

fn strings(items: &[&str]) -> Vec<String> {
    items.iter().map(|s| s.to_string()).collect()
}

fn spans(items: &[TextSpan]) -> Vec<(String, bool)> {
    items.iter().map(|s| (s.text.clone(), s.changed)).collect()
}

#[test]
fn lines_follow_the_given_script() {
    let old = strings(&["a\n", "b\n"]);
    let new = strings(&["a\n", "c\n"]);
    let ops = vec![
        EditOp::Equal { old_index: 0, new_index: 0, len: 1 },
        EditOp::Replace { old_index: 1, old_len: 1, new_index: 1, new_len: 1 },
    ];
    let result = align_lines(&ops, &old, &new);
    assert_eq!(result.rows.len(), 2);
    assert_eq!(result.rows[1].kind, DiffKind::Replace);
    assert_eq!(result.rows[1].left_text, "b");
    assert_eq!(result.rows[1].right_text, "c");
    assert_eq!(result.rows[1].left_line, Some(2));
    assert_eq!(result.stats.replace, 1);
}

#[test]
fn a_delete_then_insert_script_gives_one_row_per_line() {
    let old = strings(&["x\n", "y\n"]);
    let new = strings(&["x\n", "y\n"]);
    let ops = vec![
        EditOp::Delete { old_index: 0, old_len: 2, new_index: 0 },
        EditOp::Insert { old_index: 2, new_index: 0, new_len: 2 },
    ];
    let result = align_lines(&ops, &old, &new);
    let kinds: Vec<DiffKind> = result.rows.iter().map(|r| r.kind).collect();
    assert_eq!(
        kinds,
        vec![DiffKind::Delete, DiffKind::Delete, DiffKind::Insert, DiffKind::Insert]
    );
    assert_eq!(result.rows[2].right_line, Some(1));
    assert_eq!(result.stats.delete, 2);
    assert_eq!(result.stats.insert, 2);
}

#[test]
fn characters_refine_along_the_given_script() {
    let old: Vec<char> = "abc".chars().collect();
    let new: Vec<char> = "abd".chars().collect();
    let ops = vec![
        EditOp::Equal { old_index: 0, new_index: 0, len: 2 },
        EditOp::Replace { old_index: 2, old_len: 1, new_index: 2, new_len: 1 },
    ];
    let (l, r) = char_spans(&ops, &old, &new).unwrap();
    assert_eq!(spans(&l), vec![("ab".to_string(), false), ("c".to_string(), true)]);
    assert_eq!(spans(&r), vec![("ab".to_string(), false), ("d".to_string(), true)]);
}

#[test]
fn dissimilar_characters_are_not_refined() {
    let old: Vec<char> = "ab".chars().collect();
    let new: Vec<char> = "cd".chars().collect();
    let ops = vec![EditOp::Replace { old_index: 0, old_len: 2, new_index: 0, new_len: 2 }];
    assert!(char_spans(&ops, &old, &new).is_none());
}

#[test]
fn tokens_mark_along_the_given_script() {
    let left = strings(&["hello", " ", "world"]);
    let right = strings(&["hello", " ", "there"]);
    let ops = vec![
        EditOp::Equal { old_index: 0, new_index: 0, len: 2 },
        EditOp::Replace { old_index: 2, old_len: 1, new_index: 2, new_len: 1 },
    ];
    let (l, r) = token_spans(&ops, &left, &right);
    assert_eq!(spans(&l), vec![("hello ".to_string(), false), ("world".to_string(), true)]);
    assert_eq!(spans(&r), vec![("hello ".to_string(), false), ("there".to_string(), true)]);
}

#[test]
fn sheet_rows_follow_the_given_script() {
    let left = vec![strings(&["a"]), strings(&["b"])];
    let right = vec![strings(&["a"]), strings(&["c"])];
    let ops = vec![
        EditOp::Equal { old_index: 0, new_index: 0, len: 1 },
        EditOp::Replace { old_index: 1, old_len: 1, new_index: 1, new_len: 1 },
    ];
    let sheet = sheet_from_rows("S".into(), true, true, &ops, &left, &right, 1);
    assert_eq!(sheet.status, ExcelSheetStatus::Different);
    assert_eq!(sheet.dirty_rows, vec![1]);
    assert_eq!(sheet.changed_cells, 1);
    assert_eq!(sheet.rows[1].left_index, Some(2));
    assert_eq!(sheet.rows[1].cells[0].right, "c");
    let only = sheet_from_rows("T".into(), false, true, &vec![], &vec![], &vec![], 0);
    assert_eq!(only.status, ExcelSheetStatus::RightOnly);
    assert!(only.rows.is_empty());
}

fn entry(name: &str, is_dir: bool, data: Option<&[u8]>) -> ZipEntry {
    ZipEntry {
        name: name.to_string(),
        is_dir,
        stamp: Some((2020, 1, 1, 0, 0, 0)),
        data: data.map(|d| d.to_vec()),
    }
}

#[test]
fn entries_are_added_by_path() {
    let mut tree = FolderNode::dir();
    add_entry(&mut tree, entry("lib\\a.jar", false, Some(b"zip"))).unwrap();
    add_entry(&mut tree, entry("docs//", false, None)).unwrap();
    add_entry(&mut tree, entry("", false, None)).unwrap();
    let jar = tree.child("lib").unwrap().child("a.jar").unwrap();
    assert_eq!(jar.kind, FolderKind::Archive);
    assert_eq!(jar.size, Some(3));
    assert_eq!(jar.mtime, Some(1_577_836_800));
    assert_eq!(tree.child("docs").unwrap().kind, FolderKind::Dir);
    assert_eq!(tree.children.len(), 2);
    let err = add_entry(&mut tree, entry("b.txt", false, None)).unwrap_err();
    assert_eq!(err, "无法打开文件");
    assert!(tree.child("b.txt").is_none());
}
