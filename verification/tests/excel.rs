use comparew::excel::{align_grid, align_names, align_workbooks, ExcelSheetStatus, Table};

#[test]
fn names_match_case_insensitive() {
    let pairs = align_names(
        &["Sheet1".into(), "Data".into()],
        &["data".into(), "Extra".into()],
    );
    assert_eq!(
        pairs,
        vec![(Some(0), None), (Some(1), Some(0)), (None, Some(1))]
    );
}

#[test]
fn grid_marks_changed_cells() {
    let left = vec![vec!["a".into(), "b".into()]];
    let right = vec![vec!["a".into(), "c".into()]];
    let sheet = align_grid("S".into(), Some(&left), Some(&right)).unwrap();
    assert_eq!(sheet.status, ExcelSheetStatus::Different);
    assert!(!sheet.rows[0].cells[0].changed);
    assert!(sheet.rows[0].cells[1].changed);
    assert_eq!(sheet.dirty_rows, vec![0]);
    assert_eq!(sheet.changed_cells, 1);
}

#[test]
fn left_only_sheet_is_dirty() {
    let left = vec![vec!["x".into()]];
    let sheet = align_grid("Only".into(), Some(&left), None).unwrap();
    assert_eq!(sheet.status, ExcelSheetStatus::LeftOnly);
    assert!(sheet.rows[0].cells[0].changed);
    assert_eq!(sheet.rows[0].cells[0].right, "");
}

#[test]
fn identical_grids_are_equal() {
    let table = vec![vec!["1".into(), "2".into()]];
    let sheet = align_grid("S".into(), Some(&table), Some(&table)).unwrap();
    assert_eq!(sheet.status, ExcelSheetStatus::Equal);
    assert!(sheet.dirty_rows.is_empty());
}

#[test]
fn inserted_row_keeps_later_rows_aligned() {
    let left = vec![vec!["a".into()], vec!["b".into()], vec!["c".into()]];
    let right = vec![
        vec!["a".into()],
        vec!["x".into()],
        vec!["b".into()],
        vec!["c".into()],
    ];
    let sheet = align_grid("S".into(), Some(&left), Some(&right)).unwrap();
    assert_eq!(sheet.rows.len(), 4);
    assert!(!sheet.rows[0].dirty);
    assert!(sheet.rows[1].dirty);
    assert!(!sheet.rows[2].dirty);
    assert!(!sheet.rows[3].dirty);
    assert_eq!(sheet.rows[1].cells[0].left, "");
    assert_eq!(sheet.rows[1].cells[0].right, "x");
    assert_eq!(sheet.rows[2].cells[0].left, "b");
    assert_eq!(sheet.rows[2].cells[0].right, "b");
    assert_eq!(sheet.dirty_rows, vec![1]);
    assert_eq!(sheet.changed_cells, 1);
    assert_eq!(sheet.rows[0].left_index, Some(1));
    assert_eq!(sheet.rows[0].right_index, Some(1));
    assert_eq!(sheet.rows[1].left_index, None);
    assert_eq!(sheet.rows[1].right_index, Some(2));
    assert_eq!(sheet.rows[2].left_index, Some(2));
    assert_eq!(sheet.rows[2].right_index, Some(3));
    assert_eq!(sheet.rows[3].left_index, Some(3));
    assert_eq!(sheet.rows[3].right_index, Some(4));
}

#[test]
fn deleted_row_keeps_later_rows_aligned() {
    let left = vec![vec!["a".into()], vec!["x".into()], vec!["b".into()]];
    let right = vec![vec!["a".into()], vec!["b".into()]];
    let sheet = align_grid("S".into(), Some(&left), Some(&right)).unwrap();
    assert_eq!(sheet.rows.len(), 3);
    assert!(!sheet.rows[0].dirty);
    assert!(sheet.rows[1].dirty);
    assert!(!sheet.rows[2].dirty);
    assert_eq!(sheet.rows[1].cells[0].left, "x");
    assert_eq!(sheet.rows[1].cells[0].right, "");
    assert_eq!(sheet.rows[2].cells[0].left, "b");
    assert_eq!(sheet.rows[2].cells[0].right, "b");
    assert_eq!(sheet.dirty_rows, vec![1]);
    assert_eq!(sheet.rows[1].left_index, Some(2));
    assert_eq!(sheet.rows[1].right_index, None);
    assert_eq!(sheet.rows[2].left_index, Some(3));
    assert_eq!(sheet.rows[2].right_index, Some(2));
}

#[test]
fn changed_cell_stays_on_the_same_row() {
    let left = vec![vec!["a".into()], vec!["b".into()], vec!["c".into()]];
    let right = vec![vec!["a".into()], vec!["B".into()], vec!["c".into()]];
    let sheet = align_grid("S".into(), Some(&left), Some(&right)).unwrap();
    assert_eq!(sheet.rows.len(), 3);
    assert!(!sheet.rows[0].dirty);
    assert!(sheet.rows[1].dirty);
    assert!(!sheet.rows[2].dirty);
    assert_eq!(sheet.rows[1].left_index, Some(2));
    assert_eq!(sheet.rows[1].right_index, Some(2));
    assert!(sheet.rows[1].cells[0].changed);
    assert_eq!(sheet.changed_cells, 1);
}

#[test]
fn short_rows_are_padded_to_the_width() {
    let left = vec![vec!["a".into()], vec!["b".into(), "c".into(), "d".into()]];
    let right = vec![vec!["a".into(), "".into()], vec!["b".into(), "c".into(), "d".into()]];
    let sheet = align_grid("S".into(), Some(&left), Some(&right)).unwrap();
    assert_eq!(sheet.width, 3);
    assert_eq!(sheet.status, ExcelSheetStatus::Equal);
    assert_eq!(sheet.rows[0].cells.len(), 3);
}

#[test]
fn oversized_sheet_is_refused() {
    let row: Vec<String> = vec!["v".to_string(); 1000];
    let left: Table = vec![row.clone(); 300];
    let right: Table = vec![row; 300];
    let err = align_grid("Big".into(), Some(&left), Some(&right)).unwrap_err();
    assert_eq!(err, "工作表过大：Big");
}

#[test]
fn workbooks_pair_sheets_by_name() {
    let left = vec![
        ("Sheet1".to_string(), vec![vec!["1".to_string()]]),
        ("Data".to_string(), vec![vec!["x".to_string()]]),
    ];
    let right = vec![
        ("data".to_string(), vec![vec!["y".to_string()]]),
        ("Extra".to_string(), vec![]),
    ];
    let sheets = align_workbooks(left, right).unwrap();
    assert_eq!(sheets.len(), 3);
    assert_eq!(sheets[0].name, "Sheet1");
    assert_eq!(sheets[0].status, ExcelSheetStatus::LeftOnly);
    assert_eq!(sheets[1].name, "Data");
    assert_eq!(sheets[1].status, ExcelSheetStatus::Different);
    assert_eq!(sheets[2].name, "Extra");
    assert_eq!(sheets[2].status, ExcelSheetStatus::RightOnly);
}

#[test]
fn grids_equal_once_padded_are_equal() {
    let left: Table = vec![vec!["1".into(), "".into()], vec!["2".into(), "3".into()]];
    let right: Table = vec![vec!["1".into()], vec!["2".into(), "3".into()]];
    let sheet = align_grid("S".into(), Some(&left), Some(&right)).unwrap();
    assert_eq!(sheet.status, ExcelSheetStatus::Equal);
    assert!(sheet.dirty_rows.is_empty());
    assert_eq!(sheet.changed_cells, 0);
}

#[test]
fn clean_rows_are_a_longest_common_run() {
    let row = |v: &str| vec![v.to_string()];
    let left: Table = vec![row("a"), row("b"), row("x"), row("c")];
    let right: Table = vec![row("b"), row("y"), row("c"), row("a")];
    let sheet = align_grid("S".into(), Some(&left), Some(&right)).unwrap();
    assert_eq!(sheet.rows.len() - sheet.dirty_rows.len(), 2);
    assert_eq!(sheet.status, ExcelSheetStatus::Different);
}
