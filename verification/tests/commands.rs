use comparew::commands::diff::{summary_from, DiffStore, DIRTY_LINE_CAP};
use comparew::commands::excel::{row_matches, sheet_info, summary_from as excel_summary, ExcelStore};
use comparew::commands::file::{reject_if_too_large, MAX_FILE_BYTES};
use comparew::commands::folder::entry_is_text;
use comparew::align::{align_diff, DiffKind};
use comparew::excel::{align_grid, ExcelSheetStatus, Table};

#[test]
fn rejects_sizes_over_64_mib() {
    assert!(reject_if_too_large(MAX_FILE_BYTES).is_ok());
    assert_eq!(
        reject_if_too_large(MAX_FILE_BYTES + 1).unwrap_err(),
        "文件超过 64MB"
    );
}

#[test]
fn max_file_bytes_is_64_mib() {
    assert_eq!(MAX_FILE_BYTES, 67_108_864);
    assert!(reject_if_too_large(0).is_ok());
}

#[test]
fn diff_summary_lists_dirty_lines_of_each_side() {
    let result = align_diff("keep\ngone\nold\n", "keep\nnew\n");
    let summary = summary_from(&result.rows, &result.stats);
    assert_eq!(summary.row_count as usize, result.rows.len());
    assert_eq!(summary.stats, result.stats);
    assert_eq!(summary.dirty_left, vec![2, 3]);
    assert_eq!(summary.dirty_right, vec![2]);
}

#[test]
fn diff_summary_drops_dirty_lines_of_huge_results() {
    let left: String = (0..DIRTY_LINE_CAP + 1).map(|i| format!("{i}\n")).collect();
    let result = align_diff(&left, "");
    assert_eq!(result.rows.len(), DIRTY_LINE_CAP + 1);
    let summary = summary_from(&result.rows, &result.stats);
    assert!(summary.dirty_left.is_empty());
    assert!(summary.dirty_right.is_empty());
    assert_eq!(summary.row_count as usize, DIRTY_LINE_CAP + 1);
}

#[test]
fn diff_store_pages_with_clamped_limit() {
    let mut store = DiffStore::default();
    let summary = store.compare_texts("a\nb\nc\n", "a\nx\nc\n");
    assert_eq!(summary.row_count, 3);
    assert_eq!(summary.stats.equal, 2);
    let page = store.get_diff_rows("all", 1, 0);
    assert_eq!(page.total, 3);
    assert_eq!(page.offset, 1);
    assert_eq!(page.rows.len(), 1);
    assert_eq!(page.rows[0].kind, DiffKind::Replace);
    let diff = store.get_diff_rows("diff", 0, 1000);
    assert_eq!(diff.total, 1);
    assert_eq!(diff.rows.len(), 1);
}

fn table(rows: &[&[&str]]) -> Table {
    rows.iter()
        .map(|row| row.iter().map(|cell| cell.to_string()).collect())
        .collect()
}

#[test]
fn excel_summary_counts_dirty_sheets_and_cells() {
    let a = table(&[&["1", "2"], &["3", "4"]]);
    let b = table(&[&["1", "x"], &["3", "y"]]);
    let s1 = align_grid("One".into(), Some(&a), Some(&b)).unwrap();
    let s2 = align_grid("Two".into(), Some(&a), Some(&a)).unwrap();
    let sheets = vec![s1, s2];
    let summary = excel_summary(&sheets);
    assert_eq!(summary.changed_cells, 2);
    assert_eq!(summary.dirty_sheets, 1);
    assert_eq!(summary.sheets.len(), 2);
    assert_eq!(summary.sheets[0].name, "One");
    assert_eq!(summary.sheets[0].height, 2);
    assert_eq!(summary.sheets[0].dirty_rows, vec![0, 1]);
    assert_eq!(summary.sheets[1].status, ExcelSheetStatus::Equal);
}

#[test]
fn sheet_info_caps_dirty_marks() {
    let left: Table = (0..5000).map(|i| vec![i.to_string()]).collect();
    let right: Table = (0..5000).map(|i| vec![format!("r{i}")]).collect();
    let sheet = align_grid("Many".into(), Some(&left), Some(&right)).unwrap();
    assert_eq!(sheet.dirty_rows.len(), 5000);
    let info = sheet_info(&sheet);
    assert!(info.dirty_rows.len() <= 4000);
    assert_eq!(info.dirty_rows.first().copied(), Some(0));
    assert_eq!(info.dirty_rows.last().copied(), Some(4999));
    assert_eq!(info.height, 5000);
}

#[test]
fn excel_rows_filter_by_dirty() {
    assert!(row_matches(true, "diff"));
    assert!(!row_matches(true, "same"));
    assert!(row_matches(false, "same"));
    assert!(row_matches(true, ""));
}

#[test]
fn excel_store_pages_rows_of_a_sheet() {
    let mut store = ExcelStore::default();
    let left = vec![("S".to_string(), table(&[&["a"], &["b"], &["c"]]))];
    let right = vec![("s".to_string(), table(&[&["a"], &["B"], &["c"]]))];
    let summary = store.compare_excel(left, right).unwrap();
    assert_eq!(summary.dirty_sheets, 1);
    let page = store.get_excel_rows(0, "same", 1, 500);
    assert_eq!(page.total, 2);
    assert_eq!(page.rows.len(), 1);
    assert_eq!(page.rows[0].cells[0].left, "c");
    assert_eq!(page.width, 1);
    let none = store.get_excel_rows(3, "all", 7, 10);
    assert_eq!(none.total, 0);
    assert_eq!(none.offset, 7);
    assert!(none.rows.is_empty());
}

#[test]
fn excel_store_keeps_sheets_when_a_sheet_is_too_large() {
    let mut store = ExcelStore::default();
    let ok = vec![("S".to_string(), table(&[&["a"]]))];
    store.compare_excel(ok, vec![]).unwrap();
    let big: Table = vec![vec!["v".to_string(); 1000]; 600];
    let err = store.compare_excel(vec![("Big".to_string(), big)], vec![]).unwrap_err();
    assert_eq!(err, "工作表过大：Big");
    assert_eq!(store.sheets.len(), 1);
    assert_eq!(store.sheets[0].name, "S");
}

#[test]
fn text_entries_by_name_and_bytes() {
    assert!(entry_is_text("a.xml", b"<ok/>"));
    assert!(!entry_is_text("A.class", b"text"));
    assert!(!entry_is_text("lib.jar", b"text"));
    assert!(entry_is_text("a.txt", &[0xff]));
    assert!(entry_is_text("notes.MD", b"nul\0inside"));
    assert!(!entry_is_text("data.bin", &[0xff]));
    assert!(entry_is_text("README", b"plain"));
    assert!(!entry_is_text("README", b"pl\0ain"));
}
