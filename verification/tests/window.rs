use comparew::align::{align_diff, DiffKind};
use comparew::window::{cap_marks, dirty_lines, dirty_row_indexes, row_matches, window_rows};

#[test]
fn diff_filter_returns_only_inconsistent_rows() {
    let result = align_diff("keep\nold\n", "keep\nnew\n");
    let (window, total) = window_rows(&result.rows, "diff", 0, 20);
    assert_eq!(total, 1);
    assert_eq!(window.len(), 1);
    assert_eq!(window[0].kind, DiffKind::Replace);
}

#[test]
fn same_filter_returns_only_equal_rows() {
    let result = align_diff("keep\nold\n", "keep\nnew\n");
    let (window, total) = window_rows(&result.rows, "same", 0, 20);
    assert_eq!(total, 1);
    assert_eq!(window[0].kind, DiffKind::Equal);
    assert_eq!(window[0].left_text, "keep");
}

#[test]
fn window_offset_skips_filtered_rows() {
    let result = align_diff("a\nb\nc\n", "a\nb\nx\n");
    let (window, total) = window_rows(&result.rows, "all", 2, 1);
    assert_eq!(total, 3);
    assert_eq!(window.len(), 1);
    assert_eq!(window[0].left_text, "c");
}

#[test]
fn dirty_lines_skip_equal_and_gaps() {
    let result = align_diff("keep\ngone\n", "keep\n");
    let left = dirty_lines(&result.rows, true);
    let right = dirty_lines(&result.rows, false);
    assert_eq!(left, vec![2]);
    assert!(right.is_empty());
}

#[test]
fn dirty_row_indexes_skip_equal() {
    let result = align_diff("keep\nold\n", "keep\nnew\n");
    assert_eq!(dirty_row_indexes(&result.rows), vec![1]);
}

#[test]
fn cap_marks_keeps_ends() {
    let marks: Vec<u32> = (0..100).collect();
    let capped = cap_marks(marks, 5);
    assert_eq!(capped.first().copied(), Some(0));
    assert_eq!(capped.last().copied(), Some(99));
    assert!(capped.len() <= 5);
}

#[test]
fn cap_marks_spreads_samples_evenly() {
    let marks: Vec<u32> = (0..100).collect();
    assert_eq!(cap_marks(marks, 5), vec![0, 24, 49, 74, 99]);
    assert_eq!(cap_marks(vec![7, 8, 9], 1), vec![7]);
    assert_eq!(cap_marks(vec![7, 8, 9], 0), vec![7, 8, 9]);
    assert_eq!(cap_marks(vec![7, 8, 9], 3), vec![7, 8, 9]);
    assert_eq!(cap_marks(vec![5, 5, 5, 6], 3), vec![5, 6]);
}

#[test]
fn unknown_filter_keeps_every_row() {
    assert!(row_matches(DiffKind::Equal, "all"));
    assert!(row_matches(DiffKind::Insert, "anything"));
    assert!(row_matches(DiffKind::Equal, "same"));
    assert!(!row_matches(DiffKind::Equal, "diff"));
    assert!(!row_matches(DiffKind::Delete, "same"));
}

#[test]
fn window_past_the_end_is_empty() {
    let result = align_diff("a\nb\n", "a\nc\n");
    let (window, total) = window_rows(&result.rows, "all", 10, 5);
    assert_eq!(total, 2);
    assert!(window.is_empty());
}

#[test]
fn same_and_diff_filters_split_the_rows() {
    let result = align_diff("a\nb\nc\nd\n", "a\nx\nc\ny\nz\n");
    let (_, all) = window_rows(&result.rows, "all", 0, 100);
    let (_, same) = window_rows(&result.rows, "same", 0, 100);
    let (_, diff) = window_rows(&result.rows, "diff", 0, 100);
    assert_eq!(all, result.rows.len());
    assert_eq!(same + diff, all);
    assert_eq!(same, 2);
}
