use comparew::align::{align_diff, DiffKind, DiffResult, DiffStats, TextSpan};

fn changed_text(spans: &[TextSpan]) -> String {
    spans
        .iter()
        .filter(|span| span.changed)
        .map(|span| span.text.as_str())
        .collect()
}

fn equal_text(spans: &[TextSpan]) -> String {
    spans
        .iter()
        .filter(|span| !span.changed)
        .map(|span| span.text.as_str())
        .collect()
}

#[test]
fn empty_inputs_yield_empty_result() {
    let result = align_diff("", "");
    assert_eq!(
        result,
        DiffResult {
            rows: vec![],
            stats: DiffStats {
                equal: 0,
                insert: 0,
                delete: 0,
                replace: 0
            }
        }
    );
}

#[test]
fn identical_texts_are_equal_rows() {
    let result = align_diff("hello\nworld\n", "hello\nworld\n");
    assert_eq!(result.rows.len(), 2);
    assert_eq!(result.rows[0].kind, DiffKind::Equal);
    assert_eq!(result.rows[0].left_line, Some(1));
    assert_eq!(result.rows[0].right_line, Some(1));
    assert_eq!(result.rows[0].left_text, "hello");
    assert_eq!(result.rows[1].left_line, Some(2));
    assert_eq!(result.stats.equal, 2);
}

#[test]
fn insertion_only_pads_the_left() {
    let result = align_diff("keep\n", "keep\nnew\n");
    assert_eq!(result.rows[1].kind, DiffKind::Insert);
    assert_eq!(result.rows[1].left_line, None);
    assert_eq!(result.rows[1].left_text, "");
    assert_eq!(result.rows[1].right_text, "new");
    assert_eq!(result.stats.insert, 1);
}

#[test]
fn deletion_only_pads_the_right() {
    let result = align_diff("keep\ngone\n", "keep\n");
    assert_eq!(result.rows[1].kind, DiffKind::Delete);
    assert_eq!(result.rows[1].right_line, None);
    assert_eq!(result.rows[1].right_text, "");
    assert_eq!(result.rows[1].left_text, "gone");
    assert_eq!(result.stats.delete, 1);
}

#[test]
fn replace_pads_the_shorter_side() {
    let result = align_diff("a\nb\n", "x\n");
    assert_eq!(result.rows.len(), 2);
    assert!(result.rows.iter().all(|row| row.kind == DiffKind::Replace));
    assert_eq!(result.rows[0].left_text, "a");
    assert_eq!(result.rows[0].right_text, "x");
    assert_eq!(result.rows[1].left_text, "b");
    assert_eq!(result.rows[1].right_line, None);
    assert_eq!(result.stats.replace, 2);
}

#[test]
fn replace_highlights_changed_words() {
    let result = align_diff("hello world\n", "hello there\n");
    let row = &result.rows[0];
    assert_eq!(row.kind, DiffKind::Replace);
    assert_eq!(equal_text(&row.left_spans), "hello ");
    assert_eq!(changed_text(&row.left_spans), "world");
    assert_eq!(equal_text(&row.right_spans), "hello ");
    assert_eq!(changed_text(&row.right_spans), "there");
}

#[test]
fn replace_highlights_changed_cjk() {
    let result = align_diff("你好世界\n", "你好朋友\n");
    let row = &result.rows[0];
    assert_eq!(changed_text(&row.left_spans), "世界");
    assert_eq!(changed_text(&row.right_spans), "朋友");
    assert_eq!(equal_text(&row.left_spans), "你好");
}

#[test]
fn replace_refines_similar_words() {
    let result = align_diff("hello1\n", "hello2\n");
    let row = &result.rows[0];
    assert_eq!(equal_text(&row.left_spans), "hello");
    assert_eq!(changed_text(&row.left_spans), "1");
    assert_eq!(changed_text(&row.right_spans), "2");
}

#[test]
fn delete_marks_whole_left_line() {
    let result = align_diff("keep\ngone\n", "keep\n");
    let row = &result.rows[1];
    assert!(row.left_spans.iter().all(|span| span.changed));
    assert_eq!(changed_text(&row.left_spans), "gone");
    assert!(row.right_spans.is_empty());
}

#[test]
fn equal_rows_have_no_spans() {
    let result = align_diff("hello\n", "hello\n");
    assert!(result.rows[0].left_spans.is_empty());
    assert!(result.rows[0].right_spans.is_empty());
}

#[test]
fn every_line_appears_once_in_order() {
    let left = "one\r\ntwo\nthree";
    let right = "zero\none\nthree\nfour\n";
    let result = align_diff(left, right);
    let lefts: Vec<(u32, String)> = result
        .rows
        .iter()
        .filter_map(|row| row.left_line.map(|n| (n, row.left_text.clone())))
        .collect();
    let rights: Vec<(u32, String)> = result
        .rows
        .iter()
        .filter_map(|row| row.right_line.map(|n| (n, row.right_text.clone())))
        .collect();
    assert_eq!(
        lefts,
        vec![(1, "one".to_string()), (2, "two".to_string()), (3, "three".to_string())]
    );
    assert_eq!(
        rights,
        vec![
            (1, "zero".to_string()),
            (2, "one".to_string()),
            (3, "three".to_string()),
            (4, "four".to_string())
        ]
    );
    let stats = result.stats;
    assert_eq!(
        (stats.equal + stats.insert + stats.delete + stats.replace) as usize,
        result.rows.len()
    );
}

#[test]
fn spans_spell_out_the_line() {
    let result = align_diff("alpha beta gamma\n", "alpha BETA gamma delta\n");
    for row in &result.rows {
        if row.kind != DiffKind::Equal {
            let left: String = row.left_spans.iter().map(|s| s.text.as_str()).collect();
            let right: String = row.right_spans.iter().map(|s| s.text.as_str()).collect();
            assert_eq!(left, row.left_text);
            assert_eq!(right, row.right_text);
        }
    }
}

#[test]
fn missing_final_newline_makes_the_last_line_differ() {
    let result = align_diff("a\nb", "a\nb\n");
    assert_eq!(result.rows.len(), 2);
    assert_eq!(result.rows[0].kind, DiffKind::Equal);
    assert_eq!(result.rows[1].kind, DiffKind::Replace);
    assert_eq!(result.rows[1].left_text, "b");
    assert_eq!(result.rows[1].right_text, "b");
}

#[test]
fn identical_texts_with_mixed_line_ends_are_all_equal() {
    let text = "a\r\nb\rc\n\nlast";
    let result = align_diff(text, text);
    assert_eq!(result.rows.len(), 5);
    assert!(result.rows.iter().all(|r| r.kind == DiffKind::Equal));
    assert_eq!(result.stats.equal, 5);
    assert_eq!(result.stats.replace + result.stats.insert + result.stats.delete, 0);
}

#[test]
fn equal_rows_are_a_longest_common_run() {
    let result = align_diff("a\nb\nx\nc\nd\n", "b\nc\ny\nd\na\n");
    assert_eq!(result.stats.equal, 3);
    let kept: Vec<&str> = result
        .rows
        .iter()
        .filter(|r| r.kind == DiffKind::Equal)
        .map(|r| r.left_text.as_str())
        .collect();
    assert_eq!(kept, vec!["b", "c", "d"]);
}
