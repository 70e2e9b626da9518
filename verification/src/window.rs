use vstd::prelude::*;

use crate::align::{rows_view, DiffKind, DiffRow, RowModel};
use crate::text::{filter_of, parse_filter, passes, window_of, RowFilter};

verus! {

/// Whether a row of `kind` passes the filter named `filter`.
pub fn row_matches(kind: DiffKind, filter: &str) -> (r: bool)
    ensures
        r == passes(filter_of(filter@), kind == DiffKind::Equal),
{
    let f = parse_filter(filter);
    match f {
        RowFilter::Same => kind == DiffKind::Equal,
        RowFilter::Diff => kind != DiffKind::Equal,
        RowFilter::All => true,
    }
}

/// The rows of `rows` that pass `filter`, in order.
pub open spec fn matching_rows(rows: Seq<RowModel>, filter: RowFilter) -> Seq<RowModel>
    decreases rows.len(),
{
    if rows.len() == 0 {
        seq![]
    } else {
        let p = matching_rows(rows.drop_last(), filter);
        if passes(filter, rows.last().kind == DiffKind::Equal) {
            p.push(rows.last())
        } else {
            p
        }
    }
}

/// The "all" filter shows every row, and the "same" and "diff" filters
/// split the rows between them.
pub proof fn law_filters_split_rows(rows: Seq<RowModel>)
    ensures
        matching_rows(rows, RowFilter::All) == rows,
        matching_rows(rows, RowFilter::Same).len() + matching_rows(rows, RowFilter::Diff).len()
            == rows.len(),
    decreases rows.len(),
{
    if rows.len() > 0 {
        law_filters_split_rows(rows.drop_last());
        assert(rows.drop_last().push(rows.last()) == rows);
    }
}

/// A window over the rows that pass `filter`: the rows from `offset` on, at
/// most `limit` of them, and the number of rows that pass.
pub fn window_rows(rows: &Vec<DiffRow>, filter: &str, offset: usize, limit: usize) -> (res: (
    Vec<DiffRow>,
    usize,
))
    ensures
        rows_view(res.0@) == window_of(
            matching_rows(rows_view(rows@), filter_of(filter@)),
            offset as int,
            limit as int,
        ),
        res.1 == matching_rows(rows_view(rows@), filter_of(filter@)).len(),
{
    let f = parse_filter(filter);
    let ghost rv = rows_view(rows@);
    let mut total: usize = 0;
    let mut window: Vec<DiffRow> = Vec::new();
    let mut i: usize = 0;
    while i < rows.len()
        invariant
            i <= rows@.len(),
            rv == rows_view(rows@),
            f == filter_of(filter@),
            total == matching_rows(rv.take(i as int), f).len(),
            total <= i,
            rows_view(window@) == window_of(matching_rows(rv.take(i as int), f), offset as int, limit as int),
        decreases rows@.len() - i,
    {
        let ghost before = matching_rows(rv.take(i as int), f);
        assert(rv.take(i + 1).drop_last() == rv.take(i as int));
        let keep = match f {
            RowFilter::Same => rows[i].kind == DiffKind::Equal,
            RowFilter::Diff => rows[i].kind != DiffKind::Equal,
            RowFilter::All => true,
        };
        if keep {
            if total >= offset && total - offset < limit {
                let c = rows[i].clone();
                assert(c@ == rv[i as int]);
                let ghost w0 = rows_view(window@);
                window.push(c);
                assert(rows_view(window@) == w0.push(rv[i as int]));
                assert(window_of(before, offset as int, limit as int) == before.subrange(offset as int, before.len() as int));
                assert(window_of(before.push(rv[i as int]), offset as int, limit as int) == before.push(rv[i as int]).subrange(offset as int, before.len() + 1 as int));
                assert(before.push(rv[i as int]).subrange(offset as int, before.len() + 1 as int) == before.subrange(offset as int, before.len() as int).push(rv[i as int]));
            } else {
                assert(window_of(before, offset as int, limit as int) == window_of(before.push(rv[i as int]), offset as int, limit as int));
            }
            total += 1;
        }
        i += 1;
    }
    assert(rv.take(rows@.len() as int) == rv);
    (window, total)
}

/// The line numbers of one side of the rows that are not equal, skipping
/// the rows where that side is a gap.
pub open spec fn dirty_lines_spec(rows: Seq<RowModel>, left_side: bool) -> Seq<u32>
    decreases rows.len(),
{
    if rows.len() == 0 {
        seq![]
    } else {
        let p = dirty_lines_spec(rows.drop_last(), left_side);
        let r = rows.last();
        let line = if left_side {
            r.left_line
        } else {
            r.right_line
        };
        if r.kind != DiffKind::Equal && line is Some {
            p.push(line->0)
        } else {
            p
        }
    }
}

/// The line number a row shows on one side.
pub open spec fn side_line(r: RowModel, left_side: bool) -> Option<u32> {
    if left_side {
        r.left_line
    } else {
        r.right_line
    }
}

/// The dirty lines of a side list every line that side shows in a row that
/// is not equal (deleted, inserted and replaced rows alike), and nothing
/// else.
pub proof fn law_dirty_lines_are_changed_lines(rows: Seq<RowModel>, left_side: bool)
    ensures
        forall|i: int|
            0 <= i < rows.len() && (#[trigger] rows[i]).kind != DiffKind::Equal && side_line(rows[i], left_side)
                is Some ==> dirty_lines_spec(rows, left_side).contains(side_line(rows[i], left_side)->0),
        dirty_lines_spec(rows, left_side) == rows.filter(
            |r: RowModel| r.kind != DiffKind::Equal && side_line(r, left_side) is Some,
        ).map_values(|r: RowModel| side_line(r, left_side)->0),
    decreases rows.len(),
{
    if rows.len() > 0 {
        let p = rows.drop_last();
        law_dirty_lines_are_changed_lines(p, left_side);
        let d = dirty_lines_spec(rows, left_side);
        let dp = dirty_lines_spec(p, left_side);
        assert forall|i: int|
            0 <= i < rows.len() && (#[trigger] rows[i]).kind != DiffKind::Equal && side_line(rows[i], left_side)
                is Some implies d.contains(side_line(rows[i], left_side)->0) by {
            if i < rows.len() - 1 {
                assert(p[i] == rows[i]);
                let k = choose|k: int| 0 <= k < dp.len() && dp[k] == side_line(rows[i], left_side)->0;
                assert(d[k] == dp[k]);
            } else {
                assert(d[d.len() - 1] == side_line(rows[i], left_side)->0);
            }
        }
        reveal_with_fuel(Seq::filter, 1);
        let f = |r: RowModel| r.kind != DiffKind::Equal && side_line(r, left_side) is Some;
        let g = |r: RowModel| side_line(r, left_side)->0;
        assert(rows.filter(f) == if f(rows.last()) {
            p.filter(f).push(rows.last())
        } else {
            p.filter(f)
        });
        assert(p.filter(f).push(rows.last()).map_values(g) =~= p.filter(f).map_values(g).push(g(rows.last())));
    }
}

pub fn dirty_lines(rows: &Vec<DiffRow>, left_side: bool) -> (lines: Vec<u32>)
    ensures
        lines@ == dirty_lines_spec(rows_view(rows@), left_side),
        forall|i: int|
            0 <= i < rows@.len() && (#[trigger] rows@[i]).kind != DiffKind::Equal && side_line(rows@[i]@, left_side)
                is Some ==> lines@.contains(side_line(rows@[i]@, left_side)->0),
        lines@ == rows_view(rows@).filter(
            |r: RowModel| r.kind != DiffKind::Equal && side_line(r, left_side) is Some,
        ).map_values(|r: RowModel| side_line(r, left_side)->0),
{
    let ghost rv = rows_view(rows@);
    let mut lines: Vec<u32> = Vec::new();
    let mut i: usize = 0;
    while i < rows.len()
        invariant
            i <= rows@.len(),
            rv == rows_view(rows@),
            lines@ == dirty_lines_spec(rv.take(i as int), left_side),
        decreases rows@.len() - i,
    {
        assert(rv.take(i + 1).drop_last() == rv.take(i as int));
        if rows[i].kind != DiffKind::Equal {
            let line = if left_side {
                rows[i].left_line
            } else {
                rows[i].right_line
            };
            if let Some(number) = line {
                lines.push(number);
            }
        }
        i += 1;
    }
    assert(rv.take(rows@.len() as int) == rv);
    proof {
        law_dirty_lines_are_changed_lines(rv, left_side);
        assert forall|i: int|
            0 <= i < rows@.len() && (#[trigger] rows@[i]).kind != DiffKind::Equal && side_line(rows@[i]@, left_side)
                is Some implies lines@.contains(side_line(rows@[i]@, left_side)->0) by {
            assert(rv[i] == rows@[i]@);
        }
    }
    lines
}

/// The positions (as `u32`) of the rows that are not equal.
pub open spec fn dirty_indexes_spec(rows: Seq<RowModel>) -> Seq<u32>
    decreases rows.len(),
{
    if rows.len() == 0 {
        seq![]
    } else {
        let p = dirty_indexes_spec(rows.drop_last());
        if rows.last().kind != DiffKind::Equal {
            p.push((rows.len() - 1) as u32)
        } else {
            p
        }
    }
}

pub fn dirty_row_indexes(rows: &Vec<DiffRow>) -> (indexes: Vec<u32>)
    ensures
        indexes@ == dirty_indexes_spec(rows_view(rows@)),
{
    let ghost rv = rows_view(rows@);
    let mut out: Vec<u32> = Vec::new();
    let mut i: usize = 0;
    while i < rows.len()
        invariant
            i <= rows@.len(),
            rv == rows_view(rows@),
            out@ == dirty_indexes_spec(rv.take(i as int)),
        decreases rows@.len() - i,
    {
        assert(rv.take(i + 1).drop_last() == rv.take(i as int));
        if rows[i].kind != DiffKind::Equal {
            out.push(i as u32);
        }
        i += 1;
    }
    assert(rv.take(rows@.len() as int) == rv);
    out
}

/// `s` with each run of equal neighbours kept once.
pub open spec fn dedup_adjacent(s: Seq<u32>) -> Seq<u32>
    decreases s.len(),
{
    if s.len() == 0 {
        seq![]
    } else {
        let d = dedup_adjacent(s.drop_last());
        if d.len() > 0 && d.last() == s.last() {
            d
        } else {
            d.push(s.last())
        }
    }
}

/// Position of sample `i` when `cap` samples are spread evenly over
/// positions `0..=last`.
pub open spec fn sample_index(i: int, last: int, cap: int) -> int {
    i * last / (cap - 1)
}

/// At most `cap` of `marks`: all of them when they fit (or `cap` is 0), the
/// first when `cap` is 1, otherwise `cap` evenly spread samples that start at
/// the first mark and end at the last, with repeated neighbours dropped.
pub open spec fn cap_marks_spec(marks: Seq<u32>, cap: int) -> Seq<u32> {
    if marks.len() <= cap || cap == 0 {
        marks
    } else if cap == 1 {
        seq![marks[0]]
    } else {
        let last = marks.len() - 1;
        dedup_adjacent(Seq::new(cap as nat, |i: int| marks[sample_index(i, last, cap)]))
    }
}

proof fn lemma_sample_index(i: int, last: int, cap: int)
    requires
        0 <= i < cap,
        cap >= 2,
        last >= 0,
    ensures
        0 <= sample_index(i, last, cap) <= last,
        i == 0 ==> sample_index(i, last, cap) == 0,
        i == cap - 1 ==> sample_index(i, last, cap) == last,
{
    assert(0 <= i * last <= (cap - 1) * last) by (nonlinear_arith)
        requires
            0 <= i < cap,
            last >= 0,
    ;
    assert(i * last / (cap - 1) <= last) by (nonlinear_arith)
        requires
            0 <= i * last <= (cap - 1) * last,
            cap >= 2,
    ;
    assert(0 <= i * last / (cap - 1)) by (nonlinear_arith)
        requires
            0 <= i * last,
            cap >= 2,
    ;
    if i == cap - 1 {
        assert((cap - 1) * last / (cap - 1) == last) by (nonlinear_arith)
            requires
                cap >= 2,
        ;
    }
}

proof fn lemma_dedup_bounds(s: Seq<u32>)
    ensures
        dedup_adjacent(s).len() <= s.len(),
        s.len() > 0 ==> dedup_adjacent(s).len() > 0 && dedup_adjacent(s).last() == s.last()
            && dedup_adjacent(s)[0] == s[0],
    decreases s.len(),
{
    if s.len() > 0 {
        lemma_dedup_bounds(s.drop_last());
        if s.len() == 1 {
            assert(dedup_adjacent(s.drop_last()) == Seq::<u32>::empty());
        }
    }
}

/// Thins a list of marks down to at most `cap` entries, keeping the first
/// and the last.
pub fn cap_marks(marks: Vec<u32>, cap: usize) -> (out: Vec<u32>)
    requires
        marks@.len() <= cap || cap <= 1 || (cap - 1) * (marks@.len() - 1) <= usize::MAX,
    ensures
        out@ == cap_marks_spec(marks@, cap as int),
        out@.len() <= marks@.len(),
        cap > 0 ==> out@.len() <= cap,
        marks@.len() > 0 ==> out@.len() > 0 && out@[0] == marks@[0],
        marks@.len() > 0 && cap > 1 ==> out@.last() == marks@.last(),
{
    if marks.len() <= cap || cap == 0 {
        return marks;
    }
    if cap == 1 {
        return vec![marks[0]];
    }
    let ghost m = marks@;
    let last = marks.len() - 1;
    let ghost samples = Seq::new(cap as nat, |i: int| m[sample_index(i, last as int, cap as int)]);
    let mut out: Vec<u32> = Vec::new();
    let mut i: usize = 0;
    while i < cap
        invariant
            i <= cap,
            cap >= 2,
            cap < m.len(),
            m == marks@,
            last == m.len() - 1,
            (cap - 1) * last <= usize::MAX,
            samples == Seq::new(cap as nat, |i: int| m[sample_index(i, last as int, cap as int)]),
            out@ == dedup_adjacent(samples.take(i as int)),
        decreases cap - i,
    {
        proof {
            lemma_sample_index(i as int, last as int, cap as int);
            assert(i * last <= (cap - 1) * last) by (nonlinear_arith)
                requires
                    i < cap,
            ;
            assert(samples.take(i + 1).drop_last() == samples.take(i as int));
        }
        let index = i * last / (cap - 1);
        let value = marks[index];
        let n = out.len();
        if n == 0 || out[n - 1] != value {
            out.push(value);
        }
        i += 1;
    }
    proof {
        assert(samples.take(cap as int) == samples);
        lemma_dedup_bounds(samples);
        lemma_sample_index(0, last as int, cap as int);
        lemma_sample_index(cap - 1, last as int, cap as int);
    }
    out
}

} // verus!
