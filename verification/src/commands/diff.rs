use vstd::prelude::*;

use crate::align::{
    align_diff, align_spec, count_kind, rows_view, split_lines, stats_spec, DiffKind, DiffRow, DiffStats, RowModel,
};
use crate::edit::common_picks;
use crate::text::{filter_of, window_of};
use crate::window::{
    dirty_lines, dirty_lines_spec, law_dirty_lines_are_changed_lines, matching_rows, side_line, window_rows,
};

verus! {

/// Above this many rows a summary carries no dirty line numbers.
pub const DIRTY_LINE_CAP: usize = 40000;

/// The rows of the last text comparison.
#[derive(Debug)]
pub struct DiffStore {
    pub rows: Vec<DiffRow>,
}

impl Default for DiffStore {
    fn default() -> (s: Self)
        ensures
            s.rows@.len() == 0,
    {
        DiffStore { rows: Vec::new() }
    }
}

/// What a text comparison reports at once: the counts by kind, the number of
/// rows and the line numbers of each side that differ.
#[derive(Debug)]
pub struct CompareSummary {
    pub stats: DiffStats,
    pub row_count: u32,
    pub dirty_left: Vec<u32>,
    pub dirty_right: Vec<u32>,
}

/// A page of rows of the last comparison.
#[derive(Debug)]
pub struct DiffWindow {
    pub rows: Vec<DiffRow>,
    pub total: u32,
    pub offset: u32,
}

/// The dirty line numbers of one side that a summary of `rows` carries:
/// none when there are more than [`DIRTY_LINE_CAP`] rows.
pub open spec fn summary_lines(rows: Seq<RowModel>, left_side: bool) -> Seq<u32> {
    if rows.len() <= DIRTY_LINE_CAP {
        dirty_lines_spec(rows, left_side)
    } else {
        seq![]
    }
}

/// `limit` brought into `1..=hi`.
pub open spec fn clamp_limit(limit: u32, hi: u32) -> u32 {
    if limit < 1 {
        1
    } else if limit > hi {
        hi
    } else {
        limit
    }
}

/// The summary of a comparison's rows and counts.
pub fn summary_from(rows: &Vec<DiffRow>, stats: &DiffStats) -> (s: CompareSummary)
    ensures
        s.stats == *stats,
        s.row_count == rows@.len() as u32,
        s.dirty_left@ == summary_lines(rows_view(rows@), true),
        s.dirty_right@ == summary_lines(rows_view(rows@), false),
        rows@.len() <= DIRTY_LINE_CAP ==> s.dirty_left@ == rows_view(rows@).filter(
            |r: RowModel| r.kind != DiffKind::Equal && side_line(r, true) is Some,
        ).map_values(|r: RowModel| side_line(r, true)->0),
        rows@.len() <= DIRTY_LINE_CAP ==> s.dirty_right@ == rows_view(rows@).filter(
            |r: RowModel| r.kind != DiffKind::Equal && side_line(r, false) is Some,
        ).map_values(|r: RowModel| side_line(r, false)->0),
{
    proof {
        law_dirty_lines_are_changed_lines(rows_view(rows@), true);
        law_dirty_lines_are_changed_lines(rows_view(rows@), false);
    }
    let include_dirty = rows.len() <= DIRTY_LINE_CAP;
    CompareSummary {
        stats: *stats,
        row_count: rows.len() as u32,
        dirty_left: if include_dirty {
            dirty_lines(rows, true)
        } else {
            Vec::new()
        },
        dirty_right: if include_dirty {
            dirty_lines(rows, false)
        } else {
            Vec::new()
        },
    }
}

impl DiffStore {
    /// Compares two texts, keeps their rows and returns the summary.
    pub fn compare_texts(&mut self, left: &str, right: &str) -> (s: CompareSummary)
        requires
            split_lines(left@).len() + split_lines(right@).len() <= u32::MAX,
        ensures
            rows_view(final(self).rows@) == align_spec(left@, right@),
            s.stats == stats_spec(align_spec(left@, right@)),
            s.row_count == align_spec(left@, right@).len() as u32,
            s.dirty_left@ == summary_lines(align_spec(left@, right@), true),
            s.dirty_right@ == summary_lines(align_spec(left@, right@), false),
            final(self).rows@.len() <= DIRTY_LINE_CAP ==> s.dirty_left@ == rows_view(final(self).rows@).filter(
            |r: RowModel| r.kind != DiffKind::Equal && side_line(r, true) is Some,
            ).map_values(|r: RowModel| side_line(r, true)->0),
            final(self).rows@.len() <= DIRTY_LINE_CAP ==> s.dirty_right@ == rows_view(final(self).rows@).filter(
            |r: RowModel| r.kind != DiffKind::Equal && side_line(r, false) is Some,
            ).map_values(|r: RowModel| side_line(r, false)->0),
            left@ == right@ ==> forall|i: int|
                0 <= i < final(self).rows@.len() ==> (#[trigger] final(self).rows@[i]).kind
                    == DiffKind::Equal,
            forall|is: Seq<int>, js: Seq<int>|
                #[trigger] common_picks(split_lines(left@), split_lines(right@), is, js) ==> is.len()
                    <= count_kind(rows_view(final(self).rows@), DiffKind::Equal),
            exists|is: Seq<int>, js: Seq<int>|
                #[trigger] common_picks(split_lines(left@), split_lines(right@), is, js) && is.len()
                    == count_kind(rows_view(final(self).rows@), DiffKind::Equal),
    {
        let result = align_diff(left, right);
        let summary = summary_from(&result.rows, &result.stats);
        self.rows = result.rows;
        summary
    }

    /// A page of the kept rows that pass `filter`: from `offset` on, at most
    /// `limit` of them with `limit` brought into `1..=300`, and the number of
    /// rows that pass.
    pub fn get_diff_rows(&self, filter: &str, offset: u32, limit: u32) -> (w: DiffWindow)
        ensures
            rows_view(w.rows@) == window_of(
                matching_rows(rows_view(self.rows@), filter_of(filter@)),
                offset as int,
                clamp_limit(limit, 300) as int,
            ),
            w.total == matching_rows(rows_view(self.rows@), filter_of(filter@)).len() as u32,
            w.offset == offset,
    {
        let limit: u32 = if limit < 1 {
            1
        } else if limit > 300 {
            300
        } else {
            limit
        };
        let (rows, total) = window_rows(&self.rows, filter, offset as usize, limit as usize);
        DiffWindow { rows, total: total as u32, offset }
    }
}

} // verus!
