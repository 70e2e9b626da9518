use vstd::prelude::*;

use crate::commands::diff::clamp_limit;
use crate::excel::{
    align_names_spec, align_workbooks, excel_rows_view, sheet_names, sheets_view, workbooks_spec,
    ExcelRow, ExcelRowView, ExcelSheet, ExcelSheetStatus, SheetView, Table,
};
use crate::text::{filter_of, parse_filter, passes, window_of, RowFilter};
use crate::window::{cap_marks, cap_marks_spec};

verus! {

/// At most this many dirty-row marks are sent for a sheet.
pub const DIFF_MARK_CAP: usize = 4000;

/// The sheets of the last workbook comparison.
#[derive(Debug)]
pub struct ExcelStore {
    pub sheets: Vec<ExcelSheet>,
}

impl Default for ExcelStore {
    fn default() -> (s: Self)
        ensures
            s.sheets@.len() == 0,
    {
        ExcelStore { sheets: Vec::new() }
    }
}

/// What the overview shows of one compared sheet.
#[derive(Debug)]
pub struct ExcelSheetInfo {
    pub name: String,
    pub status: ExcelSheetStatus,
    pub width: u32,
    pub height: u32,
    pub dirty_rows: Vec<u32>,
    pub changed_cells: u32,
}

pub struct SheetInfoView {
    pub name: Seq<char>,
    pub status: ExcelSheetStatus,
    pub width: u32,
    pub height: u32,
    pub dirty_rows: Seq<u32>,
    pub changed_cells: u32,
}

impl View for ExcelSheetInfo {
    type V = SheetInfoView;

    open spec fn view(&self) -> SheetInfoView {
        SheetInfoView {
            name: self.name@,
            status: self.status,
            width: self.width,
            height: self.height,
            dirty_rows: self.dirty_rows@,
            changed_cells: self.changed_cells,
        }
    }
}

pub open spec fn infos_view(s: Seq<ExcelSheetInfo>) -> Seq<SheetInfoView> {
    s.map_values(|x: ExcelSheetInfo| x@)
}

/// The overview of a workbook comparison.
#[derive(Debug)]
pub struct ExcelSummary {
    pub sheets: Vec<ExcelSheetInfo>,
    pub changed_cells: u32,
    pub dirty_sheets: u32,
}

/// A page of rows of one compared sheet.
#[derive(Debug)]
pub struct ExcelWindow {
    pub rows: Vec<ExcelRow>,
    pub total: u32,
    pub offset: u32,
    pub width: u32,
}

/// The overview entry of a sheet: its row count as height and at most
/// [`DIFF_MARK_CAP`] of its dirty-row marks.
pub open spec fn info_spec(s: SheetView) -> SheetInfoView {
    SheetInfoView {
        name: s.name,
        status: s.status,
        width: s.width,
        height: s.rows.len() as u32,
        dirty_rows: cap_marks_spec(s.dirty_rows, DIFF_MARK_CAP as int),
        changed_cells: s.changed_cells,
    }
}

/// `a + b` in `u32` arithmetic that wraps around.
pub open spec fn wrap_add(a: u32, b: u32) -> u32 {
    if a + b > u32::MAX {
        (a + b - 0x1_0000_0000) as u32
    } else {
        (a + b) as u32
    }
}

/// The changed cells of all sheets added up in `u32` arithmetic.
pub open spec fn changed_sum(s: Seq<SheetView>) -> u32
    decreases s.len(),
{
    if s.len() == 0 {
        0
    } else {
        wrap_add(changed_sum(s.drop_last()), s.last().changed_cells)
    }
}

/// Number of sheets that are not equal.
pub open spec fn count_dirty(s: Seq<SheetView>) -> nat
    decreases s.len(),
{
    if s.len() == 0 {
        0
    } else {
        count_dirty(s.drop_last()) + if s.last().status != ExcelSheetStatus::Equal {
            1nat
        } else {
            0nat
        }
    }
}

/// The dirty sheets are exactly the sheets whose status is not `Equal`:
/// a sheet on one side only counts as much as a differing one.
pub proof fn law_dirty_sheets_are_unequal(s: Seq<SheetView>)
    ensures
        count_dirty(s) == s.filter(|x: SheetView| x.status != ExcelSheetStatus::Equal).len(),
        (exists|i: int| 0 <= i < s.len() && (#[trigger] s[i]).status != ExcelSheetStatus::Equal) ==> count_dirty(s)
            > 0,
    decreases s.len(),
{
    reveal_with_fuel(Seq::filter, 1);
    if s.len() > 0 {
        law_dirty_sheets_are_unequal(s.drop_last());
        if exists|i: int| 0 <= i < s.len() && (#[trigger] s[i]).status != ExcelSheetStatus::Equal {
            let i = choose|i: int| 0 <= i < s.len() && (#[trigger] s[i]).status != ExcelSheetStatus::Equal;
            if i < s.len() - 1 {
                assert(s.drop_last()[i] == s[i]);
            }
        }
    }
}

proof fn lemma_count_dirty_bound(s: Seq<SheetView>)
    ensures
        count_dirty(s) <= s.len(),
    decreases s.len(),
{
    if s.len() > 0 {
        lemma_count_dirty_bound(s.drop_last());
    }
}

/// The dirty-row marks of a sheet can be thinned to [`DIFF_MARK_CAP`]
/// without overflowing the sample positions.
pub open spec fn marks_fit(marks: Seq<u32>) -> bool {
    marks.len() <= DIFF_MARK_CAP || (DIFF_MARK_CAP - 1) * (marks.len() - 1) <= usize::MAX
}

/// Every sheet's marks can be thinned.
pub open spec fn all_marks_fit(sheets: Seq<ExcelSheet>) -> bool {
    forall|i: int| 0 <= i < sheets.len() ==> marks_fit((#[trigger] sheets[i]).dirty_rows@)
}

fn copy_marks(marks: &Vec<u32>) -> (r: Vec<u32>)
    ensures
        r@ == marks@,
{
    let mut out: Vec<u32> = Vec::new();
    let mut i: usize = 0;
    while i < marks.len()
        invariant
            i <= marks@.len(),
            out@ == marks@.take(i as int),
        decreases marks@.len() - i,
    {
        out.push(marks[i]);
        assert(marks@.take(i + 1) == marks@.take(i as int).push(marks@[i as int]));
        i += 1;
    }
    assert(marks@.take(marks@.len() as int) == marks@);
    out
}

/// The overview entry of one sheet.
pub fn sheet_info(sheet: &ExcelSheet) -> (info: ExcelSheetInfo)
    requires
        marks_fit(sheet.dirty_rows@),
    ensures
        info@ == info_spec(sheet@),
{
    ExcelSheetInfo {
        name: sheet.name.clone(),
        status: sheet.status,
        width: sheet.width,
        height: sheet.rows.len() as u32,
        dirty_rows: cap_marks(copy_marks(&sheet.dirty_rows), DIFF_MARK_CAP),
        changed_cells: sheet.changed_cells,
    }
}

/// The overview of compared sheets: one entry per sheet, the changed cells of
/// all sheets added up (wrapping in `u32`), and how many sheets differ.
pub fn summary_from(sheets: &Vec<ExcelSheet>) -> (s: ExcelSummary)
    requires
        all_marks_fit(sheets@),
    ensures
        infos_view(s.sheets@) == sheets_view(sheets@).map_values(|v: SheetView| info_spec(v)),
        s.changed_cells == changed_sum(sheets_view(sheets@)),
        s.dirty_sheets == count_dirty(sheets_view(sheets@)) as u32,
        s.dirty_sheets == sheets_view(sheets@).filter(|x: SheetView| x.status != ExcelSheetStatus::Equal).len() as u32,
{
    proof {
        law_dirty_sheets_are_unequal(sheets_view(sheets@));
    }
    let ghost sv = sheets_view(sheets@);
    let mut infos: Vec<ExcelSheetInfo> = Vec::new();
    let mut changed: u32 = 0;
    let mut dirty: usize = 0;
    let mut i: usize = 0;
    while i < sheets.len()
        invariant
            i <= sheets@.len(),
            sv == sheets_view(sheets@),
            all_marks_fit(sheets@),
            infos_view(infos@) == sv.take(i as int).map_values(|v: SheetView| info_spec(v)),
            changed == changed_sum(sv.take(i as int)),
            dirty == count_dirty(sv.take(i as int)),
            dirty <= i,
        decreases sheets@.len() - i,
    {
        proof {
            assert(sv.take(i + 1).drop_last() == sv.take(i as int));
            lemma_count_dirty_bound(sv.take(i as int));
        }
        let info = sheet_info(&sheets[i]);
        let ghost before = infos@;
        infos.push(info);
        assert(infos_view(infos@) == infos_view(before).push(info@));
        assert(sv.take(i + 1).map_values(|v: SheetView| info_spec(v)) == sv.take(i as int).map_values(
            |v: SheetView| info_spec(v),
        ).push(info_spec(sv[i as int])));
        changed = changed.wrapping_add(sheets[i].changed_cells);
        if sheets[i].status != ExcelSheetStatus::Equal {
            dirty = dirty + 1;
        }
        i += 1;
    }
    assert(sv.take(sheets@.len() as int) == sv);
    ExcelSummary { sheets: infos, changed_cells: changed, dirty_sheets: dirty as u32 }
}

/// Whether a row that is `dirty` passes the filter named `filter`.
pub fn row_matches(dirty: bool, filter: &str) -> (r: bool)
    ensures
        r == passes(filter_of(filter@), !dirty),
{
    match parse_filter(filter) {
        RowFilter::Same => !dirty,
        RowFilter::Diff => dirty,
        RowFilter::All => true,
    }
}

/// The rows of `rows` that pass `filter`, in order.
pub open spec fn matching_excel_rows(rows: Seq<ExcelRowView>, filter: RowFilter) -> Seq<ExcelRowView>
    decreases rows.len(),
{
    if rows.len() == 0 {
        seq![]
    } else {
        let p = matching_excel_rows(rows.drop_last(), filter);
        if passes(filter, !rows.last().dirty) {
            p.push(rows.last())
        } else {
            p
        }
    }
}

impl ExcelStore {
    /// Compares two loaded workbooks; on success keeps the sheets and returns
    /// their overview, on failure keeps what was there.
    pub fn compare_excel(&mut self, left: Vec<(String, Table)>, right: Vec<(String, Table)>) -> (r: Result<
        ExcelSummary,
        String,
    >)
        ensures
            match workbooks_spec(
                left@,
                right@,
                align_names_spec(sheet_names(left@), sheet_names(right@)),
            ) {
                Ok(v) => r matches Ok(s) && sheets_view(final(self).sheets@) == v && infos_view(
                    s.sheets@,
                ) == v.map_values(|x: SheetView| info_spec(x)) && s.changed_cells == changed_sum(v)
                    && s.dirty_sheets == count_dirty(v) as u32,
                Err(m) => r matches Err(e) && e@ == m && final(self).sheets@ == old(self).sheets@,
            },
            r matches Ok(s) ==> s.dirty_sheets == sheets_view(final(self).sheets@).filter(
                |x: SheetView| x.status != ExcelSheetStatus::Equal,
            ).len() as u32,
    {
        let sheets = match align_workbooks(left, right) {
            Ok(s) => s,
            Err(e) => {
                return Err(e);
            },
        };
        assert forall|i: int| 0 <= i < sheets@.len() implies marks_fit(
            (#[trigger] sheets@[i]).dirty_rows@,
        ) by {
            let n = sheets@[i].dirty_rows@.len();
            assert(n <= 500000);
            assert((DIFF_MARK_CAP - 1) * (n - 1) <= usize::MAX) by (nonlinear_arith)
                requires
                    n <= 500000,
            ;
        }
        let summary = summary_from(&sheets);
        self.sheets = sheets;
        Ok(summary)
    }

    /// A page of the rows of sheet `sheet` that pass `filter`: from `offset`
    /// on, at most `limit` of them with `limit` brought into `1..=200`; an
    /// unknown sheet gives an empty page of width 0.
    pub fn get_excel_rows(&self, sheet: u32, filter: &str, offset: u32, limit: u32) -> (w: ExcelWindow)
        ensures
            w.offset == offset,
            sheet >= self.sheets@.len() ==> w.rows@.len() == 0 && w.total == 0 && w.width == 0,
            sheet < self.sheets@.len() ==> ({
                let cur = self.sheets@[sheet as int]@;
                let m = matching_excel_rows(cur.rows, filter_of(filter@));
                &&& excel_rows_view(w.rows@) == window_of(m, offset as int, clamp_limit(limit, 200) as int)
                &&& w.total == m.len() as u32
                &&& w.width == cur.width
            }),
    {
        if sheet as usize >= self.sheets.len() {
            return ExcelWindow { rows: Vec::new(), total: 0, offset, width: 0 };
        }
        let current = &self.sheets[sheet as usize];
        let limit: usize = if limit < 1 {
            1
        } else if limit > 200 {
            200
        } else {
            limit as usize
        };
        let off = offset as usize;
        let f = parse_filter(filter);
        let ghost rv = excel_rows_view(current.rows@);
        let mut total: usize = 0;
        let mut window: Vec<ExcelRow> = Vec::new();
        let mut i: usize = 0;
        while i < current.rows.len()
            invariant
                i <= current.rows@.len(),
                rv == excel_rows_view(current.rows@),
                f == filter_of(filter@),
                total == matching_excel_rows(rv.take(i as int), f).len(),
                total <= i,
                excel_rows_view(window@) == window_of(
                    matching_excel_rows(rv.take(i as int), f),
                    off as int,
                    limit as int,
                ),
            decreases current.rows@.len() - i,
        {
            let ghost before = matching_excel_rows(rv.take(i as int), f);
            assert(rv.take(i + 1).drop_last() == rv.take(i as int));
            let keep = match f {
                RowFilter::Same => !current.rows[i].dirty,
                RowFilter::Diff => current.rows[i].dirty,
                RowFilter::All => true,
            };
            if keep {
                if total >= off && total - off < limit {
                    let c = current.rows[i].clone();
                    assert(c@ == rv[i as int]);
                    let ghost w0 = excel_rows_view(window@);
                    window.push(c);
                    assert(excel_rows_view(window@) == w0.push(rv[i as int]));
                    assert(window_of(before, off as int, limit as int) == before.subrange(
                        off as int,
                        before.len() as int,
                    ));
                    assert(window_of(before.push(rv[i as int]), off as int, limit as int)
                        == before.push(rv[i as int]).subrange(off as int, before.len() + 1 as int));
                    assert(before.push(rv[i as int]).subrange(off as int, before.len() + 1 as int)
                        == before.subrange(off as int, before.len() as int).push(rv[i as int]));
                } else {
                    assert(window_of(before, off as int, limit as int) == window_of(
                        before.push(rv[i as int]),
                        off as int,
                        limit as int,
                    ));
                }
                total += 1;
            }
            i += 1;
        }
        assert(rv.take(current.rows@.len() as int) == rv);
        ExcelWindow { rows: window, total: total as u32, offset, width: current.width }
    }
}

} // verus!
