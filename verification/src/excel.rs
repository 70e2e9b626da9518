use vstd::prelude::*;

use similar::{capture_diff_slices, Algorithm, DiffOp};

use crate::align::{join, strings_view};
use crate::chars::char_vec;
use crate::edit::{
    all_equal_steps, common_picks, equal_item, equal_total, firsts, seconds, is_edit_script, keeps_most, lemma_pos_bounds, lemma_step_in_bounds, new_pos, old_pos, EditOp,
};
use crate::names::{ascii_lower, lower_char};

verus! {

/// Sheets with more cells than this are refused.
pub const MAX_SHEET_CELLS: usize = 500000;

/// How a sheet of the left workbook relates to the sheet of the same name
/// in the right one.
#[derive(Debug, Clone, Copy, PartialEq, Eq, Structural)]
pub enum ExcelSheetStatus {
    Equal,
    Different,
    LeftOnly,
    RightOnly,
}

/// One cell of an aligned row: the shown text of each side and whether they
/// differ.
#[derive(Debug, PartialEq, Eq)]
pub struct ExcelCell {
    pub left: String,
    pub right: String,
    pub changed: bool,
}

pub struct CellView {
    pub left: Seq<char>,
    pub right: Seq<char>,
    pub changed: bool,
}

impl View for ExcelCell {
    type V = CellView;

    open spec fn view(&self) -> CellView {
        CellView { left: self.left@, right: self.right@, changed: self.changed }
    }
}

impl Clone for ExcelCell {
    fn clone(&self) -> (r: Self)
        ensures
            r@ == self@,
    {
        ExcelCell { left: self.left.clone(), right: self.right.clone(), changed: self.changed }
    }
}

pub open spec fn cells_view(cells: Seq<ExcelCell>) -> Seq<CellView> {
    cells.map_values(|c: ExcelCell| c@)
}

/// One aligned row of a sheet: the 1-based row number on each side (none
/// for a gap), whether any cell differs, and its cells.
#[derive(Debug, PartialEq, Eq)]
pub struct ExcelRow {
    pub left_index: Option<u32>,
    pub right_index: Option<u32>,
    pub dirty: bool,
    pub cells: Vec<ExcelCell>,
}

pub struct ExcelRowView {
    pub left_index: Option<u32>,
    pub right_index: Option<u32>,
    pub dirty: bool,
    pub cells: Seq<CellView>,
}

impl View for ExcelRow {
    type V = ExcelRowView;

    open spec fn view(&self) -> ExcelRowView {
        ExcelRowView {
            left_index: self.left_index,
            right_index: self.right_index,
            dirty: self.dirty,
            cells: cells_view(self.cells@),
        }
    }
}

fn clone_cells(cells: &Vec<ExcelCell>) -> (r: Vec<ExcelCell>)
    ensures
        cells_view(r@) == cells_view(cells@),
{
    let mut out: Vec<ExcelCell> = Vec::new();
    let mut i: usize = 0;
    while i < cells.len()
        invariant
            i <= cells@.len(),
            cells_view(out@) == cells_view(cells@).take(i as int),
        decreases cells@.len() - i,
    {
        let c = cells[i].clone();
        let ghost o0 = out@;
        out.push(c);
        assert(cells_view(out@) == cells_view(o0).push(c@));
        assert(cells_view(out@) == cells_view(cells@).take(i + 1));
        i += 1;
    }
    assert(cells_view(cells@).take(cells@.len() as int) == cells_view(cells@));
    out
}

impl Clone for ExcelRow {
    fn clone(&self) -> (r: Self)
        ensures
            r@ == self@,
    {
        ExcelRow {
            left_index: self.left_index,
            right_index: self.right_index,
            dirty: self.dirty,
            cells: clone_cells(&self.cells),
        }
    }
}

pub open spec fn excel_rows_view(rows: Seq<ExcelRow>) -> Seq<ExcelRowView> {
    rows.map_values(|r: ExcelRow| r@)
}

/// A compared sheet: its name, status, width (the longest row of either
/// side), aligned rows, the positions of the dirty rows and the number of
/// changed cells.
#[derive(Debug, PartialEq, Eq)]
pub struct ExcelSheet {
    pub name: String,
    pub status: ExcelSheetStatus,
    pub width: u32,
    pub rows: Vec<ExcelRow>,
    pub dirty_rows: Vec<u32>,
    pub changed_cells: u32,
}

pub struct SheetView {
    pub name: Seq<char>,
    pub status: ExcelSheetStatus,
    pub width: u32,
    pub rows: Seq<ExcelRowView>,
    pub dirty_rows: Seq<u32>,
    pub changed_cells: u32,
}

impl View for ExcelSheet {
    type V = SheetView;

    open spec fn view(&self) -> SheetView {
        SheetView {
            name: self.name@,
            status: self.status,
            width: self.width,
            rows: excel_rows_view(self.rows@),
            dirty_rows: self.dirty_rows@,
            changed_cells: self.changed_cells,
        }
    }
}

pub open spec fn sheets_view(s: Seq<ExcelSheet>) -> Seq<SheetView> {
    s.map_values(|x: ExcelSheet| x@)
}

/// A sheet's cells as shown text, row by row.
pub type Table = Vec<Vec<String>>;

pub open spec fn table_view(t: Seq<Vec<String>>) -> Seq<Seq<Seq<char>>> {
    t.map_values(|row: Vec<String>| strings_view(row@))
}

/// The two names are equal once ASCII letters are folded to lower case.
pub open spec fn eq_ignore_case(a: Seq<char>, b: Seq<char>) -> bool {
    &&& a.len() == b.len()
    &&& forall|i: int| 0 <= i < a.len() ==> ascii_lower(#[trigger] a[i]) == ascii_lower(b[i])
}

fn eq_ignore_ascii_case(a: &str, b: &str) -> (r: bool)
    ensures
        r == eq_ignore_case(a@, b@),
{
    let x = char_vec(a);
    let y = char_vec(b);
    if x.len() != y.len() {
        return false;
    }
    let mut i: usize = 0;
    while i < x.len()
        invariant
            i <= x@.len(),
            x@.len() == y@.len(),
            x@ == a@,
            y@ == b@,
            forall|k: int| 0 <= k < i ==> ascii_lower(#[trigger] x@[k]) == ascii_lower(y@[k]),
        decreases x@.len() - i,
    {
        if lower_char(x[i]) != lower_char(y[i]) {
            assert(ascii_lower(x@[i as int]) != ascii_lower(y@[i as int]));
            return false;
        }
        i += 1;
    }
    true
}

/// The first right name from position `j` on that is not yet paired and
/// matches `name`.
pub open spec fn first_unused(name: Seq<char>, right: Seq<Seq<char>>, used: Seq<bool>, j: int) -> Option<int>
    decreases right.len() - j,
{
    if j < 0 || j >= right.len() {
        None
    } else if !used[j] && eq_ignore_case(right[j], name) {
        Some(j)
    } else {
        first_unused(name, right, used, j + 1)
    }
}

/// The pairs and the used right names after the first `k` left names have
/// each taken the first unused right name that matches.
pub open spec fn names_state(left: Seq<Seq<char>>, right: Seq<Seq<char>>, k: int) -> (
    Seq<(Option<usize>, Option<usize>)>,
    Seq<bool>,
)
    decreases k,
{
    if k <= 0 {
        (seq![], Seq::new(right.len(), |j: int| false))
    } else {
        let (p, u) = names_state(left, right, k - 1);
        match first_unused(left[k - 1], right, u, 0) {
            Some(j) => (p.push((Some((k - 1) as usize), Some(j as usize))), u.update(j, true)),
            None => (p.push((Some((k - 1) as usize), None)), u),
        }
    }
}

/// The right names left unpaired among the first `k`, in order.
pub open spec fn unpaired(used: Seq<bool>, k: int) -> Seq<(Option<usize>, Option<usize>)>
    decreases k,
{
    if k <= 0 {
        seq![]
    } else if !used[k - 1] {
        unpaired(used, k - 1).push((None, Some((k - 1) as usize)))
    } else {
        unpaired(used, k - 1)
    }
}

/// Sheet pairs: every left sheet in order, paired with the first unused
/// right sheet whose name matches ignoring ASCII case, then every right
/// sheet left unpaired.
pub open spec fn align_names_spec(left: Seq<Seq<char>>, right: Seq<Seq<char>>) -> Seq<
    (Option<usize>, Option<usize>),
> {
    let (p, u) = names_state(left, right, left.len() as int);
    p + unpaired(u, right.len() as int)
}

proof fn lemma_names_state_len(left: Seq<Seq<char>>, right: Seq<Seq<char>>, k: int)
    requires
        0 <= k <= left.len(),
    ensures
        names_state(left, right, k).0.len() == k,
        names_state(left, right, k).1.len() == right.len(),
    decreases k,
{
    if k > 0 {
        lemma_names_state_len(left, right, k - 1);
        lemma_first_unused_range(left[k - 1], right, names_state(left, right, k - 1).1, 0);
    }
}

proof fn lemma_first_unused_range(name: Seq<char>, right: Seq<Seq<char>>, used: Seq<bool>, j: int)
    ensures
        first_unused(name, right, used, j) matches Some(x) ==> j <= x < right.len(),
    decreases right.len() - j,
{
    if 0 <= j < right.len() {
        lemma_first_unused_range(name, right, used, j + 1);
    }
}

fn find_unused(name: &str, right: &[String], used: &Vec<bool>) -> (r: Option<usize>)
    requires
        used@.len() == right@.len(),
    ensures
        match first_unused(name@, strings_view(right@), used@, 0) {
            Some(j) => r == Some(j as usize),
            None => r is None,
        },
{
    let ghost rv = strings_view(right@);
    let mut j: usize = right.len();
    let mut found: Option<usize> = None;
    while j > 0
        invariant
            j <= right@.len(),
            used@.len() == right@.len(),
            rv == strings_view(right@),
            match first_unused(name@, rv, used@, j as int) {
                Some(x) => found == Some(x as usize),
                None => found is None,
            },
        decreases j,
    {
        j -= 1;
        if !used[j] && eq_ignore_ascii_case(right[j].as_str(), name) {
            found = Some(j);
        }
    }
    found
}

/// Pairs the sheets of two workbooks by name, ignoring ASCII case.
pub fn align_names(left: &[String], right: &[String]) -> (pairs: Vec<(Option<usize>, Option<usize>)>)
    ensures
        pairs@ == align_names_spec(strings_view(left@), strings_view(right@)),
{
    let ghost lv = strings_view(left@);
    let ghost rv = strings_view(right@);
    let mut used: Vec<bool> = Vec::new();
    let mut j: usize = 0;
    while j < right.len()
        invariant
            j <= right@.len(),
            used@ == Seq::new(j as nat, |x: int| false),
        decreases right@.len() - j,
    {
        used.push(false);
        j += 1;
    }
    let mut pairs: Vec<(Option<usize>, Option<usize>)> = Vec::new();
    let rlen = right.len();
    let mut i: usize = 0;
    while i < left.len()
        invariant
            i <= left@.len(),
            rlen == right@.len(),
            rv.len() == right@.len(),
            lv == strings_view(left@),
            rv == strings_view(right@),
            (pairs@, used@) == names_state(lv, rv, i as int),
        decreases left@.len() - i,
    {
        proof {
            lemma_names_state_len(lv, rv, i as int);
            lemma_first_unused_range(lv[i as int], rv, used@, 0);
        }
        let ghost p0 = pairs@;
        let ghost u0 = used@;
        assert(lv[i as int] == left@[i as int]@);
        assert(names_state(lv, rv, i as int) == (p0, u0));
        let name = left[i].as_str();
        assert(name@ == lv[i as int]);
        let found = find_unused(name, right, &used);
        match found {
            Some(k) => {
                assert(first_unused(lv[i as int], rv, u0, 0) is Some);
                used.set(k, true);
                pairs.push((Some(i), Some(k)));
                proof {
                    let j = first_unused(lv[i as int], rv, u0, 0)->0;
                    assert(0 <= j < rlen);
                    assert(j == k as int);
                    assert(used@ == u0.update(j, true));
                    assert(pairs@ == p0.push((Some(i), Some(j as usize))));
                    assert(names_state(lv, rv, i + 1) == (p0.push((Some(i), Some(j as usize))), u0.update(j, true)));
                }
            },
            None => {
                pairs.push((Some(i), None));
                assert(names_state(lv, rv, i + 1) == (p0.push((Some(i), None)), u0));
            },
        }
        i += 1;
    }
    proof {
        lemma_names_state_len(lv, rv, lv.len() as int);
    }
    let ghost head = pairs@;
    let mut k: usize = 0;
    while k < right.len()
        invariant
            k <= right@.len(),
            used@.len() == right@.len(),
            pairs@ == head + unpaired(used@, k as int),
        decreases right@.len() - k,
    {
        if !used[k] {
            pairs.push((None, Some(k)));
        }
        k += 1;
    }
    pairs
}

/// Sheet row diff engine result: the edit script between the rows of two
/// sheets.
pub uninterp spec fn row_diff(old: Seq<Seq<Seq<char>>>, new: Seq<Seq<Seq<char>>>) -> Seq<EditOp>;

/// Trusted: `similar::capture_diff_slices` with the Myers algorithm over
/// two lists of rows (rows compare cell by cell as strings), an edit script
/// between them; which script the engine picks is left to its name, but for
/// two equal lists every step is equal (the common prefix is matched
/// first), and the script is a shortest one (Myers splits at the middle
/// snake of an optimal path; compaction and replacing move and merge steps
/// without changing what they keep), so no common subsequence of the two
/// lists is longer than what its equal steps keep.
#[verifier::external_body]
fn diff_rows(old: &Vec<Vec<String>>, new: &Vec<Vec<String>>) -> (ops: Vec<EditOp>)
    ensures
        ops@ == row_diff(table_view(old@), table_view(new@)),
        is_edit_script(ops@, table_view(old@), table_view(new@)),
        table_view(old@) == table_view(new@) ==> all_equal_steps(ops@),
        keeps_most(ops@, table_view(old@), table_view(new@)),
{
    capture_diff_slices(Algorithm::Myers, old, new).iter().map(|op| match *op {
        DiffOp::Equal { old_index, new_index, len } => EditOp::Equal { old_index, new_index, len },
        DiffOp::Delete { old_index, old_len, new_index } => EditOp::Delete { old_index, old_len, new_index },
        DiffOp::Insert { old_index, new_index, new_len } => EditOp::Insert { old_index, new_index, new_len },
        DiffOp::Replace { old_index, old_len, new_index, new_len } => EditOp::Replace { old_index, old_len, new_index, new_len },
    }).collect()
}


/// The longest row of a table.
pub open spec fn max_width(rows: Seq<Seq<Seq<char>>>) -> int
    decreases rows.len(),
{
    if rows.len() == 0 {
        0
    } else {
        let m = max_width(rows.drop_last());
        if rows.last().len() > m {
            rows.last().len() as int
        } else {
            m
        }
    }
}

proof fn lemma_max_width(rows: Seq<Seq<Seq<char>>>)
    ensures
        max_width(rows) >= 0,
        forall|i: int| 0 <= i < rows.len() ==> (#[trigger] rows[i]).len() <= max_width(rows),
    decreases rows.len(),
{
    if rows.len() > 0 {
        lemma_max_width(rows.drop_last());
        assert forall|i: int| 0 <= i < rows.len() implies (#[trigger] rows[i]).len() <= max_width(rows) by {
            if i < rows.len() - 1 {
                assert(rows[i] == rows.drop_last()[i]);
            }
        }
    }
}

/// The width of the compared sheet: the longest row of either side.
pub open spec fn width_spec(l: Seq<Seq<Seq<char>>>, r: Seq<Seq<Seq<char>>>) -> int {
    let a = max_width(l);
    let b = max_width(r);
    if a >= b {
        a
    } else {
        b
    }
}

/// Cell `c` of a row (empty past its end, and for a missing row).
pub open spec fn cell_of(row: Option<Seq<Seq<char>>>, c: int) -> Seq<char> {
    match row {
        Some(r) => if 0 <= c < r.len() {
            r[c]
        } else {
            seq![]
        },
        None => seq![],
    }
}

/// Every row of a table widened to `w` cells with empty cells.
pub open spec fn padded(t: Seq<Seq<Seq<char>>>, w: int) -> Seq<Seq<Seq<char>>> {
    Seq::new(t.len(), |i: int| Seq::new(w as nat, |c: int| cell_of(Some(t[i]), c)))
}

/// The `w` cells of an aligned row; a cell is changed when a side is missing
/// or the two texts differ.
pub open spec fn row_cells(lo: Option<Seq<Seq<char>>>, ro: Option<Seq<Seq<char>>>, w: int) -> Seq<
    CellView,
> {
    Seq::new(
        w as nat,
        |c: int|
            CellView {
                left: cell_of(lo, c),
                right: cell_of(ro, c),
                changed: lo is None || ro is None || cell_of(lo, c) != cell_of(ro, c),
            },
    )
}

/// Number of changed cells.
pub open spec fn count_changed(cells: Seq<CellView>) -> nat
    decreases cells.len(),
{
    if cells.len() == 0 {
        0
    } else {
        count_changed(cells.drop_last()) + if cells.last().changed {
            1nat
        } else {
            0nat
        }
    }
}

proof fn lemma_count_changed_bound(cells: Seq<CellView>)
    ensures
        count_changed(cells) <= cells.len(),
    decreases cells.len(),
{
    if cells.len() > 0 {
        lemma_count_changed_bound(cells.drop_last());
    }
}

/// An aligned row; in a sheet without columns a row is dirty when a side is
/// missing.
pub open spec fn grid_row(
    li: Option<u32>,
    ri: Option<u32>,
    lo: Option<Seq<Seq<char>>>,
    ro: Option<Seq<Seq<char>>>,
    w: int,
) -> ExcelRowView {
    if w == 0 {
        ExcelRowView { left_index: li, right_index: ri, dirty: lo is None || ro is None, cells: seq![] }
    } else {
        let cells = row_cells(lo, ro, w);
        ExcelRowView { left_index: li, right_index: ri, dirty: count_changed(cells) > 0, cells }
    }
}

pub open spec fn line_no(start: int, i: int) -> u32 {
    (start + i + 1) as u32
}

/// The rows one row step produces: equal rows side by side, deleted rows
/// against a gap, inserted rows against a gap, replaced rows zipped with the
/// shorter side padded by gaps.
pub open spec fn op_grid_rows(op: EditOp, pl: Seq<Seq<Seq<char>>>, pr: Seq<Seq<Seq<char>>>, w: int) -> Seq<
    ExcelRowView,
> {
    match op {
        EditOp::Equal { old_index, new_index, len } => Seq::new(
            len as nat,
            |i: int|
                grid_row(
                    Some(line_no(old_index as int, i)),
                    Some(line_no(new_index as int, i)),
                    Some(pl[old_index + i]),
                    Some(pr[new_index + i]),
                    w,
                ),
        ),
        EditOp::Delete { old_index, old_len, .. } => Seq::new(
            old_len as nat,
            |i: int| grid_row(Some(line_no(old_index as int, i)), None, Some(pl[old_index + i]), None, w),
        ),
        EditOp::Insert { new_index, new_len, .. } => Seq::new(
            new_len as nat,
            |i: int| grid_row(None, Some(line_no(new_index as int, i)), None, Some(pr[new_index + i]), w),
        ),
        EditOp::Replace { old_index, old_len, new_index, new_len } => Seq::new(
            (if old_len >= new_len {
                old_len
            } else {
                new_len
            }) as nat,
            |i: int|
                grid_row(
                    if i < old_len {
                        Some(line_no(old_index as int, i))
                    } else {
                        None
                    },
                    if i < new_len {
                        Some(line_no(new_index as int, i))
                    } else {
                        None
                    },
                    if i < old_len {
                        Some(pl[old_index + i])
                    } else {
                        None
                    },
                    if i < new_len {
                        Some(pr[new_index + i])
                    } else {
                        None
                    },
                    w,
                ),
        ),
    }
}

pub open spec fn grid_rows(ops: Seq<EditOp>, pl: Seq<Seq<Seq<char>>>, pr: Seq<Seq<Seq<char>>>, w: int, k: int) -> Seq<
    ExcelRowView,
> {
    join(Seq::new(k as nat, |j: int| op_grid_rows(ops[j], pl, pr, w)))
}

/// A row whose cells are all unchanged has no changed cell.
proof fn lemma_count_changed_none(cells: Seq<CellView>)
    requires
        forall|c: int| 0 <= c < cells.len() ==> !(#[trigger] cells[c]).changed,
    ensures
        count_changed(cells) == 0,
    decreases cells.len(),
{
    if cells.len() > 0 {
        lemma_count_changed_none(cells.drop_last());
    }
}

/// Rows made from equal steps of an edit script are clean.
proof fn lemma_equal_steps_clean(ops: Seq<EditOp>, pl: Seq<Seq<Seq<char>>>, pr: Seq<Seq<Seq<char>>>, w: int, k: int)
    requires
        0 <= k <= ops.len(),
        w >= 0,
        is_edit_script(ops, pl, pr),
        all_equal_steps(ops),
    ensures
        forall|i: int| 0 <= i < grid_rows(ops, pl, pr, w, k).len() ==> !(#[trigger] grid_rows(ops, pl, pr, w, k)[i]).dirty,
    decreases k,
{
    if k > 0 {
        lemma_equal_steps_clean(ops, pl, pr, w, k - 1);
        lemma_join_new_rows(|j: int| op_grid_rows(ops[j], pl, pr, w), k - 1);
        let prev = grid_rows(ops, pl, pr, w, k - 1);
        let op = ops[k - 1];
        let run = op_grid_rows(op, pl, pr, w);
        assert(op is Equal);
        assert(grid_rows(ops, pl, pr, w, k) == prev + run);
        assert forall|i: int| 0 <= i < run.len() implies !(#[trigger] run[i]).dirty by {
            assert(equal_item(op, pl, pr, i));
            let x = pl[op.old_start() + i];
            assert(x == pr[op.new_start() + i]);
            if w > 0 {
                let cells = row_cells(Some(x), Some(x), w);
                assert forall|c: int| 0 <= c < cells.len() implies !(#[trigger] cells[c]).changed by {}
                lemma_count_changed_none(cells);
            }
        }
        assert forall|i: int| 0 <= i < grid_rows(ops, pl, pr, w, k).len() implies !(#[trigger] grid_rows(ops, pl, pr, w, k)[i]).dirty by {
            if i >= prev.len() {
                assert(grid_rows(ops, pl, pr, w, k)[i] == run[i - prev.len()]);
            } else {
                assert(grid_rows(ops, pl, pr, w, k)[i] == prev[i]);
            }
        }
    }
}

/// Number of rows that are not dirty.
pub open spec fn clean_count(rows: Seq<ExcelRowView>) -> nat
    decreases rows.len(),
{
    if rows.len() == 0 {
        0
    } else {
        clean_count(rows.drop_last()) + if rows.last().dirty {
            0nat
        } else {
            1nat
        }
    }
}

proof fn lemma_clean_split(rows: Seq<ExcelRowView>)
    ensures
        dirty_positions(rows).len() + clean_count(rows) == rows.len(),
    decreases rows.len(),
{
    if rows.len() > 0 {
        lemma_clean_split(rows.drop_last());
    }
}

proof fn lemma_clean_concat(a: Seq<ExcelRowView>, b: Seq<ExcelRowView>)
    ensures
        clean_count(a + b) == clean_count(a) + clean_count(b),
    decreases b.len(),
{
    if b.len() > 0 {
        lemma_clean_concat(a, b.drop_last());
        assert((a + b).drop_last() == a + b.drop_last());
    } else {
        assert(a + b == a);
    }
}

/// A changed cell makes the count of changed cells positive.
proof fn lemma_count_changed_pos(cells: Seq<CellView>, c: int)
    requires
        0 <= c < cells.len(),
        cells[c].changed,
    ensures
        count_changed(cells) > 0,
    decreases cells.len(),
{
    if c < cells.len() - 1 {
        lemma_count_changed_pos(cells.drop_last(), c);
    }
}

/// Row `i` of a step is clean exactly when it pairs an old row with a new
/// row and the two are equal.
proof fn lemma_clean_row(op: EditOp, pl: Seq<Seq<Seq<char>>>, pr: Seq<Seq<Seq<char>>>, w: int, i: int)
    requires
        0 <= i < op_grid_rows(op, pl, pr, w).len(),
        w >= 0,
        0 <= op.old_start(),
        0 <= op.new_start(),
        op.old_start() + op.old_count() <= pl.len(),
        op.new_start() + op.new_count() <= pr.len(),
        forall|x: int| 0 <= x < pl.len() ==> (#[trigger] pl[x]).len() == w,
        forall|x: int| 0 <= x < pr.len() ==> (#[trigger] pr[x]).len() == w,
        op is Equal ==> pl[op.old_start() + i] == pr[op.new_start() + i],
    ensures
        !op_grid_rows(op, pl, pr, w)[i].dirty <==> (i < op.old_count() && i < op.new_count() && pl[op.old_start()
            + i] == pr[op.new_start() + i]),
{
    let row = op_grid_rows(op, pl, pr, w)[i];
    let in_old = i < op.old_count();
    let in_new = i < op.new_count();
    if w > 0 {
        let lo = if in_old {
            Some(pl[op.old_start() + i])
        } else {
            None::<Seq<Seq<char>>>
        };
        let ro = if in_new {
            Some(pr[op.new_start() + i])
        } else {
            None::<Seq<Seq<char>>>
        };
        assert(row.cells == row_cells(lo, ro, w));
        if !(in_old && in_new) {
            lemma_count_changed_pos(row.cells, 0);
        } else {
            let x = pl[op.old_start() + i];
            let y = pr[op.new_start() + i];
            if x == y {
                assert forall|c: int| 0 <= c < row.cells.len() implies !(#[trigger] row.cells[c]).changed by {}
                lemma_count_changed_none(row.cells);
            } else {
                assert(exists|c: int| 0 <= c < w && x[c] != y[c]) by {
                    if forall|c: int| 0 <= c < w ==> x[c] == y[c] {
                        assert(x =~= y);
                    }
                }
                let c = choose|c: int| 0 <= c < w && x[c] != y[c];
                assert(row.cells[c].changed);
                lemma_count_changed_pos(row.cells, c);
            }
        }
    } else if in_old && in_new {
        assert(pl[op.old_start() + i] =~= pr[op.new_start() + i]);
    }
}

/// The positions of the clean rows among the first `n` rows of a step:
/// each pairs an old row with an equal new row.
pub open spec fn run_pairs(op: EditOp, pl: Seq<Seq<Seq<char>>>, pr: Seq<Seq<Seq<char>>>, n: int) -> Seq<(int, int)>
    decreases n,
{
    if n <= 0 {
        seq![]
    } else {
        let i = n - 1;
        run_pairs(op, pl, pr, n - 1) + if i < op.old_count() && i < op.new_count() && pl[op.old_start() + i]
            == pr[op.new_start() + i] {
            seq![(op.old_start() + i, op.new_start() + i)]
        } else {
            seq![]
        }
    }
}

/// The positions of the clean rows of the first `k` steps.
pub open spec fn clean_pairs(ops: Seq<EditOp>, pl: Seq<Seq<Seq<char>>>, pr: Seq<Seq<Seq<char>>>, w: int, k: int) -> Seq<
    (int, int),
>
    decreases k,
{
    if k <= 0 {
        seq![]
    } else {
        clean_pairs(ops, pl, pr, w, k - 1) + run_pairs(
            ops[k - 1],
            pl,
            pr,
            op_grid_rows(ops[k - 1], pl, pr, w).len() as int,
        )
    }
}

/// Position pairs that pick equal rows, both positions strictly rising,
/// all below `a` and `b`.
pub open spec fn rising_pairs(p: Seq<(int, int)>, pl: Seq<Seq<Seq<char>>>, pr: Seq<Seq<Seq<char>>>, a: int, b: int) -> bool {
    &&& forall|t: int|
        0 <= t < p.len() ==> 0 <= (#[trigger] p[t]).0 < a && 0 <= p[t].1 < b && a <= pl.len() && b
            <= pr.len() && pl[p[t].0] == pr[p[t].1]
    &&& forall|t: int, u: int| 0 <= t < u < p.len() ==> (#[trigger] p[t]).0 < (#[trigger] p[u]).0 && p[t].1 < p[u].1
}

proof fn lemma_run_pairs(op: EditOp, pl: Seq<Seq<Seq<char>>>, pr: Seq<Seq<Seq<char>>>, w: int, n: int)
    requires
        0 <= n <= op_grid_rows(op, pl, pr, w).len(),
        w >= 0,
        0 <= op.old_start(),
        0 <= op.new_start(),
        op.old_start() + op.old_count() <= pl.len(),
        op.new_start() + op.new_count() <= pr.len(),
        forall|x: int| 0 <= x < pl.len() ==> (#[trigger] pl[x]).len() == w,
        forall|x: int| 0 <= x < pr.len() ==> (#[trigger] pr[x]).len() == w,
        forall|i: int| 0 <= i < op.old_count() ==> #[trigger] equal_item(op, pl, pr, i),
    ensures
        run_pairs(op, pl, pr, n).len() == clean_count(op_grid_rows(op, pl, pr, w).take(n)),
        op is Equal ==> run_pairs(op, pl, pr, n).len() == n,
        forall|t: int|
            0 <= t < run_pairs(op, pl, pr, n).len() ==> op.old_start() <= (#[trigger] run_pairs(op, pl, pr, n)[t]).0
                < op.old_start() + op.old_count() && op.new_start() <= run_pairs(op, pl, pr, n)[t].1
                < op.new_start() + op.new_count() && run_pairs(op, pl, pr, n)[t].0 - op.old_start()
                == run_pairs(op, pl, pr, n)[t].1 - op.new_start() && run_pairs(op, pl, pr, n)[t].0 - op.old_start() < n
                && pl[run_pairs(op, pl, pr, n)[t].0] == pr[run_pairs(op, pl, pr, n)[t].1],
        forall|t: int, u: int|
            0 <= t < u < run_pairs(op, pl, pr, n).len() ==> (#[trigger] run_pairs(op, pl, pr, n)[t]).0 < (
            #[trigger] run_pairs(op, pl, pr, n)[u]).0,
    decreases n,
{
    if n > 0 {
        let i = n - 1;
        lemma_run_pairs(op, pl, pr, w, n - 1);
        let rows = op_grid_rows(op, pl, pr, w);
        assert(rows.take(n).drop_last() == rows.take(n - 1));
        assert(rows.take(n).last() == rows[i]);
        if op is Equal {
            assert(equal_item(op, pl, pr, i));
        }
        lemma_clean_row(op, pl, pr, w, i);
        let prev = run_pairs(op, pl, pr, n - 1);
        let cur = run_pairs(op, pl, pr, n);
        assert forall|t: int| 0 <= t < prev.len() implies cur[t] == prev[t] by {}
    }
}

/// The clean rows of the first `k` steps are the rows their position pairs
/// pick: equal rows, rising on both sides, at least one per item the equal
/// steps keep.
proof fn lemma_clean_pairs(ops: Seq<EditOp>, pl: Seq<Seq<Seq<char>>>, pr: Seq<Seq<Seq<char>>>, w: int, k: int)
    requires
        is_edit_script(ops, pl, pr),
        0 <= k <= ops.len(),
        w >= 0,
        forall|x: int| 0 <= x < pl.len() ==> (#[trigger] pl[x]).len() == w,
        forall|x: int| 0 <= x < pr.len() ==> (#[trigger] pr[x]).len() == w,
    ensures
        clean_pairs(ops, pl, pr, w, k).len() == clean_count(grid_rows(ops, pl, pr, w, k)),
        equal_total(ops, k) <= clean_pairs(ops, pl, pr, w, k).len(),
        rising_pairs(clean_pairs(ops, pl, pr, w, k), pl, pr, old_pos(ops, k), new_pos(ops, k)),
    decreases k,
{
    if k > 0 {
        let j = k - 1;
        lemma_clean_pairs(ops, pl, pr, w, j);
        lemma_step_in_bounds(ops, pl, pr, j);
        lemma_pos_bounds(ops, 0, j);
        let op = ops[j];
        let rows = op_grid_rows(op, pl, pr, w);
        let n = rows.len() as int;
        assert forall|i: int| 0 <= i < op.old_count() implies #[trigger] equal_item(op, pl, pr, i) by {
            assert(equal_item(ops[j], pl, pr, i));
        }
        lemma_run_pairs(op, pl, pr, w, n);
        assert(rows.take(n) == rows);
        lemma_join_new_rows(|m: int| op_grid_rows(ops[m], pl, pr, w), j);
        assert(grid_rows(ops, pl, pr, w, k) == grid_rows(ops, pl, pr, w, j) + rows);
        lemma_clean_concat(grid_rows(ops, pl, pr, w, j), rows);
        if op is Equal {
            assert(n == op.old_count());
        }
        let prev = clean_pairs(ops, pl, pr, w, j);
        let run = run_pairs(op, pl, pr, n);
        let all = clean_pairs(ops, pl, pr, w, k);
        assert(all == prev + run);
        assert forall|t: int| 0 <= t < all.len() implies 0 <= (#[trigger] all[t]).0 < old_pos(ops, k) && 0
            <= all[t].1 < new_pos(ops, k) && old_pos(ops, k) <= pl.len() && new_pos(ops, k) <= pr.len()
            && pl[all[t].0] == pr[all[t].1] by {
            if t < prev.len() {
                assert(all[t] == prev[t]);
            } else {
                assert(all[t] == run[t - prev.len()]);
            }
        }
        assert forall|t: int, u: int| 0 <= t < u < all.len() implies (#[trigger] all[t]).0 < (#[trigger] all[u]).0
            && all[t].1 < all[u].1 by {
            if u < prev.len() {
                assert(all[t] == prev[t] && all[u] == prev[u]);
            } else if t < prev.len() {
                assert(all[t] == prev[t] && all[u] == run[u - prev.len()]);
            } else {
                assert(all[t] == run[t - prev.len()] && all[u] == run[u - prev.len()]);
            }
        }
    }
}

/// Rising position pairs of equal rows pick a common subsequence.
proof fn lemma_pairs_pick(p: Seq<(int, int)>, pl: Seq<Seq<Seq<char>>>, pr: Seq<Seq<Seq<char>>>)
    requires
        rising_pairs(p, pl, pr, pl.len() as int, pr.len() as int),
    ensures
        common_picks(pl, pr, firsts(p), seconds(p)),
        firsts(p).len() == p.len(),
{
    let is = firsts(p);
    let js = seconds(p);
    assert forall|t: int| 0 <= t < is.len() implies 0 <= #[trigger] is[t] < pl.len() && 0 <= js[t] < pr.len()
        && pl[is[t]] == pr[js[t]] by {
        assert(is[t] == p[t].0 && js[t] == p[t].1);
    }
    assert forall|t: int, u: int| 0 <= t < u < is.len() implies #[trigger] is[t] < #[trigger] is[u] && js[t]
        < js[u] by {
        assert(is[t] == p[t].0 && js[t] == p[t].1);
        assert(is[u] == p[u].0 && js[u] == p[u].1);
    }
}

/// Without a dirty row there are no dirty positions.
proof fn lemma_dirty_positions_none(rows: Seq<ExcelRowView>)
    requires
        forall|i: int| 0 <= i < rows.len() ==> !(#[trigger] rows[i]).dirty,
    ensures
        dirty_positions(rows).len() == 0,
    decreases rows.len(),
{
    if rows.len() > 0 {
        lemma_dirty_positions_none(rows.drop_last());
    }
}

/// The positions of the dirty rows.
pub open spec fn dirty_positions(rows: Seq<ExcelRowView>) -> Seq<u32>
    decreases rows.len(),
{
    if rows.len() == 0 {
        seq![]
    } else if rows.last().dirty {
        dirty_positions(rows.drop_last()).push((rows.len() - 1) as u32)
    } else {
        dirty_positions(rows.drop_last())
    }
}

proof fn lemma_dirty_positions_len(rows: Seq<ExcelRowView>)
    ensures
        dirty_positions(rows).len() <= rows.len(),
    decreases rows.len(),
{
    if rows.len() > 0 {
        lemma_dirty_positions_len(rows.drop_last());
    }
}

/// Number of cells flagged as changed, row by row, counted by filtering.
pub open spec fn flagged_cells(rows: Seq<ExcelRowView>) -> nat
    decreases rows.len(),
{
    if rows.len() == 0 {
        0
    } else {
        flagged_cells(rows.drop_last()) + rows.last().cells.filter(|c: CellView| c.changed).len()
    }
}

/// The changed cells of a row are the cells flagged as changed, every one
/// of them.
pub proof fn law_row_changed_cells(cells: Seq<CellView>)
    ensures
        count_changed(cells) == cells.filter(|c: CellView| c.changed).len(),
    decreases cells.len(),
{
    reveal_with_fuel(Seq::filter, 1);
    if cells.len() > 0 {
        law_row_changed_cells(cells.drop_last());
    }
}

/// A sheet's changed cells are every cell flagged as changed, summed over
/// all its rows.
pub proof fn law_sheet_changed_cells(rows: Seq<ExcelRowView>)
    ensures
        changed_total(rows) == flagged_cells(rows),
    decreases rows.len(),
{
    if rows.len() > 0 {
        law_sheet_changed_cells(rows.drop_last());
        law_row_changed_cells(rows.last().cells);
    }
}

/// Number of changed cells over all rows.
pub open spec fn changed_total(rows: Seq<ExcelRowView>) -> nat
    decreases rows.len(),
{
    if rows.len() == 0 {
        0
    } else {
        changed_total(rows.drop_last()) + count_changed(rows.last().cells)
    }
}

pub open spec fn sheet_status(has_left: bool, has_right: bool, dirty: Seq<u32>) -> ExcelSheetStatus {
    if !has_left && has_right {
        ExcelSheetStatus::RightOnly
    } else if has_left && !has_right {
        ExcelSheetStatus::LeftOnly
    } else if dirty.len() == 0 {
        ExcelSheetStatus::Equal
    } else {
        ExcelSheetStatus::Different
    }
}

pub open spec fn too_large_message(name: Seq<char>) -> Seq<char> {
    "工作表过大："@ + name
}

/// The compared sheet named `name` from the tables (if any) of each side:
/// refused when `(left rows + right rows) * max(width, 1)` exceeds
/// [`MAX_SHEET_CELLS`]; otherwise the rows of every step of the row edit
/// script between the two tables, each widened to the sheet's width.
pub open spec fn grid_spec(
    name: Seq<char>,
    lo: Option<Seq<Seq<Seq<char>>>>,
    ro: Option<Seq<Seq<Seq<char>>>>,
) -> Result<SheetView, Seq<char>> {
    let l = match lo {
        Some(t) => t,
        None => seq![],
    };
    let r = match ro {
        Some(t) => t,
        None => seq![],
    };
    let w = width_spec(l, r);
    let w1 = if w >= 1 {
        w
    } else {
        1
    };
    if (l.len() + r.len()) * w1 > MAX_SHEET_CELLS {
        Err(too_large_message(name))
    } else {
        let pl = padded(l, w);
        let pr = padded(r, w);
        Ok(sheet_from_ops(name, lo is Some, ro is Some, row_diff(pl, pr), pl, pr, w))
    }
}

/// The compared sheet named `name` along the row edit script `ops` between
/// the widened rows `pl` and `pr`: the rows of every step of the script.
pub open spec fn sheet_from_ops(
    name: Seq<char>,
    has_left: bool,
    has_right: bool,
    ops: Seq<EditOp>,
    pl: Seq<Seq<Seq<char>>>,
    pr: Seq<Seq<Seq<char>>>,
    w: int,
) -> SheetView {
    let rows = grid_rows(ops, pl, pr, w, ops.len() as int);
    SheetView {
        name,
        status: sheet_status(has_left, has_right, dirty_positions(rows)),
        width: w as u32,
        rows,
        dirty_rows: dirty_positions(rows),
        changed_cells: changed_total(rows) as u32,
    }
}

pub open spec fn opt_table(t: Option<&Table>) -> Option<Seq<Seq<Seq<char>>>> {
    match t {
        Some(x) => Some(table_view(x@)),
        None => None,
    }
}

fn table_width(t: &Table) -> (w: usize)
    ensures
        w == max_width(table_view(t@)),
{
    let ghost tv = table_view(t@);
    let mut w: usize = 0;
    let mut i: usize = 0;
    while i < t.len()
        invariant
            i <= t@.len(),
            tv == table_view(t@),
            w == max_width(tv.take(i as int)),
        decreases t@.len() - i,
    {
        assert(tv.take(i + 1).drop_last() == tv.take(i as int));
        assert(tv[i as int].len() == t@[i as int]@.len());
        if t[i].len() > w {
            w = t[i].len();
        }
        i += 1;
    }
    assert(tv.take(t@.len() as int) == tv);
    w
}

fn padded_row(row: &Vec<String>, width: usize) -> (r: Vec<String>)
    ensures
        strings_view(r@) == Seq::new(width as nat, |c: int| cell_of(Some(strings_view(row@)), c)),
{
    let ghost target = Seq::new(width as nat, |c: int| cell_of(Some(strings_view(row@)), c));
    let mut out: Vec<String> = Vec::new();
    let mut c: usize = 0;
    while c < width
        invariant
            c <= width,
            target == Seq::new(width as nat, |c: int| cell_of(Some(strings_view(row@)), c)),
            strings_view(out@) == target.take(c as int),
        decreases width - c,
    {
        let cell = if c < row.len() {
            row[c].clone()
        } else {
            String::new()
        };
        let ghost o0 = out@;
        out.push(cell);
        assert(strings_view(out@) == strings_view(o0).push(cell@));
        assert(strings_view(out@) == target.take(c + 1));
        c += 1;
    }
    assert(target.take(width as int) == target);
    out
}

fn padded_table(t: &Table, width: usize) -> (r: Table)
    ensures
        table_view(r@) == padded(table_view(t@), width as int),
{
    let ghost target = padded(table_view(t@), width as int);
    let mut out: Table = Vec::new();
    let mut i: usize = 0;
    while i < t.len()
        invariant
            i <= t@.len(),
            target == padded(table_view(t@), width as int),
            table_view(out@) == target.take(i as int),
        decreases t@.len() - i,
    {
        let row = padded_row(&t[i], width);
        let ghost o0 = out@;
        out.push(row);
        assert(table_view(out@) == table_view(o0).push(strings_view(row@)));
        assert(strings_view(row@) == target[i as int]);
        assert(table_view(out@) == target.take(i + 1));
        i += 1;
    }
    assert(target.take(t@.len() as int) == target);
    out
}

fn pair_cells(left: Option<&Vec<String>>, right: Option<&Vec<String>>, width: usize) -> (res: (
    Vec<ExcelCell>,
    bool,
    u32,
))
    requires
        width <= u32::MAX,
    ensures
        ({
            let lo = match left {
                Some(r) => Some(strings_view(r@)),
                None => None,
            };
            let ro = match right {
                Some(r) => Some(strings_view(r@)),
                None => None,
            };
            let g = grid_row(None, None, lo, ro, width as int);
            &&& cells_view(res.0@) == g.cells
            &&& res.1 == g.dirty
            &&& res.2 == count_changed(g.cells)
        }),
{
    let ghost lo = match left {
        Some(r) => Some(strings_view(r@)),
        None => None,
    };
    let ghost ro = match right {
        Some(r) => Some(strings_view(r@)),
        None => None,
    };
    if width == 0 {
        let dirty = left.is_none() || right.is_none();
        assert(cells_view(Seq::<ExcelCell>::empty()) == Seq::<CellView>::empty());
        return (Vec::new(), dirty, 0);
    }
    let ghost target = row_cells(lo, ro, width as int);
    let mut cells: Vec<ExcelCell> = Vec::new();
    let mut dirty = false;
    let mut changed_cells: u32 = 0;
    let mut col: usize = 0;
    while col < width
        invariant
            col <= width <= u32::MAX,
            target == row_cells(lo, ro, width as int),
            lo == match left {
                Some(r) => Some(strings_view(r@)),
                None => None,
            },
            ro == match right {
                Some(r) => Some(strings_view(r@)),
                None => None,
            },
            cells_view(cells@) == target.take(col as int),
            changed_cells == count_changed(target.take(col as int)),
            changed_cells <= col,
            dirty == (changed_cells > 0),
        decreases width - col,
    {
        let left_value = match left {
            Some(row) => if col < row.len() {
                row[col].clone()
            } else {
                String::new()
            },
            None => String::new(),
        };
        let right_value = match right {
            Some(row) => if col < row.len() {
                row[col].clone()
            } else {
                String::new()
            },
            None => String::new(),
        };
        let changed = left.is_none() || right.is_none() || left_value != right_value;
        if changed {
            dirty = true;
            changed_cells += 1;
        }
        let cell = ExcelCell { left: left_value, right: right_value, changed };
        assert(cell@ == target[col as int]);
        let ghost c0 = cells@;
        cells.push(cell);
        assert(cells_view(cells@) == cells_view(c0).push(cell@));
        assert(target.take(col + 1).drop_last() == target.take(col as int));
        col += 1;
    }
    assert(target.take(width as int) == target);
    (cells, dirty, changed_cells)
}

proof fn lemma_join_new_rows(f: spec_fn(int) -> Seq<ExcelRowView>, k: int)
    requires
        k >= 0,
    ensures
        join(Seq::new((k + 1) as nat, f)) == join(Seq::new(k as nat, f)) + f(k),
{
    assert(Seq::new((k + 1) as nat, f).drop_last() == Seq::new(k as nat, f));
}

/// The state of a sheet being built: its rows, dirty row positions and
/// changed cell count.
struct GridAcc {
    rows: Vec<ExcelRow>,
    dirty_rows: Vec<u32>,
    changed_cells: u32,
}

spec fn acc_ok(acc: GridAcc, w: int) -> bool {
    let rv = excel_rows_view(acc.rows@);
    &&& acc.dirty_rows@ == dirty_positions(rv)
    &&& acc.changed_cells == changed_total(rv)
    &&& changed_total(rv) <= rv.len() * w
}

proof fn lemma_totals_push(rows: Seq<ExcelRowView>, r: ExcelRowView)
    ensures
        changed_total(rows.push(r)) == changed_total(rows) + count_changed(r.cells),
        dirty_positions(rows.push(r)) == if r.dirty {
            dirty_positions(rows).push(rows.len() as u32)
        } else {
            dirty_positions(rows)
        },
{
    assert(rows.push(r).drop_last() == rows);
}

fn push_grid_row(
    acc: &mut GridAcc,
    li: Option<u32>,
    ri: Option<u32>,
    left: Option<&Vec<String>>,
    right: Option<&Vec<String>>,
    width: usize,
)
    requires
        acc_ok(*old(acc), width as int),
        (old(acc).rows@.len() + 1) * width <= MAX_SHEET_CELLS,
        left matches Some(r) ==> r@.len() == width,
        right matches Some(r) ==> r@.len() == width,
    ensures
        acc_ok(*final(acc), width as int),
        excel_rows_view(final(acc).rows@) == excel_rows_view(old(acc).rows@).push(
            grid_row(
                li,
                ri,
                match left {
                    Some(r) => Some(strings_view(r@)),
                    None => None,
                },
                match right {
                    Some(r) => Some(strings_view(r@)),
                    None => None,
                },
                width as int,
            ),
        ),
{
    let ghost rv0 = excel_rows_view(acc.rows@);
    proof {
        assert(width <= u32::MAX) by (nonlinear_arith)
            requires
                (rv0.len() + 1) * width <= MAX_SHEET_CELLS,
        ;
    }
    let (cells, dirty, changed) = pair_cells(left, right, width);
    let n = acc.rows.len();
    proof {
        lemma_count_changed_bound(cells_view(cells@));
        assert(changed <= width);
        assert(changed_total(rv0) + changed <= (rv0.len() + 1) * width) by (nonlinear_arith)
            requires
                changed_total(rv0) <= rv0.len() * width,
                changed <= width,
        ;
    }
    acc.changed_cells = acc.changed_cells + changed;
    if dirty {
        acc.dirty_rows.push(n as u32);
    }
    let row = ExcelRow { left_index: li, right_index: ri, dirty, cells };
    acc.rows.push(row);
    proof {
        let rv = excel_rows_view(acc.rows@);
        assert(rv == rv0.push(row@));
        lemma_totals_push(rv0, row@);
        assert(changed_total(rv) <= rv.len() * width);
    }
}

fn line_number(start: usize, offset: usize) -> (n: u32)
    requires
        start + offset + 1 <= usize::MAX,
    ensures
        n == line_no(start as int, offset as int),
{
    (start + offset + 1) as u32
}

fn push_grid_op(
    acc: &mut GridAcc,
    op: EditOp,
    left_rows: &Table,
    right_rows: &Table,
    width: usize,
)
    requires
        acc_ok(*old(acc), width as int),
        0 <= op.old_start(),
        0 <= op.new_start(),
        op.old_start() + op.old_count() <= left_rows@.len(),
        op.new_start() + op.new_count() <= right_rows@.len(),
        (old(acc).rows@.len() + op.old_count() + op.new_count()) * width <= MAX_SHEET_CELLS,
        forall|i: int| 0 <= i < left_rows@.len() ==> (#[trigger] left_rows@[i])@.len() == width,
        forall|i: int| 0 <= i < right_rows@.len() ==> (#[trigger] right_rows@[i])@.len() == width,
    ensures
        acc_ok(*final(acc), width as int),
        excel_rows_view(final(acc).rows@) == excel_rows_view(old(acc).rows@) + op_grid_rows(
            op,
            table_view(left_rows@),
            table_view(right_rows@),
            width as int,
        ),
        final(acc).rows@.len() <= old(acc).rows@.len() + op.old_count() + op.new_count(),
{
    let ghost pl = table_view(left_rows@);
    let ghost pr = table_view(right_rows@);
    let ghost base = excel_rows_view(acc.rows@);
    let ghost run = op_grid_rows(op, pl, pr, width as int);
    let ghost n0 = acc.rows@.len();
    let count: usize = match op {
        EditOp::Equal { len, .. } => len,
        EditOp::Delete { old_len, .. } => old_len,
        EditOp::Insert { new_len, .. } => new_len,
        EditOp::Replace { old_len, new_len, .. } => if old_len >= new_len {
            old_len
        } else {
            new_len
        },
    };
    assert(base + run.take(0) == base);
    let llen = left_rows.len();
    let rlen = right_rows.len();
    let mut i: usize = 0;
    while i < count
        invariant
            i <= count,
            count == run.len(),
            llen == left_rows@.len(),
            rlen == right_rows@.len(),
            pl == table_view(left_rows@),
            pr == table_view(right_rows@),
            run == op_grid_rows(op, pl, pr, width as int),
            0 <= op.old_start(),
            0 <= op.new_start(),
            op.old_start() + op.old_count() <= left_rows@.len(),
            op.new_start() + op.new_count() <= right_rows@.len(),
            count <= op.old_count() + op.new_count(),
            (n0 + op.old_count() + op.new_count()) * width <= MAX_SHEET_CELLS,
            forall|j: int| 0 <= j < left_rows@.len() ==> (#[trigger] left_rows@[j])@.len() == width,
            forall|j: int| 0 <= j < right_rows@.len() ==> (#[trigger] right_rows@[j])@.len() == width,
            acc_ok(*acc, width as int),
            excel_rows_view(acc.rows@) == base + run.take(i as int),
            acc.rows@.len() == n0 + i,
        decreases count - i,
    {
        proof {
            assert((n0 + i + 1) * width <= (n0 + op.old_count() + op.new_count()) * width) by (nonlinear_arith)
                requires
                    i + 1 <= op.old_count() + op.new_count(),
            ;
        }
        match op {
            EditOp::Equal { old_index, new_index, .. } => {
                push_grid_row(
                    acc,
                    Some(line_number(old_index, i)),
                    Some(line_number(new_index, i)),
                    Some(&left_rows[old_index + i]),
                    Some(&right_rows[new_index + i]),
                    width,
                );
            },
            EditOp::Delete { old_index, .. } => {
                push_grid_row(
                    acc,
                    Some(line_number(old_index, i)),
                    None,
                    Some(&left_rows[old_index + i]),
                    None,
                    width,
                );
            },
            EditOp::Insert { new_index, .. } => {
                push_grid_row(
                    acc,
                    None,
                    Some(line_number(new_index, i)),
                    None,
                    Some(&right_rows[new_index + i]),
                    width,
                );
            },
            EditOp::Replace { old_index, old_len, new_index, new_len } => {
                let li = if i < old_len {
                    Some(line_number(old_index, i))
                } else {
                    None
                };
                let ri = if i < new_len {
                    Some(line_number(new_index, i))
                } else {
                    None
                };
                let lr = if i < old_len {
                    Some(&left_rows[old_index + i])
                } else {
                    None
                };
                let rr = if i < new_len {
                    Some(&right_rows[new_index + i])
                } else {
                    None
                };
                push_grid_row(acc, li, ri, lr, rr, width);
            },
        }
        assert(base + run.take(i + 1) == (base + run.take(i as int)).push(run[i as int]));
        i += 1;
    }
    assert(run.take(count as int) == run);
}

proof fn lemma_grid_bounds(l: Seq<Seq<Seq<char>>>, r: Seq<Seq<Seq<char>>>)
    ensures
        width_spec(l, r) >= 0,
        forall|i: int| 0 <= i < l.len() ==> (#[trigger] l[i]).len() <= width_spec(l, r),
        forall|i: int| 0 <= i < r.len() ==> (#[trigger] r[i]).len() <= width_spec(l, r),
{
    lemma_max_width(l);
    lemma_max_width(r);
}

/// Compares two sheets (either may be missing) cell by cell, aligning their
/// rows so that an inserted or deleted row keeps later rows paired.
pub fn align_grid(name: String, left: Option<&Table>, right: Option<&Table>) -> (res: Result<
    ExcelSheet,
    String,
>)
    ensures
        match grid_spec(name@, opt_table(left), opt_table(right)) {
            Ok(v) => res matches Ok(s) && s@ == v,
            Err(m) => res matches Err(e) && e@ == m,
        },
        res matches Ok(s) ==> s.dirty_rows@.len() <= MAX_SHEET_CELLS,
        res matches Ok(s) ==> left_rows_of(s@.rows) == numbered_rows(
            padded(table_or_empty(opt_table(left)), s.width as int),
        ),
        res matches Ok(s) ==> right_rows_of(s@.rows) == numbered_rows(
            padded(table_or_empty(opt_table(right)), s.width as int),
        ),
        res matches Ok(s) ==> (left is Some && right is Some && padded(
            table_or_empty(opt_table(left)),
            s.width as int,
        ) == padded(table_or_empty(opt_table(right)), s.width as int) ==> s.status
            == ExcelSheetStatus::Equal && s.dirty_rows@.len() == 0),
        res matches Ok(s) ==> s.changed_cells == flagged_cells(s@.rows) as u32,
        res matches Ok(s) ==> forall|is: Seq<int>, js: Seq<int>|
            #[trigger] common_picks(
                padded(table_or_empty(opt_table(left)), s.width as int),
                padded(table_or_empty(opt_table(right)), s.width as int),
                is,
                js,
            ) ==> is.len() <= s@.rows.len() - s.dirty_rows@.len(),
        res matches Ok(s) ==> exists|is: Seq<int>, js: Seq<int>|
            #[trigger] common_picks(
                padded(table_or_empty(opt_table(left)), s.width as int),
                padded(table_or_empty(opt_table(right)), s.width as int),
                is,
                js,
            ) && is.len() == s@.rows.len() - s.dirty_rows@.len(),
{
    let empty: Table = Vec::new();
    let left_table = match left {
        Some(t) => t,
        None => &empty,
    };
    let right_table = match right {
        Some(t) => t,
        None => &empty,
    };
    let ghost l = table_view(left_table@);
    let ghost r = table_view(right_table@);
    assert(table_view(empty@) == Seq::<Seq<Seq<char>>>::empty());
    let lw = table_width(left_table);
    let rw = table_width(right_table);
    let width = if lw >= rw {
        lw
    } else {
        rw
    };
    let w1 = if width >= 1 {
        width
    } else {
        1
    };
    let ll = left_table.len();
    let rl = right_table.len();
    let too_large = if ll > MAX_SHEET_CELLS || rl > MAX_SHEET_CELLS - ll {
        true
    } else {
        assert((ll + rl) * w1 <= 500000 * 0x1_0000_0000_0000_0000) by (nonlinear_arith)
            requires
                ll + rl <= 500000,
                0 <= w1 <= 0xffff_ffff_ffff_ffff,
        ;
        (ll + rl) as u128 * (w1 as u128) > MAX_SHEET_CELLS as u128
    };
    proof {
        assert(l.len() == ll && r.len() == rl);
        if ll > MAX_SHEET_CELLS || rl > MAX_SHEET_CELLS - ll {
            assert((ll + rl) * w1 >= (ll + rl)) by (nonlinear_arith)
                requires
                    w1 >= 1,
                    ll + rl >= 0,
            ;
        }
    }
    if too_large {
        let mut msg = "工作表过大：".to_owned();
        msg.append(name.as_str());
        return Err(msg);
    }
    proof {
        lemma_grid_bounds(l, r);
    }
    let left_rows = padded_table(left_table, width);
    let right_rows = padded_table(right_table, width);
    let ghost pl = table_view(left_rows@);
    let ghost pr = table_view(right_rows@);
    assert forall|i: int| 0 <= i < left_rows@.len() implies (#[trigger] left_rows@[i])@.len() == width by {
        assert(pl.len() == left_rows@.len());
        assert(pl[i] == padded(l, width as int)[i]);
        assert(padded(l, width as int)[i].len() == width);
        assert(pl[i] == strings_view(left_rows@[i]@));
        assert(strings_view(left_rows@[i]@).len() == left_rows@[i]@.len());
    }
    assert forall|i: int| 0 <= i < right_rows@.len() implies (#[trigger] right_rows@[i])@.len() == width by {
        assert(pr.len() == right_rows@.len());
        assert(pr[i] == padded(r, width as int)[i]);
        assert(padded(r, width as int)[i].len() == width);
        assert(pr[i] == strings_view(right_rows@[i]@));
        assert(strings_view(right_rows@[i]@).len() == right_rows@[i]@.len());
    }
    let ops = diff_rows(&left_rows, &right_rows);
    proof {
        assert(width <= MAX_SHEET_CELLS) by (nonlinear_arith)
            requires
                (ll + rl) * w1 <= MAX_SHEET_CELLS,
                w1 >= width,
                ll + rl > 0 || width == 0,
        ;
        if ll + rl == 0 {
            lemma_max_width(l);
            lemma_max_width(r);
            assert(l.len() == 0 && r.len() == 0);
        }
    }
    let sheet = sheet_from_rows(name, left.is_some(), right.is_some(), &ops, &left_rows, &right_rows, width);
    proof {
        let w = width as int;
        let n = ops@.len() as int;
        assert forall|x: int| 0 <= x < pl.len() implies (#[trigger] pl[x]).len() == w by {
            assert(pl[x] == padded(l, w)[x]);
        }
        assert forall|x: int| 0 <= x < pr.len() implies (#[trigger] pr[x]).len() == w by {
            assert(pr[x] == padded(r, w)[x]);
        }
        law_sheet_changed_cells(grid_rows(ops@, pl, pr, w, n));
        lemma_clean_pairs(ops@, pl, pr, w, n);
        lemma_clean_split(grid_rows(ops@, pl, pr, w, n));
        let pairs = clean_pairs(ops@, pl, pr, w, n);
        lemma_pairs_pick(pairs, pl, pr);
        assert(sheet@.rows == grid_rows(ops@, pl, pr, w, n));
        assert(sheet.dirty_rows@.len() == sheet@.dirty_rows.len());
        assert(firsts(pairs).len() == sheet@.rows.len() - sheet.dirty_rows@.len());
        assert(padded(table_or_empty(opt_table(left)), sheet.width as int) == pl);
        assert(padded(table_or_empty(opt_table(right)), sheet.width as int) == pr);
        assert(common_picks(pl, pr, firsts(pairs), seconds(pairs)));
        if left is Some && right is Some && pl == pr {
            lemma_equal_steps_clean(ops@, pl, pr, width as int, ops@.len() as int);
            lemma_dirty_positions_none(grid_rows(ops@, pl, pr, width as int, ops@.len() as int));
        }
    }
    Ok(sheet)
}

/// The rows of a table, none for a missing one.
pub open spec fn table_or_empty(t: Option<Seq<Seq<Seq<char>>>>) -> Seq<Seq<Seq<char>>> {
    match t {
        Some(x) => x,
        None => seq![],
    }
}

/// The compared sheet along the row edit script `ops` between two tables
/// whose rows all have `width` cells: one row per step of the script with
/// its cells paired, the dirty rows, the changed cells, and the status from
/// which sides exist and whether any row is dirty.
pub fn sheet_from_rows(
    name: String,
    has_left: bool,
    has_right: bool,
    ops: &Vec<EditOp>,
    left_rows: &Table,
    right_rows: &Table,
    width: usize,
) -> (sheet: ExcelSheet)
    requires
        is_edit_script(ops@, table_view(left_rows@), table_view(right_rows@)),
        forall|i: int| 0 <= i < left_rows@.len() ==> (#[trigger] left_rows@[i])@.len() == width,
        forall|i: int| 0 <= i < right_rows@.len() ==> (#[trigger] right_rows@[i])@.len() == width,
        (left_rows@.len() + right_rows@.len()) * (if width >= 1 {
            width as int
        } else {
            1
        }) <= MAX_SHEET_CELLS,
        width <= MAX_SHEET_CELLS,
    ensures
        sheet@ == sheet_from_ops(
            name@,
            has_left,
            has_right,
            ops@,
            table_view(left_rows@),
            table_view(right_rows@),
            width as int,
        ),
        sheet.dirty_rows@.len() <= MAX_SHEET_CELLS,
        left_rows_of(sheet@.rows) == numbered_rows(table_view(left_rows@)),
        right_rows_of(sheet@.rows) == numbered_rows(table_view(right_rows@)),
{
    let ghost o = ops@;
    let ghost pl = table_view(left_rows@);
    let ghost pr = table_view(right_rows@);
    let ll = left_rows.len();
    let rl = right_rows.len();
    let w1: usize = if width >= 1 {
        width
    } else {
        1
    };
    let mut acc = GridAcc { rows: Vec::new(), dirty_rows: Vec::new(), changed_cells: 0 };
    assert(excel_rows_view(acc.rows@) == Seq::<ExcelRowView>::empty());
    assert(grid_rows(o, pl, pr, width as int, 0) == Seq::<ExcelRowView>::empty());
    let mut k: usize = 0;
    while k < ops.len()
        invariant
            k <= o.len(),
            o == ops@,
            pl == table_view(left_rows@),
            pr == table_view(right_rows@),
            is_edit_script(o, pl, pr),
            pl.len() == ll,
            pr.len() == rl,
            (ll + rl) * w1 <= MAX_SHEET_CELLS,
            w1 >= width,
            w1 >= 1,
            forall|i: int| 0 <= i < left_rows@.len() ==> (#[trigger] left_rows@[i])@.len() == width,
            forall|i: int| 0 <= i < right_rows@.len() ==> (#[trigger] right_rows@[i])@.len() == width,
            acc_ok(acc, width as int),
            excel_rows_view(acc.rows@) == grid_rows(o, pl, pr, width as int, k as int),
            acc.rows@.len() <= old_pos(o, k as int) + new_pos(o, k as int),
        decreases o.len() - k,
    {
        proof {
            lemma_step_in_bounds(o, pl, pr, k as int);
            lemma_pos_bounds(o, k + 1, o.len() as int);
            lemma_join_new_rows(|j: int| op_grid_rows(o[j], pl, pr, width as int), k as int);
            let c = acc.rows@.len() + o[k as int].old_count() + o[k as int].new_count();
            assert(c <= ll + rl);
            assert(c * width <= (ll + rl) * w1) by (nonlinear_arith)
                requires
                    0 <= c <= ll + rl,
                    0 <= width <= w1,
            ;
        }
        push_grid_op(&mut acc, ops[k], left_rows, right_rows, width);
        k += 1;
    }
    proof {
        lemma_pos_bounds(o, 0, o.len() as int);
        lemma_dirty_positions_len(excel_rows_view(acc.rows@));
        assert forall|i: int| 0 <= i < pl.len() implies (#[trigger] pl[i]).len() == width by {
            assert(pl[i] == strings_view(left_rows@[i]@));
        }
        assert forall|i: int| 0 <= i < pr.len() implies (#[trigger] pr[i]).len() == width by {
            assert(pr[i] == strings_view(right_rows@[i]@));
        }
        law_sheet_rows_in_order(name@, has_left, has_right, o, pl, pr, width as int);
        assert(acc.rows@.len() <= MAX_SHEET_CELLS) by (nonlinear_arith)
            requires
                acc.rows@.len() <= ll + rl,
                (ll + rl) * w1 <= MAX_SHEET_CELLS,
                w1 >= 1,
        ;
    }
    let status = if !has_left && has_right {
        ExcelSheetStatus::RightOnly
    } else if has_left && !has_right {
        ExcelSheetStatus::LeftOnly
    } else if acc.dirty_rows.len() == 0 {
        ExcelSheetStatus::Equal
    } else {
        ExcelSheetStatus::Different
    };
    ExcelSheet {
        name,
        status,
        width: width as u32,
        rows: acc.rows,
        dirty_rows: acc.dirty_rows,
        changed_cells: acc.changed_cells,
    }
}

pub open spec fn sheet_names(w: Seq<(String, Table)>) -> Seq<Seq<char>> {
    w.map_values(|e: (String, Table)| e.0@)
}

/// The name a sheet pair is shown under: the left name, else the right one.
pub open spec fn pair_name(
    left: Seq<(String, Table)>,
    right: Seq<(String, Table)>,
    pair: (Option<usize>, Option<usize>),
) -> Seq<char> {
    match pair {
        (Some(i), _) => left[i as int].0@,
        (None, Some(j)) => right[j as int].0@,
        (None, None) => "Sheet"@,
    }
}

pub open spec fn pair_table(w: Seq<(String, Table)>, index: Option<usize>) -> Option<
    Seq<Seq<Seq<char>>>,
> {
    match index {
        Some(i) => Some(table_view(w[i as int].1@)),
        None => None,
    }
}

/// The sheets of the first pairs, or the error of the first pair refused.
pub open spec fn workbooks_spec(
    left: Seq<(String, Table)>,
    right: Seq<(String, Table)>,
    pairs: Seq<(Option<usize>, Option<usize>)>,
) -> Result<Seq<SheetView>, Seq<char>>
    decreases pairs.len(),
{
    if pairs.len() == 0 {
        Ok(seq![])
    } else {
        match workbooks_spec(left, right, pairs.drop_last()) {
            Err(e) => Err(e),
            Ok(v) => {
                let p = pairs.last();
                match grid_spec(pair_name(left, right, p), pair_table(left, p.0), pair_table(right, p.1)) {
                    Err(e) => Err(e),
                    Ok(sheet) => Ok(v.push(sheet)),
                }
            },
        }
    }
}

proof fn lemma_names_state_in_range(left: Seq<Seq<char>>, right: Seq<Seq<char>>, k: int)
    requires
        0 <= k <= left.len(),
    ensures
        forall|t: int|
            0 <= t < names_state(left, right, k).0.len() ==> {
                let p = #[trigger] names_state(left, right, k).0[t];
                &&& p.0 matches Some(i) && i < left.len()
                &&& p.1 matches Some(j) ==> j < right.len()
            },
    decreases k,
{
    if k > 0 {
        lemma_names_state_in_range(left, right, k - 1);
        lemma_names_state_len(left, right, k - 1);
        lemma_first_unused_range(left[k - 1], right, names_state(left, right, k - 1).1, 0);
        let (p, u) = names_state(left, right, k - 1);
        assert forall|t: int| 0 <= t < names_state(left, right, k).0.len() implies {
            let q = #[trigger] names_state(left, right, k).0[t];
            &&& q.0 matches Some(i) && i < left.len()
            &&& q.1 matches Some(j) ==> j < right.len()
        } by {
            if t < p.len() {
                assert(names_state(left, right, k).0[t] == p[t]);
            }
        }
    }
}

proof fn lemma_unpaired_in_range(used: Seq<bool>, k: int)
    requires
        0 <= k <= used.len(),
    ensures
        forall|t: int|
            0 <= t < unpaired(used, k).len() ==> {
                let p = #[trigger] unpaired(used, k)[t];
                &&& p.0 is None
                &&& p.1 matches Some(j) && j < used.len()
            },
    decreases k,
{
    if k > 0 {
        lemma_unpaired_in_range(used, k - 1);
    }
}

/// Every pair names sheets that exist.
pub proof fn lemma_align_names_in_range(left: Seq<Seq<char>>, right: Seq<Seq<char>>)
    ensures
        forall|t: int|
            0 <= t < align_names_spec(left, right).len() ==> {
                let p = #[trigger] align_names_spec(left, right)[t];
                &&& p.0 matches Some(i) ==> i < left.len()
                &&& p.1 matches Some(j) ==> j < right.len()
                &&& p.0 is Some || p.1 is Some
            },
{
    let (p, u) = names_state(left, right, left.len() as int);
    lemma_names_state_in_range(left, right, left.len() as int);
    lemma_names_state_len(left, right, left.len() as int);
    lemma_unpaired_in_range(u, right.len() as int);
    let all = align_names_spec(left, right);
    assert forall|t: int| 0 <= t < all.len() implies {
        let q = #[trigger] all[t];
        &&& q.0 matches Some(i) ==> i < left.len()
        &&& q.1 matches Some(j) ==> j < right.len()
        &&& q.0 is Some || q.1 is Some
    } by {
        if t < p.len() {
            assert(all[t] == p[t]);
        } else {
            assert(all[t] == unpaired(u, right.len() as int)[t - p.len()]);
        }
    }
}

proof fn lemma_workbooks_err_prefix(
    left: Seq<(String, Table)>,
    right: Seq<(String, Table)>,
    pairs: Seq<(Option<usize>, Option<usize>)>,
    k: int,
)
    requires
        0 <= k <= pairs.len(),
        workbooks_spec(left, right, pairs.take(k)) is Err,
    ensures
        workbooks_spec(left, right, pairs) == workbooks_spec(left, right, pairs.take(k)),
    decreases pairs.len() - k,
{
    if k < pairs.len() {
        assert(pairs.take(k + 1).drop_last() == pairs.take(k));
        lemma_workbooks_err_prefix(left, right, pairs, k + 1);
    } else {
        assert(pairs.take(k) == pairs);
    }
}

fn names_of(w: &Vec<(String, Table)>) -> (names: Vec<String>)
    ensures
        strings_view(names@) == sheet_names(w@),
{
    let mut names: Vec<String> = Vec::new();
    let mut i: usize = 0;
    while i < w.len()
        invariant
            i <= w@.len(),
            strings_view(names@) == sheet_names(w@).take(i as int),
        decreases w@.len() - i,
    {
        let n = w[i].0.clone();
        let ghost n0 = names@;
        names.push(n);
        assert(strings_view(names@) == strings_view(n0).push(n@));
        assert(strings_view(names@) == sheet_names(w@).take(i + 1));
        i += 1;
    }
    assert(sheet_names(w@).take(w@.len() as int) == sheet_names(w@));
    names
}

/// Compares two workbooks: sheets are paired by name ignoring ASCII case and
/// compared pair by pair; the first sheet that is too large fails the whole
/// comparison.
pub fn align_workbooks(left: Vec<(String, Table)>, right: Vec<(String, Table)>) -> (res: Result<
    Vec<ExcelSheet>,
    String,
>)
    ensures
        match workbooks_spec(
            left@,
            right@,
            align_names_spec(sheet_names(left@), sheet_names(right@)),
        ) {
            Ok(v) => res matches Ok(s) && sheets_view(s@) == v,
            Err(m) => res matches Err(e) && e@ == m,
        },
        res matches Ok(s) ==> forall|i: int|
            0 <= i < s@.len() ==> (#[trigger] s@[i]).dirty_rows@.len() <= MAX_SHEET_CELLS,
{
    let left_names = names_of(&left);
    let right_names = names_of(&right);
    let pairs = align_names(left_names.as_slice(), right_names.as_slice());
    let ghost ps = pairs@;
    proof {
        lemma_align_names_in_range(sheet_names(left@), sheet_names(right@));
    }
    let mut sheets: Vec<ExcelSheet> = Vec::new();
    let mut k: usize = 0;
    assert(ps.take(0) == Seq::<(Option<usize>, Option<usize>)>::empty());
    assert(sheets_view(sheets@) == Seq::<SheetView>::empty());
    while k < pairs.len()
        invariant
            k <= ps.len(),
            ps == pairs@,
            ps == align_names_spec(sheet_names(left@), sheet_names(right@)),
            forall|t: int|
                0 <= t < ps.len() ==> {
                    let p = #[trigger] ps[t];
                    &&& p.0 matches Some(i) ==> i < left@.len()
                    &&& p.1 matches Some(j) ==> j < right@.len()
                    &&& p.0 is Some || p.1 is Some
                },
            workbooks_spec(left@, right@, ps.take(k as int)) == Ok::<Seq<SheetView>, Seq<char>>(
                sheets_view(sheets@),
            ),
            forall|i: int|
                0 <= i < sheets@.len() ==> (#[trigger] sheets@[i]).dirty_rows@.len() <= MAX_SHEET_CELLS,
        decreases ps.len() - k,
    {
        assert(ps.take(k + 1).drop_last() == ps.take(k as int));
        let (li, ri) = pairs[k];
        assert(ps[k as int] == (li, ri));
        let name = match (li, ri) {
            (Some(index), _) => left[index].0.clone(),
            (None, Some(index)) => right[index].0.clone(),
            (None, None) => "Sheet".to_owned(),
        };
        let lt = match li {
            Some(index) => Some(&left[index].1),
            None => None,
        };
        let rt = match ri {
            Some(index) => Some(&right[index].1),
            None => None,
        };
        assert(opt_table(lt) == pair_table(left@, li));
        assert(opt_table(rt) == pair_table(right@, ri));
        match align_grid(name, lt, rt) {
            Ok(sheet) => {
                let ghost s0 = sheets@;
                sheets.push(sheet);
                assert(sheets_view(sheets@) == sheets_view(s0).push(sheet@));
            },
            Err(e) => {
                proof {
                    lemma_workbooks_err_prefix(left@, right@, ps, k + 1);
                }
                return Err(e);
            },
        }
        k += 1;
    }
    assert(ps.take(ps.len() as int) == ps);
    Ok(sheets)
}


/// The left texts of a row's cells.
pub open spec fn left_texts(cells: Seq<CellView>) -> Seq<Seq<char>> {
    cells.map_values(|c: CellView| c.left)
}

/// The right texts of a row's cells.
pub open spec fn right_texts(cells: Seq<CellView>) -> Seq<Seq<char>> {
    cells.map_values(|c: CellView| c.right)
}

/// The numbered left rows that `rows` show, in row order, each with the
/// left texts of its cells.
pub open spec fn left_rows_of(rows: Seq<ExcelRowView>) -> Seq<(u32, Seq<Seq<char>>)>
    decreases rows.len(),
{
    if rows.len() == 0 {
        seq![]
    } else {
        let p = left_rows_of(rows.drop_last());
        match rows.last().left_index {
            Some(n) => p.push((n, left_texts(rows.last().cells))),
            None => p,
        }
    }
}

/// The numbered right rows that `rows` show, in row order, each with the
/// right texts of its cells.
pub open spec fn right_rows_of(rows: Seq<ExcelRowView>) -> Seq<(u32, Seq<Seq<char>>)>
    decreases rows.len(),
{
    if rows.len() == 0 {
        seq![]
    } else {
        let p = right_rows_of(rows.drop_last());
        match rows.last().right_index {
            Some(n) => p.push((n, right_texts(rows.last().cells))),
            None => p,
        }
    }
}

/// The rows of a table numbered from 1.
pub open spec fn numbered_rows(t: Seq<Seq<Seq<char>>>) -> Seq<(u32, Seq<Seq<char>>)> {
    Seq::new(t.len(), |i: int| (line_no(0, i), t[i]))
}

proof fn lemma_rows_of_concat(a: Seq<ExcelRowView>, b: Seq<ExcelRowView>)
    ensures
        left_rows_of(a + b) == left_rows_of(a) + left_rows_of(b),
        right_rows_of(a + b) == right_rows_of(a) + right_rows_of(b),
    decreases b.len(),
{
    if b.len() == 0 {
        assert(a + b == a);
        assert(left_rows_of(a) + left_rows_of(b) == left_rows_of(a));
        assert(right_rows_of(a) + right_rows_of(b) == right_rows_of(a));
    } else {
        lemma_rows_of_concat(a, b.drop_last());
        assert((a + b).drop_last() == a + b.drop_last());
        assert((a + b).last() == b.last());
    }
}

proof fn lemma_left_rows_run(rows: Seq<ExcelRowView>, c: int, start: int, t: Seq<Seq<Seq<char>>>)
    requires
        0 <= c <= rows.len(),
        0 <= start,
        start + c <= t.len(),
        forall|i: int|
            0 <= i < c ==> (#[trigger] rows[i]).left_index == Some(line_no(start, i)) && left_texts(
                rows[i].cells,
            ) == t[start + i],
        forall|i: int| c <= i < rows.len() ==> (#[trigger] rows[i]).left_index is None,
    ensures
        left_rows_of(rows) == numbered_rows(t).subrange(start, start + c),
    decreases rows.len(),
{
    if rows.len() > 0 {
        let last = rows.len() - 1;
        if last >= c {
            assert(rows[last].left_index is None);
            lemma_left_rows_run(rows.drop_last(), c, start, t);
        } else {
            lemma_left_rows_run(rows.drop_last(), c - 1, start, t);
            assert(numbered_rows(t).subrange(start, start + c) == numbered_rows(t).subrange(
                start,
                start + c - 1,
            ).push(numbered_rows(t)[start + c - 1]));
        }
    } else {
        assert(numbered_rows(t).subrange(start, start + c) == Seq::<(u32, Seq<Seq<char>>)>::empty());
    }
}

proof fn lemma_right_rows_run(rows: Seq<ExcelRowView>, c: int, start: int, t: Seq<Seq<Seq<char>>>)
    requires
        0 <= c <= rows.len(),
        0 <= start,
        start + c <= t.len(),
        forall|i: int|
            0 <= i < c ==> (#[trigger] rows[i]).right_index == Some(line_no(start, i)) && right_texts(
                rows[i].cells,
            ) == t[start + i],
        forall|i: int| c <= i < rows.len() ==> (#[trigger] rows[i]).right_index is None,
    ensures
        right_rows_of(rows) == numbered_rows(t).subrange(start, start + c),
    decreases rows.len(),
{
    if rows.len() > 0 {
        let last = rows.len() - 1;
        if last >= c {
            assert(rows[last].right_index is None);
            lemma_right_rows_run(rows.drop_last(), c, start, t);
        } else {
            lemma_right_rows_run(rows.drop_last(), c - 1, start, t);
            assert(numbered_rows(t).subrange(start, start + c) == numbered_rows(t).subrange(
                start,
                start + c - 1,
            ).push(numbered_rows(t)[start + c - 1]));
        }
    } else {
        assert(numbered_rows(t).subrange(start, start + c) == Seq::<(u32, Seq<Seq<char>>)>::empty());
    }
}

proof fn lemma_grid_row_texts(
    li: Option<u32>,
    ri: Option<u32>,
    lo: Option<Seq<Seq<char>>>,
    ro: Option<Seq<Seq<char>>>,
    w: int,
)
    requires
        w >= 0,
        lo matches Some(x) ==> x.len() == w,
        ro matches Some(x) ==> x.len() == w,
    ensures
        lo matches Some(x) ==> left_texts(grid_row(li, ri, lo, ro, w).cells) == x,
        ro matches Some(x) ==> right_texts(grid_row(li, ri, lo, ro, w).cells) == x,
{
    let row = grid_row(li, ri, lo, ro, w);
    if let Some(x) = lo {
        assert(left_texts(row.cells) =~= x);
    }
    if let Some(x) = ro {
        assert(right_texts(row.cells) =~= x);
    }
}

proof fn lemma_op_grid_sides(op: EditOp, pl: Seq<Seq<Seq<char>>>, pr: Seq<Seq<Seq<char>>>, w: int)
    requires
        w >= 0,
        0 <= op.old_start(),
        0 <= op.new_start(),
        op.old_start() + op.old_count() <= pl.len(),
        op.new_start() + op.new_count() <= pr.len(),
        forall|i: int| 0 <= i < pl.len() ==> (#[trigger] pl[i]).len() == w,
        forall|i: int| 0 <= i < pr.len() ==> (#[trigger] pr[i]).len() == w,
    ensures
        left_rows_of(op_grid_rows(op, pl, pr, w)) == numbered_rows(pl).subrange(
            op.old_start(),
            op.old_start() + op.old_count(),
        ),
        right_rows_of(op_grid_rows(op, pl, pr, w)) == numbered_rows(pr).subrange(
            op.new_start(),
            op.new_start() + op.new_count(),
        ),
{
    let rows = op_grid_rows(op, pl, pr, w);
    match op {
        EditOp::Equal { old_index, new_index, len } => {
            assert forall|i: int| 0 <= i < len implies left_texts((#[trigger] rows[i]).cells)
                == pl[old_index + i] && right_texts(rows[i].cells) == pr[new_index + i] by {
                lemma_grid_row_texts(
                    Some(line_no(old_index as int, i)),
                    Some(line_no(new_index as int, i)),
                    Some(pl[old_index + i]),
                    Some(pr[new_index + i]),
                    w,
                );
            }
            lemma_left_rows_run(rows, len as int, old_index as int, pl);
            lemma_right_rows_run(rows, len as int, new_index as int, pr);
        },
        EditOp::Delete { old_index, old_len, new_index } => {
            assert forall|i: int| 0 <= i < old_len implies left_texts((#[trigger] rows[i]).cells)
                == pl[old_index + i] by {
                lemma_grid_row_texts(
                    Some(line_no(old_index as int, i)),
                    None,
                    Some(pl[old_index + i]),
                    None,
                    w,
                );
            }
            lemma_left_rows_run(rows, old_len as int, old_index as int, pl);
            lemma_right_rows_run(rows, 0, new_index as int, pr);
        },
        EditOp::Insert { old_index, new_index, new_len } => {
            assert forall|i: int| 0 <= i < new_len implies right_texts((#[trigger] rows[i]).cells)
                == pr[new_index + i] by {
                lemma_grid_row_texts(
                    None,
                    Some(line_no(new_index as int, i)),
                    None,
                    Some(pr[new_index + i]),
                    w,
                );
            }
            lemma_left_rows_run(rows, 0, old_index as int, pl);
            lemma_right_rows_run(rows, new_len as int, new_index as int, pr);
        },
        EditOp::Replace { old_index, old_len, new_index, new_len } => {
            assert forall|i: int| 0 <= i < old_len implies left_texts((#[trigger] rows[i]).cells)
                == pl[old_index + i] by {
                lemma_grid_row_texts(
                    Some(line_no(old_index as int, i)),
                    if i < new_len {
                        Some(line_no(new_index as int, i))
                    } else {
                        None
                    },
                    Some(pl[old_index + i]),
                    if i < new_len {
                        Some(pr[new_index + i])
                    } else {
                        None
                    },
                    w,
                );
            }
            assert forall|i: int| 0 <= i < new_len implies right_texts((#[trigger] rows[i]).cells)
                == pr[new_index + i] by {
                lemma_grid_row_texts(
                    if i < old_len {
                        Some(line_no(old_index as int, i))
                    } else {
                        None
                    },
                    Some(line_no(new_index as int, i)),
                    if i < old_len {
                        Some(pl[old_index + i])
                    } else {
                        None
                    },
                    Some(pr[new_index + i]),
                    w,
                );
            }
            lemma_left_rows_run(rows, old_len as int, old_index as int, pl);
            lemma_right_rows_run(rows, new_len as int, new_index as int, pr);
        },
    }
}

proof fn lemma_grid_sides(ops: Seq<EditOp>, pl: Seq<Seq<Seq<char>>>, pr: Seq<Seq<Seq<char>>>, w: int, k: int)
    requires
        is_edit_script(ops, pl, pr),
        0 <= k <= ops.len(),
        w >= 0,
        forall|i: int| 0 <= i < pl.len() ==> (#[trigger] pl[i]).len() == w,
        forall|i: int| 0 <= i < pr.len() ==> (#[trigger] pr[i]).len() == w,
    ensures
        left_rows_of(grid_rows(ops, pl, pr, w, k)) == numbered_rows(pl).take(old_pos(ops, k)),
        right_rows_of(grid_rows(ops, pl, pr, w, k)) == numbered_rows(pr).take(new_pos(ops, k)),
    decreases k,
{
    if k == 0 {
        assert(grid_rows(ops, pl, pr, w, 0) == Seq::<ExcelRowView>::empty());
        assert(numbered_rows(pl).take(0) == Seq::<(u32, Seq<Seq<char>>)>::empty());
        assert(numbered_rows(pr).take(0) == Seq::<(u32, Seq<Seq<char>>)>::empty());
    } else {
        lemma_grid_sides(ops, pl, pr, w, k - 1);
        lemma_step_in_bounds(ops, pl, pr, k - 1);
        lemma_pos_bounds(ops, k, ops.len() as int);
        lemma_join_new_rows(|j: int| op_grid_rows(ops[j], pl, pr, w), k - 1);
        lemma_op_grid_sides(ops[k - 1], pl, pr, w);
        lemma_rows_of_concat(grid_rows(ops, pl, pr, w, k - 1), op_grid_rows(ops[k - 1], pl, pr, w));
        let a = old_pos(ops, k - 1);
        let b = old_pos(ops, k);
        assert(numbered_rows(pl).take(b) == numbered_rows(pl).take(a) + numbered_rows(pl).subrange(a, b));
        let c = new_pos(ops, k - 1);
        let d = new_pos(ops, k);
        assert(numbered_rows(pr).take(d) == numbered_rows(pr).take(c) + numbered_rows(pr).subrange(c, d));
    }
}

/// Along any row edit script between two widened tables, the compared
/// sheet shows every row of each side once, in order, numbered from 1 and
/// with its cells.
pub proof fn law_sheet_rows_in_order(
    name: Seq<char>,
    has_left: bool,
    has_right: bool,
    ops: Seq<EditOp>,
    pl: Seq<Seq<Seq<char>>>,
    pr: Seq<Seq<Seq<char>>>,
    w: int,
)
    requires
        is_edit_script(ops, pl, pr),
        w >= 0,
        forall|i: int| 0 <= i < pl.len() ==> (#[trigger] pl[i]).len() == w,
        forall|i: int| 0 <= i < pr.len() ==> (#[trigger] pr[i]).len() == w,
    ensures
        left_rows_of(sheet_from_ops(name, has_left, has_right, ops, pl, pr, w).rows) == numbered_rows(pl),
        right_rows_of(sheet_from_ops(name, has_left, has_right, ops, pl, pr, w).rows) == numbered_rows(pr),
{
    lemma_grid_sides(ops, pl, pr, w, ops.len() as int);
    assert(numbered_rows(pl).take(pl.len() as int) == numbered_rows(pl));
    assert(numbered_rows(pr).take(pr.len() as int) == numbered_rows(pr));
}

} // verus!
