use vstd::prelude::*;

use crate::align::strings_view;
use crate::commands::diff::clamp_limit;
use crate::commands::file::MAX_FILE_BYTES;
use crate::folder::{
    align_children, aligned, children_equal, compare_both, count_equal, is_dir, find_child, folder_rows_view, folder_summary_counts,
    format_path_bar, lemma_lookup_first, lemma_lookup_none, lemma_lookup_some, lemma_lookup_update,
    law_counts_match_filters, lemma_wf_children_update, lookup, matching_folder_rows, opt_node,
    path_bar_spec, path_segment,
    row_for, row_names, unique_names, wf, wf_children, window_folder_rows, archive_name,
    is_archive_name, is_class_name, is_text_name, text_name, FolderKind, FolderNode, FolderRow,
    FolderRowView, FolderStatus,
};
use crate::names::{
    ends_with_ci, lemma_name_lt_asymmetric, lemma_name_lt_irreflexive, name_lt, strictly_sorted,
};
use crate::scan::{
    bad_archive_message, bytes_as_utf8, cannot_open_message, entry_read, lemma_scan_error_messages, lemma_scan_ok_wf,
    read_zip_bytes_entry, scan_error, scan_result, scan_zip_bytes, zip_listing,
};
use crate::text::{filter_of, str_eq, window_of, RowFilter};
use vstd::utf8::valid_utf8;

verus! {

/// Where one side of a comparison reads its files from: a folder, an
/// archive file, or the bytes of an archive held in memory.
#[derive(Debug)]
pub enum Source {
    Dir(String),
    Zip(String),
    Memory(Vec<u8>),
}

pub enum SourceView {
    Dir(Seq<char>),
    Zip(Seq<char>),
    Memory(Seq<u8>),
}

impl View for Source {
    type V = SourceView;

    open spec fn view(&self) -> SourceView {
        match self {
            Source::Dir(p) => SourceView::Dir(p@),
            Source::Zip(p) => SourceView::Zip(p@),
            Source::Memory(b) => SourceView::Memory(b@),
        }
    }
}

fn copy_bytes(b: &Vec<u8>) -> (r: Vec<u8>)
    ensures
        r@ == b@,
{
    let mut out: Vec<u8> = Vec::new();
    let mut i: usize = 0;
    while i < b.len()
        invariant
            i <= b@.len(),
            out@ == b@.take(i as int),
        decreases b@.len() - i,
    {
        out.push(b[i]);
        assert(b@.take(i + 1) == b@.take(i as int).push(b@[i as int]));
        i += 1;
    }
    assert(b@.take(b@.len() as int) == b@);
    out
}

fn copy_source(s: &Source) -> (r: Source)
    ensures
        r@ == s@,
{
    match s {
        Source::Dir(p) => Source::Dir(p.clone()),
        Source::Zip(p) => Source::Zip(p.clone()),
        Source::Memory(b) => Source::Memory(copy_bytes(b)),
    }
}

/// `a` and `b` hold the same tree: the same fields, and children of the same
/// names in the same order, each the same tree.
pub open spec fn same_tree(a: FolderNode, b: FolderNode) -> bool
    decreases a,
{
    &&& a.kind == b.kind
    &&& a.hash == b.hash
    &&& a.size == b.size
    &&& a.mtime == b.mtime
    &&& a.children@.len() == b.children@.len()
    &&& forall|i: int|
        0 <= i < a.children@.len() ==> (#[trigger] a.children@[i]).0@ == b.children@[i].0@
            && same_tree(a.children@[i].1, b.children@[i].1)
}

/// `a` and `b` list the same names in the same order, each with the same
/// tree.
pub open spec fn same_list(a: Seq<(String, FolderNode)>, b: Seq<(String, FolderNode)>) -> bool {
    &&& a.len() == b.len()
    &&& forall|i: int|
        0 <= i < a.len() ==> (#[trigger] a[i]).0@ == b[i].0@ && same_tree(a[i].1, b[i].1)
}

/// Looking a name up in two lists that hold the same trees finds the same
/// tree, or nothing in both.
proof fn lemma_lookup_same(a: Seq<(String, FolderNode)>, b: Seq<(String, FolderNode)>, n: Seq<char>)
    requires
        same_list(a, b),
    ensures
        lookup(a, n) is None <==> lookup(b, n) is None,
        lookup(a, n) matches Some(x) ==> (lookup(b, n) matches Some(y) && same_tree(x, y)),
    decreases a.len(),
{
    if a.len() > 0 {
        assert(a[0].0@ == b[0].0@ && same_tree(a[0].1, b[0].1));
        assert forall|i: int| 0 <= i < a.drop_first().len() implies (#[trigger] a.drop_first()[i]).0@
            == b.drop_first()[i].0@ && same_tree(a.drop_first()[i].1, b.drop_first()[i].1) by {
            assert(a.drop_first()[i] == a[i + 1]);
            assert(b.drop_first()[i] == b[i + 1]);
        }
        lemma_lookup_same(a.drop_first(), b.drop_first(), n);
    }
}

/// The nodes at one path of two copies of a tree are copies too.
proof fn lemma_node_at_same(x: FolderNode, y: FolderNode, p: Seq<Seq<char>>)
    requires
        same_tree(x, y),
    ensures
        node_at_spec(x, p) is None <==> node_at_spec(y, p) is None,
        node_at_spec(x, p) matches Some(u) ==> (node_at_spec(y, p) matches Some(v) && same_tree(u, v)),
    decreases p.len(),
{
    if p.len() > 0 {
        lemma_lookup_same(x.children@, y.children@, p[0]);
        if let Some(c) = lookup(x.children@, p[0]) {
            let d = lookup(y.children@, p[0])->0;
            lemma_node_at_same(c, d, p.drop_first());
        }
    }
}

/// Two pairs of copies compare alike.
proof fn lemma_compare_same(a: FolderNode, a2: FolderNode, b: FolderNode, b2: FolderNode)
    requires
        same_tree(a, a2),
        same_tree(b, b2),
    ensures
        compare_both(a, b) == compare_both(a2, b2),
    decreases a,
{
    if is_dir(a) && is_dir(b) {
        assert forall|i: int| 0 <= i < a.children@.len() implies ((#[trigger] lookup(
            b.children@,
            a.children@[i].0@,
        )) matches Some(rc) && compare_both(a.children@[i].1, rc) == FolderStatus::Equal) <==> ((
        lookup(b2.children@, a2.children@[i].0@)) matches Some(rc2) && compare_both(
            a2.children@[i].1,
            rc2,
        ) == FolderStatus::Equal) by {
            lemma_lookup_same(b.children@, b2.children@, a.children@[i].0@);
            if let Some(rc) = lookup(b.children@, a.children@[i].0@) {
                let rc2 = lookup(b2.children@, a2.children@[i].0@)->0;
                assert(decreases_to!(a => a.children@[i].1));
                lemma_compare_same(a.children@[i].1, a2.children@[i].1, rc, rc2);
            }
        }
        assert forall|j: int| 0 <= j < b.children@.len() implies (#[trigger] lookup(
            a.children@,
            b.children@[j].0@,
        )) is Some <==> lookup(a2.children@, b2.children@[j].0@) is Some by {
            lemma_lookup_same(a.children@, a2.children@, b.children@[j].0@);
        }
        assert(children_equal(a, b) == children_equal(a2, b2)) by {
            if children_equal(a, b) {
                assert forall|i: int| 0 <= i < a2.children@.len() implies ((#[trigger] lookup(
                    b2.children@,
                    a2.children@[i].0@,
                )) matches Some(rc2) && compare_both(a2.children@[i].1, rc2) == FolderStatus::Equal) by {
                    assert(lookup(b.children@, a.children@[i].0@) is Some);
                }
                assert forall|j: int| 0 <= j < b2.children@.len() implies (#[trigger] lookup(
                    a2.children@,
                    b2.children@[j].0@,
                )) is Some by {
                    assert(lookup(a.children@, b.children@[j].0@) is Some);
                }
            }
            if children_equal(a2, b2) {
                assert forall|i: int| 0 <= i < a.children@.len() implies ((#[trigger] lookup(
                    b.children@,
                    a.children@[i].0@,
                )) matches Some(rc) && compare_both(a.children@[i].1, rc) == FolderStatus::Equal) by {
                    assert(lookup(b2.children@, a2.children@[i].0@) is Some);
                }
                assert forall|j: int| 0 <= j < b.children@.len() implies (#[trigger] lookup(
                    a.children@,
                    b.children@[j].0@,
                )) is Some by {
                    assert(lookup(a2.children@, b2.children@[j].0@) is Some);
                }
            }
        }
    }
}

/// Rows that fit two child lists fit copies of them too.
proof fn lemma_aligned_same(
    l: Seq<(String, FolderNode)>,
    l2: Seq<(String, FolderNode)>,
    r: Seq<(String, FolderNode)>,
    r2: Seq<(String, FolderNode)>,
    rows: Seq<FolderRowView>,
)
    requires
        same_list(l, l2),
        same_list(r, r2),
        aligned(l, r, rows),
    ensures
        aligned(l2, r2, rows),
{
    assert forall|n: Seq<char>| #![trigger row_names(rows).contains(n)]
        row_names(rows).contains(n) <==> (lookup(l2, n) is Some || lookup(r2, n) is Some) by {
        lemma_lookup_same(l, l2, n);
        lemma_lookup_same(r, r2, n);
    }
    assert forall|i: int| 0 <= i < rows.len() implies #[trigger] rows[i] == row_for(
        rows[i].name,
        lookup(l2, rows[i].name),
        lookup(r2, rows[i].name),
    ) by {
        let n = rows[i].name;
        lemma_lookup_same(l, l2, n);
        lemma_lookup_same(r, r2, n);
        if let (Some(a), Some(b)) = (lookup(l, n), lookup(r, n)) {
            lemma_compare_same(a, lookup(l2, n)->0, b, lookup(r2, n)->0);
        }
    }
}

/// A copy of a tree.
pub fn copy_tree(n: &FolderNode) -> (r: FolderNode)
    ensures
        same_tree(r, *n),
        wf(*n) ==> wf(r),
    decreases n,
{
    let mut out: Vec<(String, FolderNode)> = Vec::new();
    let mut i: usize = 0;
    while i < n.children.len()
        invariant
            i <= n.children@.len(),
            out@.len() == i,
            forall|k: int|
                0 <= k < i ==> (#[trigger] out@[k]).0@ == n.children@[k].0@ && same_tree(
                    out@[k].1,
                    n.children@[k].1,
                ) && (wf(n.children@[k].1) ==> wf(out@[k].1)),
        decreases n.children@.len() - i,
    {
        assert(decreases_to!(n => n.children@[i as int].1));
        let c = copy_tree(&n.children[i].1);
        out.push((n.children[i].0.clone(), c));
        i += 1;
    }
    let r = FolderNode { kind: n.kind, hash: n.hash, size: n.size, mtime: n.mtime, children: out };
    proof {
        if wf(*n) {
            assert(unique_names(r.children@)) by {
                assert forall|i: int, j: int|
                    0 <= i < r.children@.len() && 0 <= j < r.children@.len() && i != j implies (
                    #[trigger] r.children@[i]).0@ != (#[trigger] r.children@[j]).0@ by {
                    assert(n.children@[i].0@ != n.children@[j].0@);
                }
            }
            assert forall|i: int| 0 <= i < r.children@.len() implies wf(#[trigger] r.children@[i].1) by {
                assert(wf(n.children@[i].1));
            }
        }
    }
    r
}

fn copy_strings(v: &Vec<String>) -> (r: Vec<String>)
    ensures
        r@ == v@,
{
    let mut out: Vec<String> = Vec::new();
    let mut i: usize = 0;
    while i < v.len()
        invariant
            i <= v@.len(),
            out@ == v@.take(i as int),
        decreases v@.len() - i,
    {
        out.push(v[i].clone());
        assert(v@.take(i + 1) == v@.take(i as int).push(v@[i as int]));
        i += 1;
    }
    assert(v@.take(v@.len() as int) == v@);
    out
}

fn copy_segments(v: &Vec<(String, bool)>) -> (r: Vec<(String, bool)>)
    ensures
        r@ == v@,
{
    let mut out: Vec<(String, bool)> = Vec::new();
    let mut i: usize = 0;
    while i < v.len()
        invariant
            i <= v@.len(),
            out@ == v@.take(i as int),
        decreases v@.len() - i,
    {
        out.push((v[i].0.clone(), v[i].1));
        assert(v@.take(i + 1) == v@.take(i as int).push(v@[i as int]));
        i += 1;
    }
    assert(v@.take(v@.len() as int) == v@);
    out
}

/// The node at the end of a path of names from `root` (the root itself for
/// the empty path).
pub open spec fn node_at_spec(root: FolderNode, path: Seq<Seq<char>>) -> Option<FolderNode>
    decreases path.len(),
{
    if path.len() == 0 {
        Some(root)
    } else {
        match lookup(root.children@, path[0]) {
            None => None,
            Some(c) => node_at_spec(c, path.drop_first()),
        }
    }
}

/// The children of the node at `path`, none when there is no such node.
pub open spec fn children_at_spec(root: FolderNode, path: Seq<Seq<char>>) -> Seq<(String, FolderNode)> {
    match node_at_spec(root, path) {
        Some(n) => n.children@,
        None => seq![],
    }
}

pub proof fn lemma_lookup_wf(s: Seq<(String, FolderNode)>, name: Seq<char>)
    requires
        forall|i: int| 0 <= i < s.len() ==> wf(#[trigger] s[i].1),
        lookup(s, name) is Some,
    ensures
        wf(lookup(s, name)->0),
{
    lemma_lookup_some(s, name);
    let i = choose|i: int| 0 <= i < s.len() && #[trigger] s[i].0@ == name && lookup(s, name) == Some(s[i].1);
    assert(wf(s[i].1));
}

pub proof fn lemma_node_at_wf(root: FolderNode, path: Seq<Seq<char>>)
    requires
        wf(root),
    ensures
        node_at_spec(root, path) matches Some(n) ==> wf(n),
    decreases path.len(),
{
    if path.len() > 0 {
        if lookup(root.children@, path[0]) is Some {
            lemma_lookup_wf(root.children@, path[0]);
            lemma_node_at_wf(lookup(root.children@, path[0])->0, path.drop_first());
        }
    }
}

fn node_at<'a>(node: &'a FolderNode, path: &[String], i: usize, end: usize) -> (r: Option<
    &'a FolderNode,
>)
    requires
        i <= end <= path@.len(),
    ensures
        opt_node(r) == node_at_spec(*node, strings_view(path@).subrange(i as int, end as int)),
    decreases end - i,
{
    let ghost p = strings_view(path@).subrange(i as int, end as int);
    if i == end {
        assert(p.len() == 0);
        return Some(node);
    }
    assert(p[0] == path@[i as int]@);
    assert(p.drop_first() == strings_view(path@).subrange(i + 1, end as int));
    match node.child(path[i].as_str()) {
        None => None,
        Some(c) => node_at(c, path, i + 1, end),
    }
}

/// The rows that set the children at `path` of the two trees side by side.
fn rows_at(left: &FolderNode, right: &FolderNode, path: &[String]) -> (rows: Vec<FolderRow>)
    requires
        wf(*left),
        wf(*right),
    ensures
        aligned(
            children_at_spec(*left, strings_view(path@)),
            children_at_spec(*right, strings_view(path@)),
            folder_rows_view(rows@),
        ),
{
    let ghost p = strings_view(path@);
    assert(p.subrange(0, p.len() as int) == p);
    proof {
        lemma_node_at_wf(*left, p);
        lemma_node_at_wf(*right, p);
    }
    let empty: Vec<(String, FolderNode)> = Vec::new();
    let l = match node_at(left, path, 0, path.len()) {
        Some(n) => &n.children,
        None => &empty,
    };
    let r = match node_at(right, path, 0, path.len()) {
        Some(n) => &n.children,
        None => &empty,
    };
    assert(l@ == children_at_spec(*left, p));
    assert(r@ == children_at_spec(*right, p));
    align_children(l, r)
}

/// What a level of an entered archive returns to: the sources, trees and
/// place of the level it was entered from.
#[derive(Debug)]
pub struct Frame {
    pub left_src: Source,
    pub right_src: Source,
    pub left_tree: FolderNode,
    pub right_tree: FolderNode,
    pub prefix: Vec<String>,
    pub segments: Vec<(String, bool)>,
}

/// A folder comparison being browsed: the two trees, the folder shown
/// (`prefix`, below the current root), the path bar, the rows of the folder
/// shown, the levels of entered archives, and the archives already read
/// below the current root.
#[derive(Debug)]
pub struct FolderSession {
    pub left_src: Source,
    pub right_src: Source,
    pub left_tree: FolderNode,
    pub right_tree: FolderNode,
    pub prefix: Vec<String>,
    pub segments: Vec<(String, bool)>,
    pub rows: Vec<FolderRow>,
    pub stack: Vec<Frame>,
    pub nested: Vec<(String, Source)>,
}

/// What the header of a folder comparison shows.
#[derive(Debug)]
pub struct FolderSummary {
    pub path_bar: String,
    pub can_go_up: bool,
    pub row_count: u32,
    pub equal: u32,
    pub different: u32,
}

/// A page of the rows of the folder shown.
#[derive(Debug)]
pub struct FolderWindow {
    pub rows: Vec<FolderRow>,
    pub total: u32,
    pub offset: u32,
}

impl FolderSession {
    /// The rows are those of the folder shown.
    pub open spec fn rows_ok(self) -> bool {
        aligned(
            children_at_spec(self.left_tree, strings_view(self.prefix@)),
            children_at_spec(self.right_tree, strings_view(self.prefix@)),
            folder_rows_view(self.rows@),
        )
    }

    /// Every tree, current or kept for going back up, names each entry once;
    /// on the first level, and on the level kept first, the path bar has one
    /// segment per folder of the folder shown.
    pub open spec fn inv(self) -> bool {
        &&& wf(self.left_tree)
        &&& wf(self.right_tree)
        &&& forall|i: int|
            0 <= i < self.stack@.len() ==> wf((#[trigger] self.stack@[i]).left_tree) && wf(
                self.stack@[i].right_tree,
            )
        &&& self.stack@.len() == 0 ==> self.segments@.len() == self.prefix@.len()
        &&& self.stack@.len() > 0 ==> self.stack@[0].segments@.len() == self.stack@[0].prefix@.len()
    }

    /// A session on two opened sides, showing the top folder.
    pub fn start(left: (Source, FolderNode), right: (Source, FolderNode)) -> (s: Self)
        requires
            wf(left.1),
            wf(right.1),
        ensures
            s.inv(),
            s.rows_ok(),
            s.left_src == left.0,
            s.right_src == right.0,
            s.left_tree == left.1,
            s.right_tree == right.1,
            s.prefix@.len() == 0,
            s.segments@.len() == 0,
            s.stack@.len() == 0,
            s.nested@.len() == 0,
            aligned(left.1.children@, right.1.children@, folder_rows_view(s.rows@)),
    {
        let (left_src, left_tree) = left;
        let (right_src, right_tree) = right;
        let prefix: Vec<String> = Vec::new();
        let rows = rows_at(&left_tree, &right_tree, prefix.as_slice());
        assert(strings_view(prefix@) == Seq::<Seq<char>>::empty());
        FolderSession {
            left_src,
            right_src,
            left_tree,
            right_tree,
            prefix,
            segments: Vec::new(),
            rows,
            stack: Vec::new(),
            nested: Vec::new(),
        }
    }

    fn refresh_rows(&mut self)
        requires
            wf(old(self).left_tree),
            wf(old(self).right_tree),
        ensures
            final(self).rows_ok(),
            final(self).left_src == old(self).left_src,
            final(self).right_src == old(self).right_src,
            final(self).left_tree == old(self).left_tree,
            final(self).right_tree == old(self).right_tree,
            final(self).prefix == old(self).prefix,
            final(self).segments == old(self).segments,
            final(self).stack == old(self).stack,
            final(self).nested == old(self).nested,
    {
        self.rows = rows_at(&self.left_tree, &self.right_tree, self.prefix.as_slice());
    }

    /// The header: the path bar, whether there is a level above, and how
    /// many rows there are, equal and not.
    pub fn summary(&self) -> (s: FolderSummary)
        requires
            self.rows@.len() <= u32::MAX,
        ensures
            s.path_bar@ == path_bar_spec(self.segments@),
            s.can_go_up == (self.prefix@.len() > 0 || self.stack@.len() > 0),
            s.row_count == self.rows@.len(),
            s.equal == count_equal(folder_rows_view(self.rows@)),
            s.equal + s.different == self.rows@.len(),
    {
        let (equal, different) = folder_summary_counts(self.rows.as_slice());
        FolderSummary {
            path_bar: format_path_bar(self.segments.as_slice()),
            can_go_up: self.prefix.len() > 0 || self.stack.len() > 0,
            row_count: self.rows.len() as u32,
            equal,
            different,
        }
    }

    /// A page of the rows that pass `filter`: from `offset` on, at most
    /// `limit` of them with `limit` brought into `1..=300`.
    pub fn window(&self, filter: &str, offset: u32, limit: u32) -> (w: FolderWindow)
        ensures
            folder_rows_view(w.rows@) == window_of(
                matching_folder_rows(folder_rows_view(self.rows@), filter_of(filter@)),
                offset as int,
                clamp_limit(limit, 300) as int,
            ),
            w.total == matching_folder_rows(folder_rows_view(self.rows@), filter_of(filter@)).len() as u32,
            w.offset == offset,
    {
        let limit: u32 = if limit < 1 {
            1
        } else if limit > 300 {
            300
        } else {
            limit
        };
        let (rows, total) = window_folder_rows(self.rows.as_slice(), filter, offset as usize, limit as usize);
        FolderWindow { rows, total: total as u32, offset }
    }

    /// The row named `name`, if any.
    pub fn row(&self, name: &str) -> (r: Option<&FolderRow>)
        ensures
            match r {
                Some(x) => exists|i: int|
                    0 <= i < self.rows@.len() && self.rows@[i] == *x && x.name@ == name@ && forall|j: int|
                        0 <= j < i ==> (#[trigger] self.rows@[j]).name@ != name@,
                None => forall|i: int| 0 <= i < self.rows@.len() ==> (#[trigger] self.rows@[i]).name@ != name@,
            },
    {
        let mut i: usize = 0;
        while i < self.rows.len()
            invariant
                i <= self.rows@.len(),
                forall|j: int| 0 <= j < i ==> (#[trigger] self.rows@[j]).name@ != name@,
            decreases self.rows@.len() - i,
        {
            if str_eq(self.rows[i].name.as_str(), name) {
                return Some(&self.rows[i]);
            }
            i += 1;
        }
        None
    }
}


/// A read that only the file system can serve: the file at the end of
/// `parts` below folder `root`, or entry `entry` of the archive file at
/// `archive`.
#[derive(Debug)]
pub enum FileRead {
    InDir(String, Vec<String>),
    InZip(String, String),
}

pub enum FileReadView {
    InDir(Seq<char>, Seq<Seq<char>>),
    InZip(Seq<char>, Seq<char>),
}

impl View for FileRead {
    type V = FileReadView;

    open spec fn view(&self) -> FileReadView {
        match self {
            FileRead::InDir(root, parts) => FileReadView::InDir(root@, strings_view(parts@)),
            FileRead::InZip(archive, entry) => FileReadView::InZip(archive@, entry@),
        }
    }
}

/// The parts joined with `/`.
pub open spec fn join_path(parts: Seq<Seq<char>>) -> Seq<char>
    decreases parts.len(),
{
    if parts.len() == 0 {
        seq![]
    } else if parts.len() == 1 {
        parts[0]
    } else {
        join_path(parts.drop_last()) + "/"@ + parts.last()
    }
}

fn join_range(parts: &[String], from: usize, to: usize) -> (r: String)
    requires
        from <= to <= parts@.len(),
    ensures
        r@ == join_path(strings_view(parts@).subrange(from as int, to as int)),
{
    let ghost p = strings_view(parts@);
    let mut out = String::new();
    let mut i: usize = from;
    while i < to
        invariant
            from <= i <= to <= parts@.len(),
            p == strings_view(parts@),
            out@ == join_path(p.subrange(from as int, i as int)),
        decreases to - i,
    {
        assert(p.subrange(from as int, i + 1).drop_last() == p.subrange(from as int, i as int));
        assert(p.subrange(from as int, i + 1).last() == parts@[i as int]@);
        if i > from {
            out.append("/");
        }
        out.append(parts[i].as_str());
        i += 1;
    }
    out
}

fn copy_range(parts: &[String], from: usize) -> (r: Vec<String>)
    requires
        from <= parts@.len(),
    ensures
        strings_view(r@) == strings_view(parts@).subrange(from as int, parts@.len() as int),
{
    let ghost p = strings_view(parts@);
    let mut out: Vec<String> = Vec::new();
    let mut i: usize = from;
    while i < parts.len()
        invariant
            from <= i <= parts@.len(),
            p == strings_view(parts@),
            strings_view(out@) == p.subrange(from as int, i as int),
        decreases parts@.len() - i,
    {
        let ghost o0 = out@;
        out.push(parts[i].clone());
        assert(strings_view(out@) == strings_view(o0).push(parts@[i as int]@));
        assert(p.subrange(from as int, i + 1) == p.subrange(from as int, i as int).push(p[i as int]));
        i += 1;
    }
    out
}

/// What reading the file at `rel` (a non-empty path of names) below `src`
/// may give: for a folder or an archive file, what the file system read of
/// exactly that file or entry gave; for bytes held in memory, refused when
/// there are none, and otherwise what reading the entry of the joined path
/// from those bytes gives.
pub open spec fn source_read<F: Fn(FileRead) -> Result<Vec<u8>, String>>(
    read: F,
    src: SourceView,
    rel: Seq<Seq<char>>,
    r: Result<Vec<u8>, String>,
) -> bool {
    match src {
        SourceView::Dir(root) => exists|q: FileRead|
            #![trigger call_ensures(read, (q,), r)]
            q@ == FileReadView::InDir(root, rel) && call_ensures(read, (q,), r),
        SourceView::Zip(archive) => exists|q: FileRead|
            #![trigger call_ensures(read, (q,), r)]
            q@ == FileReadView::InZip(archive, join_path(rel)) && call_ensures(read, (q,), r),
        SourceView::Memory(bytes) => if bytes.len() == 0 {
            r matches Err(e) && e@ == cannot_open_message()
        } else {
            entry_read(bytes, join_path(rel), r)
        },
    }
}

/// Every read can be asked for.
pub open spec fn reads_allowed<F: Fn(FileRead) -> Result<Vec<u8>, String>>(read: F) -> bool {
    forall|q: FileRead| call_requires(read, (q,))
}

fn read_from_source<F: Fn(FileRead) -> Result<Vec<u8>, String>>(
    src: &Source,
    parts: &[String],
    from: usize,
    read: &F,
) -> (r: Result<Vec<u8>, String>)
    requires
        from < parts@.len(),
        reads_allowed(*read),
    ensures
        source_read(*read, src@, strings_view(parts@).subrange(from as int, parts@.len() as int), r),
{
    match src {
        Source::Dir(root) => {
            let q = FileRead::InDir(root.clone(), copy_range(parts, from));
            read(q)
        },
        Source::Zip(archive) => {
            let q = FileRead::InZip(archive.clone(), join_range(parts, from, parts.len()));
            read(q)
        },
        Source::Memory(bytes) => {
            if bytes.len() == 0 {
                return Err("无法打开文件".to_owned());
            }
            let entry = join_range(parts, from, parts.len());
            read_zip_bytes_entry(bytes.as_slice(), entry.as_str())
        },
    }
}

/// Position of the first entry of `nested` stored under `key`.
pub open spec fn first_key(nested: Seq<(String, Source)>, key: Seq<char>, i: int) -> bool {
    0 <= i < nested.len() && nested[i].0@ == key && forall|j: int| 0 <= j < i ==> (#[trigger] nested[j]).0@ != key
}

/// The archive kept under `key`, if any.
pub open spec fn nested_lookup(nested: Seq<(String, Source)>, key: Seq<char>) -> Option<Source> {
    if exists|i: int| first_key(nested, key, i) {
        Some(nested[choose|i: int| first_key(nested, key, i)].1)
    } else {
        None
    }
}

/// The key under which the bytes of the archive at `parts` of side `side`
/// are kept.
pub open spec fn nested_key(side: Seq<char>, parts: Seq<Seq<char>>) -> Seq<char> {
    side + ":"@ + join_path(parts)
}

/// The longest proper prefix of `path`, of at most `end` names, under which
/// an archive of side `side` is kept.
pub open spec fn deepest_nested(nested: Seq<(String, Source)>, side: Seq<char>, path: Seq<Seq<char>>, end: int) -> Option<
    int,
>
    decreases end,
{
    if end < 1 {
        None
    } else if nested_lookup(nested, nested_key(side, path.take(end))) is Some {
        Some(end)
    } else {
        deepest_nested(nested, side, path, end - 1)
    }
}

fn find_nested(nested: &Vec<(String, Source)>, key: &str) -> (found: Option<usize>)
    ensures
        match found {
            Some(i) => first_key(nested@, key@, i as int) && nested_lookup(nested@, key@) == Some(
                nested@[i as int].1,
            ),
            None => nested_lookup(nested@, key@) is None && forall|j: int|
                0 <= j < nested@.len() ==> (#[trigger] nested@[j]).0@ != key@,
        },
{
    let mut i: usize = 0;
    while i < nested.len()
        invariant
            i <= nested@.len(),
            forall|j: int| 0 <= j < i ==> (#[trigger] nested@[j]).0@ != key@,
        decreases nested@.len() - i,
    {
        if str_eq(nested[i].0.as_str(), key) {
            proof {
                assert(first_key(nested@, key@, i as int));
                let c = choose|c: int| first_key(nested@, key@, c);
                if c < i {
                    assert(nested@[c].0@ != key@);
                } else if c > i {
                    assert(nested@[i as int].0@ != key@);
                }
            }
            return Some(i);
        }
        i += 1;
    }
    None
}

impl FolderSession {
    /// The source of side `side`: the right one for `"right"`, the left one
    /// for any other name.
    pub open spec fn root_source(self, side: Seq<char>) -> Source {
        if side == "right"@ {
            self.right_src
        } else {
            self.left_src
        }
    }

    /// What reading the file at `path` of side `side` may give: the empty
    /// path is refused; otherwise it is read from the archive kept for the
    /// longest proper prefix of the path, or else from the side's source.
    pub open spec fn path_read<F: Fn(FileRead) -> Result<Vec<u8>, String>>(
        self,
        read: F,
        side: Seq<char>,
        path: Seq<Seq<char>>,
        r: Result<Vec<u8>, String>,
    ) -> bool {
        if path.len() == 0 {
            r matches Err(e) && e@ == cannot_open_message()
        } else {
            match deepest_nested(self.nested@, side, path, path.len() - 1) {
                Some(e) => source_read(
                    read,
                    nested_lookup(self.nested@, nested_key(side, path.take(e)))->0@,
                    path.subrange(e, path.len() as int),
                    r,
                ),
                None => source_read(read, self.root_source(side)@, path, r),
            }
        }
    }

    /// Reads the file at `path` of side `side`.
    pub fn read_path<F: Fn(FileRead) -> Result<Vec<u8>, String>>(
        &self,
        side: &str,
        path: &[String],
        read: &F,
    ) -> (r: Result<Vec<u8>, String>)
        requires
            reads_allowed(*read),
        ensures
            self.path_read(*read, side@, strings_view(path@), r),
    {
        let ghost p = strings_view(path@);
        if path.len() == 0 {
            return Err("无法打开文件".to_owned());
        }
        let mut end: usize = path.len() - 1;
        while end >= 1
            invariant
                end < path@.len(),
                p == strings_view(path@),
                reads_allowed(*read),
                deepest_nested(self.nested@, side@, p, p.len() - 1) == deepest_nested(
                    self.nested@,
                    side@,
                    p,
                    end as int,
                ),
            decreases end,
        {
            let mut key = side.to_string();
            key.append(":");
            let joined = join_range(path, 0, end);
            key.append(joined.as_str());
            assert(p.subrange(0, end as int) == p.take(end as int));
            assert(key@ == nested_key(side@, p.take(end as int)));
            match find_nested(&self.nested, key.as_str()) {
                Some(i) => {
                    return read_from_source(&self.nested[i].1, path, end, read);
                },
                None => {},
            }
            end -= 1;
        }
        assert(p.subrange(0, p.len() as int) == p);
        if str_eq(side, "right") {
            read_from_source(&self.right_src, path, 0, read)
        } else {
            read_from_source(&self.left_src, path, 0, read)
        }
    }

    /// Reads the entry `name` of the folder at the top of side `side`.
    pub fn read_side<F: Fn(FileRead) -> Result<Vec<u8>, String>>(
        &self,
        side: &str,
        name: &str,
        read: &F,
    ) -> (r: Result<Vec<u8>, String>)
        requires
            reads_allowed(*read),
        ensures
            self.path_read(*read, side@, seq![name@], r),
    {
        let path = vec![name.to_string()];
        assert(strings_view(path@) == seq![name@]);
        self.read_path(side, path.as_slice(), read)
    }
}


/// The message for a folder that cannot be opened or left.
pub open spec fn folder_message() -> Seq<char> {
    "无法打开文件夹"@
}

/// The path bar segments as names and archive flags.
pub open spec fn segs_view(s: Seq<(String, bool)>) -> Seq<(Seq<char>, bool)> {
    s.map_values(|x: (String, bool)| (x.0@, x.1))
}

/// `i` is the first row named `name`.
pub open spec fn first_row(rows: Seq<FolderRowView>, name: Seq<char>, i: int) -> bool {
    0 <= i < rows.len() && rows[i].name == name && forall|j: int| 0 <= j < i ==> (#[trigger] rows[j]).name != name
}

/// The first row named `name`, if any.
pub open spec fn find_row(rows: Seq<FolderRowView>, name: Seq<char>) -> Option<FolderRowView> {
    if exists|i: int| first_row(rows, name, i) {
        Some(rows[choose|i: int| first_row(rows, name, i)])
    } else {
        None
    }
}

/// Whether entering the row named `name` is refused: there is no such row,
/// or it is a type conflict, or it is a plain file.
pub open spec fn enter_refused(rows: Seq<FolderRowView>, name: Seq<char>) -> bool {
    match find_row(rows, name) {
        None => true,
        Some(row) => row.status == FolderStatus::TypeConflict || row.kind == FolderKind::File,
    }
}

/// The row named `name` is a folder that can be entered.
pub open spec fn enters_folder(rows: Seq<FolderRowView>, name: Seq<char>) -> bool {
    find_row(rows, name) matches Some(row) && row.status != FolderStatus::TypeConflict && row.kind
        == FolderKind::Dir
}

/// The row named `name` is an archive that can be entered.
pub open spec fn enters_archive(rows: Seq<FolderRowView>, name: Seq<char>) -> bool {
    find_row(rows, name) matches Some(row) && row.status != FolderStatus::TypeConflict && row.kind
        == FolderKind::Archive
}

/// An empty folder with nothing recorded of it.
pub open spec fn empty_dir(t: FolderNode) -> bool {
    &&& t.kind == FolderKind::Dir
    &&& t.hash is None
    &&& t.size is None
    &&& t.mtime is None
    &&& t.children@.len() == 0
}

/// `f` keeps the level of `s`: its sources, copies of its trees, its
/// folder shown and its path bar.
pub open spec fn keeps_level(s: FolderSession, f: Frame) -> bool {
    &&& f.left_src@ == s.left_src@
    &&& f.right_src@ == s.right_src@
    &&& same_tree(f.left_tree, s.left_tree)
    &&& same_tree(f.right_tree, s.right_tree)
    &&& f.prefix@ == s.prefix@
    &&& f.segments@ == s.segments@
}

/// `new` is `old` with the folder `name` of the folder shown entered.
pub open spec fn entered_folder(old: FolderSession, name: Seq<char>, new: FolderSession) -> bool {
    &&& new.left_src == old.left_src
    &&& new.right_src == old.right_src
    &&& new.left_tree == old.left_tree
    &&& new.right_tree == old.right_tree
    &&& new.stack == old.stack
    &&& new.nested == old.nested
    &&& strings_view(new.prefix@) == strings_view(old.prefix@).push(name)
    &&& segs_view(new.segments@) == segs_view(old.segments@).push((name, false))
    &&& new.rows_ok()
}

/// One side of an entered archive: the side's read of `name` either gave
/// bytes, which become the side's source and are scanned into its tree, or
/// failed, leaving no bytes and an empty folder.
pub open spec fn entered_side<F: Fn(FileRead) -> Result<Vec<u8>, String>>(
    read: F,
    old: FolderSession,
    side: Seq<char>,
    name: Seq<char>,
    src: SourceView,
    tree: FolderNode,
) -> bool {
    exists|lr: Result<Vec<u8>, String>|
        #![trigger old.path_read(read, side, seq![name], lr)]
        old.path_read(read, side, seq![name], lr) && match lr {
            Ok(b) => src == SourceView::Memory(b@) && scan_result(b@, Ok(tree)),
            Err(_) => src == SourceView::Memory(seq![]) && empty_dir(tree),
        }
}

/// The tree of one side of an entered archive: the scan of the bytes the
/// side's read of `name` gave, or an empty folder when the read failed.
pub open spec fn side_tree<F: Fn(FileRead) -> Result<Vec<u8>, String>>(
    read: F,
    old: FolderSession,
    side: Seq<char>,
    name: Seq<char>,
    tree: FolderNode,
) -> bool {
    exists|lr: Result<Vec<u8>, String>|
        #![trigger old.path_read(read, side, seq![name], lr)]
        old.path_read(read, side, seq![name], lr) && match lr {
            Ok(b) => scan_result(b@, Ok(tree)),
            Err(_) => empty_dir(tree),
        }
}

/// `new` is `old` with the archive `name` of the folder shown entered: the
/// level of `old` is kept on the stack first; when both sides scan, their
/// trees are shown from the top with `name!/` added to the path bar.
pub open spec fn entered_archive<F: Fn(FileRead) -> Result<Vec<u8>, String>>(
    read: F,
    old: FolderSession,
    name: Seq<char>,
    new: FolderSession,
    r: Result<(), String>,
) -> bool {
    &&& new.stack@.len() == old.stack@.len() + 1
    &&& new.stack@.drop_last() == old.stack@
    &&& keeps_level(old, new.stack@.last())
    &&& r matches Err(e) ==> (e@ == bad_archive_message() || e@ == cannot_open_message())
    &&& r is Err ==> {
        &&& new.left_src == old.left_src
        &&& new.right_src == old.right_src
        &&& new.prefix == old.prefix
        &&& new.segments == old.segments
        &&& new.nested == old.nested
        &&& new.rows == old.rows
        &&& new.right_tree == old.right_tree
        &&& (new.left_tree == old.left_tree || side_tree(read, old, "left"@, name, new.left_tree))
    }
    &&& r matches Err(e) ==> exists|side: Seq<char>, b: Vec<u8>|
        #![trigger old.path_read(read, side, seq![name], Ok(b))]
        (side == "left"@ || side == "right"@) && old.path_read(read, side, seq![name], Ok(b))
            && scan_result(b@, Err(e))
    &&& r is Ok ==> {
        &&& new.prefix@.len() == 0
        &&& segs_view(new.segments@) == segs_view(old.segments@).push((name, true))
        &&& new.nested == old.nested
        &&& entered_side(read, old, "left"@, name, new.left_src@, new.left_tree)
        &&& entered_side(read, old, "right"@, name, new.right_src@, new.right_tree)
        &&& new.rows_ok()
    }
}

/// `new` is `old` one folder up within the same root.
pub open spec fn went_up_folder(old: FolderSession, new: FolderSession) -> bool {
    &&& new.left_src == old.left_src
    &&& new.right_src == old.right_src
    &&& new.left_tree == old.left_tree
    &&& new.right_tree == old.right_tree
    &&& new.stack == old.stack
    &&& new.nested == old.nested
    &&& strings_view(new.prefix@) == strings_view(old.prefix@).drop_last()
    &&& segs_view(new.segments@) == if old.segments@.len() > 0 {
        segs_view(old.segments@).drop_last()
    } else {
        segs_view(old.segments@)
    }
    &&& new.rows_ok()
}

/// `new` is `old` back at the level kept last on its stack.
pub open spec fn left_archive(old: FolderSession, new: FolderSession) -> bool {
    let f = old.stack@.last();
    &&& new.left_src == f.left_src
    &&& new.right_src == f.right_src
    &&& new.left_tree == f.left_tree
    &&& new.right_tree == f.right_tree
    &&& new.prefix == f.prefix
    &&& new.segments == f.segments
    &&& new.stack@ == old.stack@.drop_last()
    &&& new.nested == old.nested
    &&& new.rows_ok()
}

fn find_row_index(rows: &Vec<FolderRow>, name: &str) -> (found: Option<usize>)
    ensures
        match found {
            Some(i) => first_row(folder_rows_view(rows@), name@, i as int) && find_row(
                folder_rows_view(rows@),
                name@,
            ) == Some(folder_rows_view(rows@)[i as int]),
            None => find_row(folder_rows_view(rows@), name@) is None,
        },
{
    let ghost rv = folder_rows_view(rows@);
    let mut i: usize = 0;
    while i < rows.len()
        invariant
            i <= rows@.len(),
            rv == folder_rows_view(rows@),
            forall|j: int| 0 <= j < i ==> (#[trigger] rv[j]).name != name@,
        decreases rows@.len() - i,
    {
        if str_eq(rows[i].name.as_str(), name) {
            proof {
                assert(first_row(rv, name@, i as int));
                let c = choose|c: int| first_row(rv, name@, c);
                if c < i {
                    assert(rv[c].name != name@);
                } else if c > i {
                    assert(rv[i as int].name != name@);
                }
            }
            return Some(i);
        }
        i += 1;
    }
    None
}

impl FolderSession {
    /// Enters the row named `name` of the folder shown: a folder is shown
    /// next; an archive is read from both sides and its contents are shown
    /// from the top, the current level being kept for going back up.
    pub fn enter<F: Fn(FileRead) -> Result<Vec<u8>, String>>(&mut self, name: &str, read: &F) -> (r: Result<
        (),
        String,
    >)
        requires
            old(self).inv(),
            reads_allowed(*read),
        ensures
            final(self).inv(),
            enter_refused(folder_rows_view(old(self).rows@), name@) ==> (r matches Err(e) && e@
                == folder_message() && *final(self) == *old(self)),
            enters_folder(folder_rows_view(old(self).rows@), name@) ==> (r is Ok && entered_folder(
                *old(self),
                name@,
                *final(self),
            )),
            enters_archive(folder_rows_view(old(self).rows@), name@) ==> entered_archive(
                *read,
                *old(self),
                name@,
                *final(self),
                r,
            ),
    {
        let ghost rv = folder_rows_view(self.rows@);
        let index = match find_row_index(&self.rows, name) {
            Some(i) => i,
            None => {
                return Err("无法打开文件夹".to_owned());
            },
        };
        assert(find_row(rv, name@) == Some(rv[index as int]));
        let status = self.rows[index].status;
        let kind = self.rows[index].kind;
        if status == FolderStatus::TypeConflict {
            return Err("无法打开文件夹".to_owned());
        }
        match kind {
            FolderKind::Dir => {
                let ghost p0 = strings_view(self.prefix@);
                let ghost s0 = segs_view(self.segments@);
                self.prefix.push(name.to_string());
                self.segments.push((name.to_string(), false));
                assert(strings_view(self.prefix@) == p0.push(name@));
                assert(segs_view(self.segments@) == s0.push((name@, false)));
                self.refresh_rows();
                Ok(())
            },
            FolderKind::Archive => {
                let ghost old_self = *self;
                let left_read = self.read_side("left", name, read);
                let right_read = self.read_side("right", name, read);
                let ghost lr = left_read;
                let ghost rr = right_read;
                let frame = Frame {
                    left_src: copy_source(&self.left_src),
                    right_src: copy_source(&self.right_src),
                    left_tree: copy_tree(&self.left_tree),
                    right_tree: copy_tree(&self.right_tree),
                    prefix: copy_strings(&self.prefix),
                    segments: copy_segments(&self.segments),
                };
                self.stack.push(frame);
                assert(self.stack@.drop_last() == old_self.stack@);
                let new_left = match &left_read {
                    Ok(bytes) => match scan_zip_bytes(bytes.as_slice()) {
                        Ok(t) => t,
                        Err(e) => {
                            proof {
                                if let Some(entries) = zip_listing(bytes@) {
                                    lemma_scan_error_messages(entries);
                                }
                                assert(lr == Ok::<Vec<u8>, String>(*bytes));
                                assert(old_self.path_read(*read, "left"@, seq![name@], Ok(*bytes)));
                            }
                            return Err(e);
                        },
                    },
                    Err(_) => FolderNode::dir(),
                };
                proof {
                    if let Ok(bytes) = lr {
                        lemma_scan_ok_wf(bytes@, new_left);
                    }
                }
                self.left_tree = new_left;
                let new_right = match &right_read {
                    Ok(bytes) => match scan_zip_bytes(bytes.as_slice()) {
                        Ok(t) => t,
                        Err(e) => {
                            proof {
                                if let Some(entries) = zip_listing(bytes@) {
                                    lemma_scan_error_messages(entries);
                                }
                                assert(rr == Ok::<Vec<u8>, String>(*bytes));
                                assert(old_self.path_read(*read, "right"@, seq![name@], Ok(*bytes)));
                            }
                            return Err(e);
                        },
                    },
                    Err(_) => FolderNode::dir(),
                };
                proof {
                    if let Ok(bytes) = rr {
                        lemma_scan_ok_wf(bytes@, new_right);
                    }
                }
                self.right_tree = new_right;
                self.left_src = match left_read {
                    Ok(bytes) => Source::Memory(bytes),
                    Err(_) => Source::Memory(Vec::new()),
                };
                self.right_src = match right_read {
                    Ok(bytes) => Source::Memory(bytes),
                    Err(_) => Source::Memory(Vec::new()),
                };
                self.prefix = Vec::new();
                let ghost s0 = segs_view(self.segments@);
                self.segments.push((name.to_string(), true));
                assert(segs_view(self.segments@) == s0.push((name@, true)));
                assert(strings_view(self.prefix@) == Seq::<Seq<char>>::empty());
                self.refresh_rows();
                proof {
                    assert(old_self.path_read(*read, "left"@, seq![name@], lr));
                    assert(old_self.path_read(*read, "right"@, seq![name@], rr));
                }
                Ok(())
            },
            FolderKind::File => Err("无法打开文件夹".to_owned()),
        }
    }

    /// Goes one folder up, or back to the level an archive was entered
    /// from; at the top of the first level there is nothing above.
    pub fn up(&mut self) -> (r: Result<(), String>)
        requires
            old(self).inv(),
        ensures
            final(self).inv(),
            old(self).prefix@.len() > 0 ==> (r is Ok && went_up_folder(*old(self), *final(self))),
            old(self).prefix@.len() == 0 && old(self).stack@.len() > 0 ==> (r is Ok && left_archive(
                *old(self),
                *final(self),
            )),
            old(self).prefix@.len() == 0 && old(self).stack@.len() == 0 ==> (r matches Err(e) && e@
                == folder_message() && *final(self) == *old(self)),
    {
        if self.prefix.len() > 0 {
            let ghost p0 = strings_view(self.prefix@);
            let ghost s0 = segs_view(self.segments@);
            self.prefix.pop();
            assert(strings_view(self.prefix@) == p0.drop_last());
            if self.segments.len() > 0 {
                self.segments.pop();
                assert(segs_view(self.segments@) == s0.drop_last());
            }
            self.refresh_rows();
            return Ok(());
        }
        if self.stack.len() == 0 {
            return Err("无法打开文件夹".to_owned());
        }
        let ghost st = self.stack@;
        let frame = self.stack.pop().unwrap();
        assert(frame == st.last());
        assert(wf(frame.left_tree) && wf(frame.right_tree));
        self.left_src = frame.left_src;
        self.right_src = frame.right_src;
        self.left_tree = frame.left_tree;
        self.right_tree = frame.right_tree;
        self.prefix = frame.prefix;
        self.segments = frame.segments;
        self.refresh_rows();
        Ok(())
    }
}

proof fn lemma_sorted_unique(a: Seq<Seq<char>>, b: Seq<Seq<char>>)
    requires
        strictly_sorted(a),
        strictly_sorted(b),
        forall|n: Seq<char>| a.contains(n) <==> b.contains(n),
    ensures
        a == b,
    decreases a.len(),
{
    if a.len() == 0 {
        if b.len() > 0 {
            assert(b.contains(b[0]));
        }
        assert(a =~= b);
    } else if b.len() == 0 {
        assert(a.contains(a[0]));
    } else {
        assert(a.contains(a[0]));
        assert(b.contains(b[0]));
        let j = choose|j: int| 0 <= j < b.len() && b[j] == a[0];
        let k = choose|k: int| 0 <= k < a.len() && a[k] == b[0];
        if a[0] != b[0] {
            assert(j > 0 && k > 0);
            assert(name_lt(b[0], b[j]));
            assert(name_lt(a[0], a[k]));
            lemma_name_lt_asymmetric(a[0], b[0]);
        }
        let a1 = a.drop_first();
        let b1 = b.drop_first();
        assert forall|n: Seq<char>| a1.contains(n) <==> b1.contains(n) by {
            if a1.contains(n) {
                let i = choose|i: int| 0 <= i < a1.len() && a1[i] == n;
                assert(name_lt(a[0], a[i + 1]));
                lemma_name_lt_irreflexive(n);
                assert(b.contains(n));
                let t = choose|t: int| 0 <= t < b.len() && b[t] == n;
                assert(t != 0);
                assert(b1[t - 1] == n);
            }
            if b1.contains(n) {
                let i = choose|i: int| 0 <= i < b1.len() && b1[i] == n;
                assert(name_lt(b[0], b[i + 1]));
                lemma_name_lt_irreflexive(n);
                assert(a.contains(n));
                let t = choose|t: int| 0 <= t < a.len() && a[t] == n;
                assert(t != 0);
                assert(a1[t - 1] == n);
            }
        }
        assert(strictly_sorted(a1)) by {
            assert forall|i: int, j: int| 0 <= i < j < a1.len() implies name_lt(#[trigger] a1[i], #[trigger] a1[j]) by {
                assert(a1[i] == a[i + 1] && a1[j] == a[j + 1]);
            }
        }
        assert(strictly_sorted(b1)) by {
            assert forall|i: int, j: int| 0 <= i < j < b1.len() implies name_lt(#[trigger] b1[i], #[trigger] b1[j]) by {
                assert(b1[i] == b[i + 1] && b1[j] == b[j + 1]);
            }
        }
        lemma_sorted_unique(a1, b1);
        assert(a =~= b) by {
            assert forall|i: int| 0 <= i < a.len() implies a[i] == b[i] by {
                if i > 0 {
                    assert(a[i] == a1[i - 1] && b[i] == b1[i - 1]);
                }
            }
        }
    }
}

/// Two listings of the same pair of child lists are the same rows.
pub proof fn lemma_aligned_unique(
    l: Seq<(String, FolderNode)>,
    r: Seq<(String, FolderNode)>,
    a: Seq<FolderRowView>,
    b: Seq<FolderRowView>,
)
    requires
        aligned(l, r, a),
        aligned(l, r, b),
    ensures
        a == b,
{
    assert forall|n: Seq<char>| row_names(a).contains(n) <==> row_names(b).contains(n) by {
        assert(row_names(a).contains(n) <==> (lookup(l, n) is Some || lookup(r, n) is Some));
        assert(row_names(b).contains(n) <==> (lookup(l, n) is Some || lookup(r, n) is Some));
    }
    lemma_sorted_unique(row_names(a), row_names(b));
    assert(a.len() == row_names(a).len() && b.len() == row_names(b).len());
    assert forall|i: int| 0 <= i < a.len() implies a[i] == b[i] by {
        assert(row_names(a)[i] == a[i].name);
        assert(row_names(b)[i] == b[i].name);
        assert(a[i] == row_for(a[i].name, lookup(l, a[i].name), lookup(r, a[i].name)));
        assert(b[i] == row_for(b[i].name, lookup(l, b[i].name), lookup(r, b[i].name)));
    }
    assert(a =~= b);
}

/// Entering a folder and going back up shows the same folder, path bar and
/// rows as before.
pub proof fn law_enter_folder_then_up(s0: FolderSession, name: Seq<char>, s1: FolderSession, s2: FolderSession)
    requires
        s0.rows_ok(),
        entered_folder(s0, name, s1),
        went_up_folder(s1, s2),
    ensures
        strings_view(s2.prefix@) == strings_view(s0.prefix@),
        segs_view(s2.segments@) == segs_view(s0.segments@),
        folder_rows_view(s2.rows@) == folder_rows_view(s0.rows@),
{
    assert(strings_view(s0.prefix@).push(name).drop_last() == strings_view(s0.prefix@));
    assert(segs_view(s0.segments@).push((name, false)).drop_last() == segs_view(s0.segments@));
    assert(segs_view(s1.segments@).len() > 0);
    lemma_aligned_unique(
        children_at_spec(s0.left_tree, strings_view(s0.prefix@)),
        children_at_spec(s0.right_tree, strings_view(s0.prefix@)),
        folder_rows_view(s2.rows@),
        folder_rows_view(s0.rows@),
    );
}

/// Entering an archive succeeds when, on each side, reading it fails or
/// gives bytes that hold an archive whose entries all read.
pub proof fn law_enter_archive_succeeds<F: Fn(FileRead) -> Result<Vec<u8>, String>>(
    read: F,
    s0: FolderSession,
    name: Seq<char>,
    s1: FolderSession,
    r: Result<(), String>,
)
    requires
        entered_archive(read, s0, name, s1, r),
        forall|side: Seq<char>, b: Vec<u8>|
            #![trigger s0.path_read(read, side, seq![name], Ok(b))]
            s0.path_read(read, side, seq![name], Ok(b)) ==> (zip_listing(b@) matches Some(es)
                && scan_error(es) is None),
    ensures
        r is Ok,
{
}

/// Entering an archive and going back up returns to the sources, trees
/// (as copies), folder shown, path bar and rows from before.
pub proof fn law_enter_archive_then_up<F: Fn(FileRead) -> Result<Vec<u8>, String>>(
    read: F,
    s0: FolderSession,
    name: Seq<char>,
    s1: FolderSession,
    s2: FolderSession,
)
    requires
        s0.rows_ok(),
        entered_archive(read, s0, name, s1, Ok(())),
        left_archive(s1, s2),
    ensures
        s2.left_src@ == s0.left_src@,
        s2.right_src@ == s0.right_src@,
        same_tree(s2.left_tree, s0.left_tree),
        same_tree(s2.right_tree, s0.right_tree),
        s2.prefix@ == s0.prefix@,
        s2.segments@ == s0.segments@,
        s2.stack@ == s0.stack@,
        s2.rows_ok(),
        folder_rows_view(s2.rows@) == folder_rows_view(s0.rows@),
{
    let p = strings_view(s0.prefix@);
    assert(strings_view(s2.prefix@) == p);
    lemma_node_at_same(s2.left_tree, s0.left_tree, p);
    lemma_node_at_same(s2.right_tree, s0.right_tree, p);
    let l2 = children_at_spec(s2.left_tree, p);
    let l0 = children_at_spec(s0.left_tree, p);
    let r2 = children_at_spec(s2.right_tree, p);
    let r0 = children_at_spec(s0.right_tree, p);
    assert(same_list(l2, l0));
    assert(same_list(r2, r0));
    lemma_aligned_same(l2, l0, r2, r0, folder_rows_view(s2.rows@));
    lemma_aligned_unique(l0, r0, folder_rows_view(s2.rows@), folder_rows_view(s0.rows@));
}


/// What the header counts is what the filtered views list: all rows, the
/// equal ones (`"same"`) and the others (`"diff"`); and at the top of the
/// first level, where there is nothing to go up to, the path bar is empty.
pub proof fn law_summary_agrees_with_windows(s: FolderSession)
    requires
        s.inv(),
    ensures
        matching_folder_rows(folder_rows_view(s.rows@), filter_of("all"@)).len() == s.rows@.len(),
        matching_folder_rows(folder_rows_view(s.rows@), filter_of("same"@)).len() == count_equal(
            folder_rows_view(s.rows@),
        ),
        matching_folder_rows(folder_rows_view(s.rows@), filter_of("diff"@)).len() == s.rows@.len()
            - count_equal(folder_rows_view(s.rows@)),
        !(s.prefix@.len() > 0 || s.stack@.len() > 0) ==> path_bar_spec(s.segments@) == Seq::<
            char,
        >::empty(),
{
    reveal_strlit("all");
    reveal_strlit("same");
    reveal_strlit("diff");
    assert("all"@.len() != "same"@.len() && "all"@.len() != "diff"@.len());
    assert("diff"@[0] != "same"@[0]);
    assert(filter_of("all"@) == RowFilter::All);
    assert(filter_of("same"@) == RowFilter::Same);
    assert(filter_of("diff"@) == RowFilter::Diff);
    law_counts_match_filters(folder_rows_view(s.rows@));
    assert(folder_rows_view(s.rows@).len() == s.rows@.len());
}

/// The path bar depends on the names and archive flags of its segments only.
proof fn lemma_path_bar_segs(a: Seq<(String, bool)>, b: Seq<(String, bool)>)
    requires
        segs_view(a) == segs_view(b),
    ensures
        path_bar_spec(a) == path_bar_spec(b),
    decreases a.len(),
{
    assert(a.len() == segs_view(a).len() && b.len() == segs_view(b).len());
    if a.len() > 0 {
        assert(segs_view(a.drop_last()) =~= segs_view(a).drop_last());
        assert(segs_view(b.drop_last()) =~= segs_view(b).drop_last());
        lemma_path_bar_segs(a.drop_last(), b.drop_last());
        assert(segs_view(a)[a.len() - 1] == segs_view(b)[b.len() - 1]);
    }
}

/// A segment added at the end adds its name and `/` (`!/` for an archive)
/// to the path bar.
proof fn lemma_path_bar_push(a: Seq<(String, bool)>, b: Seq<(String, bool)>, name: Seq<char>, archive: bool)
    requires
        segs_view(b) == segs_view(a).push((name, archive)),
    ensures
        path_bar_spec(b) == path_bar_spec(a) + name + if archive {
            "!/"@
        } else {
            "/"@
        },
{
    assert(b.len() == segs_view(b).len() && a.len() == segs_view(a).len());
    assert(segs_view(b.drop_last()) =~= segs_view(b).drop_last());
    assert(segs_view(a).push((name, archive)).drop_last() == segs_view(a));
    lemma_path_bar_segs(b.drop_last(), a);
    assert(segs_view(b)[b.len() - 1] == (name, archive));
    assert(path_segment(b.last()) == name + if archive {
        "!/"@
    } else {
        "/"@
    });
}

/// Entering a folder adds its name and `/` to the path bar and leaves a
/// way back up.
pub proof fn law_enter_folder_path_bar(s0: FolderSession, name: Seq<char>, s1: FolderSession)
    requires
        entered_folder(s0, name, s1),
    ensures
        path_bar_spec(s1.segments@) == path_bar_spec(s0.segments@) + name + "/"@,
        s1.prefix@.len() > 0,
{
    lemma_path_bar_push(s0.segments@, s1.segments@, name, false);
    assert(strings_view(s1.prefix@).len() == s1.prefix@.len());
}

/// Entering an archive adds its name and `!/` to the path bar and leaves a
/// way back up.
pub proof fn law_enter_archive_path_bar<F: Fn(FileRead) -> Result<Vec<u8>, String>>(
    read: F,
    s0: FolderSession,
    name: Seq<char>,
    s1: FolderSession,
)
    requires
        entered_archive(read, s0, name, s1, Ok(())),
    ensures
        path_bar_spec(s1.segments@) == path_bar_spec(s0.segments@) + name + "!/"@,
        s1.stack@.len() > 0,
{
    lemma_path_bar_push(s0.segments@, s1.segments@, name, true);
}

/// `new` is `old` with the children of the node at `path` replaced by `ch`;
/// when there is no such node nothing changes.
pub open spec fn replaced_at(
    old: FolderNode,
    new: FolderNode,
    path: Seq<Seq<char>>,
    ch: Seq<(String, FolderNode)>,
) -> bool
    decreases path.len(),
{
    &&& new.kind == old.kind
    &&& new.hash == old.hash
    &&& new.size == old.size
    &&& new.mtime == old.mtime
    &&& if path.len() == 0 {
        new.children@ == ch
    } else {
        match lookup(old.children@, path[0]) {
            None => new.children@ == old.children@,
            Some(oc) => {
                &&& forall|n: Seq<char>|
                    n != path[0] ==> #[trigger] lookup(new.children@, n) == lookup(old.children@, n)
                &&& lookup(new.children@, path[0]) matches Some(nc) && replaced_at(
                    oc,
                    nc,
                    path.drop_first(),
                    ch,
                )
            },
        }
    }
}

fn set_children_at(
    node: &mut FolderNode,
    path: &[String],
    i: usize,
    end: usize,
    children: Vec<(String, FolderNode)>,
)
    requires
        wf(*old(node)),
        wf_children(children@),
        i <= end <= path@.len(),
    ensures
        wf(*final(node)),
        replaced_at(*old(node), *final(node), strings_view(path@).subrange(i as int, end as int), children@),
    decreases end - i,
{
    let ghost p = strings_view(path@).subrange(i as int, end as int);
    let ghost ch = children@;
    if i == end {
        node.children = children;
        return ;
    }
    assert(p[0] == path@[i as int]@);
    assert(p.drop_first() == strings_view(path@).subrange(i + 1, end as int));
    let ghost before = node.children@;
    match find_child(&node.children, path[i].as_str()) {
        None => {
            proof {
                lemma_lookup_none(before, p[0]);
            }
        },
        Some(idx) => {
            proof {
                lemma_lookup_first(before, idx as int);
            }
            let (nm, mut c) = node.children.remove(idx);
            assert(c == before[idx as int].1);
            assert(wf(c));
            set_children_at(&mut c, path, i + 1, end, children);
            let entry = (nm, c);
            node.children.insert(idx, entry);
            proof {
                assert(node.children@ == before.update(idx as int, entry));
                lemma_wf_children_update(before, idx as int, entry);
                assert forall|n: Seq<char>| #[trigger] lookup(node.children@, n) == if n == p[0] {
                    Some(c)
                } else {
                    lookup(before, n)
                } by {
                    lemma_lookup_update(before, idx as int, entry, n);
                }
                assert(lookup(node.children@, p[0]) == Some(c));
            }
        },
    }
}

proof fn lemma_first_key_unique(nested: Seq<(String, Source)>, key: Seq<char>, i: int, j: int)
    requires
        first_key(nested, key, i),
        first_key(nested, key, j),
    ensures
        i == j,
{
    if i < j {
        assert(nested[i].0@ != key);
    } else if j < i {
        assert(nested[j].0@ != key);
    }
}

/// Two lists with the same names at the same positions, and the same
/// entries wherever the name is not `key`, keep the same archives under
/// every other key.
proof fn lemma_nested_lookup_frame(a: Seq<(String, Source)>, b: Seq<(String, Source)>, key: Seq<char>, k: Seq<char>)
    requires
        a.len() <= b.len(),
        forall|j: int| 0 <= j < a.len() ==> (#[trigger] b[j]).0@ == a[j].0@,
        forall|j: int| 0 <= j < a.len() && a[j].0@ != key ==> #[trigger] b[j] == a[j],
        forall|j: int| a.len() <= j < b.len() ==> (#[trigger] b[j]).0@ == key,
        k != key,
    ensures
        nested_lookup(b, k) == nested_lookup(a, k),
{
    if exists|i: int| first_key(a, k, i) {
        let i = choose|i: int| first_key(a, k, i);
        assert(first_key(b, k, i)) by {
            assert forall|j: int| 0 <= j < i implies (#[trigger] b[j]).0@ != k by {
                assert(a[j].0@ != k);
            }
        }
        let c = choose|c: int| first_key(b, k, c);
        lemma_first_key_unique(b, k, i, c);
    } else {
        assert forall|i: int| !first_key(b, k, i) by {
            if first_key(b, k, i) {
                if i >= a.len() {
                    assert(b[i].0@ == key);
                } else {
                    assert forall|j: int| 0 <= j < i implies (#[trigger] a[j]).0@ != k by {
                        assert(b[j].0@ != k);
                    }
                    assert(first_key(a, k, i));
                }
            }
        }
    }
}

fn nested_insert(nested: &mut Vec<(String, Source)>, key: String, src: Source)
    ensures
        nested_lookup(final(nested)@, key@) == Some(src),
        forall|k: Seq<char>|
            k != key@ ==> #[trigger] nested_lookup(final(nested)@, k) == nested_lookup(old(nested)@, k),
{
    let ghost a = nested@;
    let ghost kv = key@;
    match find_nested(nested, key.as_str()) {
        Some(i) => {
            let entry = (key, src);
            nested.set(i, entry);
            proof {
                assert(nested@ == a.update(i as int, entry));
                assert(first_key(nested@, kv, i as int)) by {
                    assert forall|j: int| 0 <= j < i implies (#[trigger] nested@[j]).0@ != kv by {
                        assert(a[j].0@ != kv);
                    }
                }
                let c = choose|c: int| first_key(nested@, kv, c);
                lemma_first_key_unique(nested@, kv, i as int, c);
                assert forall|k: Seq<char>| k != kv implies #[trigger] nested_lookup(nested@, k)
                    == nested_lookup(a, k) by {
                    lemma_nested_lookup_frame(a, nested@, kv, k);
                }
            }
        },
        None => {
            let entry = (key, src);
            nested.push(entry);
            proof {
                assert(nested@ == a.push(entry));
                assert(first_key(nested@, kv, a.len() as int));
                let c = choose|c: int| first_key(nested@, kv, c);
                lemma_first_key_unique(nested@, kv, a.len() as int, c);
                assert forall|k: Seq<char>| k != kv implies #[trigger] nested_lookup(nested@, k)
                    == nested_lookup(a, k) by {
                    lemma_nested_lookup_frame(a, nested@, kv, k);
                }
            }
        },
    }
}

/// Whether the node at the non-empty `path` is an archive: the left node's
/// kind decides when there is one, the right node's otherwise.
pub open spec fn archive_at(s: FolderSession, path: Seq<Seq<char>>) -> bool {
    path.len() > 0 && match node_at_spec(s.left_tree, path) {
        Some(n) => n.kind == FolderKind::Archive,
        None => node_at_spec(s.right_tree, path) matches Some(n) && n.kind == FolderKind::Archive,
    }
}

/// The node at `path` is an archive not yet read.
pub open spec fn unread_archive(t: FolderNode, path: Seq<Seq<char>>) -> bool {
    node_at_spec(t, path) matches Some(n) && n.kind == FolderKind::Archive && n.children@.len() == 0
}

/// One side after making sure of the archive at `path`. When the node at
/// `path` is an archive (as [`archive_at`] decides) not yet read on this
/// side, the side's read of `path` is made: bytes that scan are hung below
/// the node and kept under the side's key, and a failed read leaves the side
/// as it was. Otherwise the side and its kept archive stay as they were.
pub open spec fn side_filled<F: Fn(FileRead) -> Result<Vec<u8>, String>>(
    read: F,
    old: FolderSession,
    side: Seq<char>,
    path: Seq<Seq<char>>,
    ot: FolderNode,
    nt: FolderNode,
    nested: Seq<(String, Source)>,
) -> bool {
    let key = nested_key(side, path);
    if archive_at(old, path) && unread_archive(ot, path) {
        exists|lr: Result<Vec<u8>, String>|
            #![trigger old.path_read(read, side, path, lr)]
            old.path_read(read, side, path, lr) && match lr {
                Ok(b) => exists|t: FolderNode|
                    #![trigger scan_result(b@, Ok(t))]
                    scan_result(b@, Ok(t)) && replaced_at(ot, nt, path, t.children@) && (nested_lookup(
                        nested,
                        key,
                    ) matches Some(src) && src@ == SourceView::Memory(b@)),
                Err(_) => nt == ot && nested_lookup(nested, key) == nested_lookup(old.nested@, key),
            }
    } else {
        nt == ot && nested_lookup(nested, key) == nested_lookup(old.nested@, key)
    }
}

/// The kept archives of `new` are those of `old` under every key but the
/// two of `path`.
pub open spec fn nested_kept(old: Seq<(String, Source)>, new: Seq<(String, Source)>, path: Seq<Seq<char>>) -> bool {
    forall|k: Seq<char>|
        k != nested_key("left"@, path) && k != nested_key("right"@, path) ==> #[trigger] nested_lookup(new, k)
            == nested_lookup(old, k)
}

/// `new` is `old` after making sure of the archive at `path`: only the two
/// trees (and the kept archive bytes) may change, and only as
/// [`side_filled`] allows; where the node at `path` is no archive nothing
/// changes.
pub open spec fn archive_step<F: Fn(FileRead) -> Result<Vec<u8>, String>>(
    read: F,
    old: FolderSession,
    path: Seq<Seq<char>>,
    new: FolderSession,
) -> bool {
    &&& new.left_src == old.left_src
    &&& new.right_src == old.right_src
    &&& new.prefix == old.prefix
    &&& new.segments == old.segments
    &&& new.stack == old.stack
    &&& new.rows == old.rows
    &&& !archive_at(old, path) ==> new == old
    &&& nested_kept(old.nested@, new.nested@, path)
    &&& side_filled(read, old, "left"@, path, old.left_tree, new.left_tree, new.nested@)
    &&& side_filled(read, old, "right"@, path, old.right_tree, new.right_tree, new.nested@)
}

/// `new` is `old` after a failed attempt at the archive at `path`: a side's
/// read gave bytes that did not scan, with error `e`; the left side may
/// already hold its scanned archive when the right one failed.
pub open spec fn archive_failed<F: Fn(FileRead) -> Result<Vec<u8>, String>>(
    read: F,
    old: FolderSession,
    path: Seq<Seq<char>>,
    new: FolderSession,
    e: String,
) -> bool {
    &&& new.left_src == old.left_src
    &&& new.right_src == old.right_src
    &&& new.prefix == old.prefix
    &&& new.segments == old.segments
    &&& new.stack == old.stack
    &&& new.rows == old.rows
    &&& archive_at(old, path)
    &&& new.right_tree == old.right_tree
    &&& nested_kept(old.nested@, new.nested@, path)
    &&& nested_lookup(new.nested@, nested_key("right"@, path)) == nested_lookup(
        old.nested@,
        nested_key("right"@, path),
    )
    &&& {
        ||| {
            &&& unread_archive(old.left_tree, path)
            &&& new.left_tree == old.left_tree
            &&& nested_lookup(new.nested@, nested_key("left"@, path)) == nested_lookup(
                old.nested@,
                nested_key("left"@, path),
            )
            &&& exists|b: Vec<u8>|
                #![trigger old.path_read(read, "left"@, path, Ok(b))]
                old.path_read(read, "left"@, path, Ok(b)) && scan_result(b@, Err(e))
        }
        ||| {
            &&& side_filled(read, old, "left"@, path, old.left_tree, new.left_tree, new.nested@)
            &&& unread_archive(old.right_tree, path)
            &&& exists|b: Vec<u8>|
                #![trigger old.path_read(read, "right"@, path, Ok(b))]
                old.path_read(read, "right"@, path, Ok(b)) && scan_result(b@, Err(e))
        }
    }
}

/// The steps of a listing along `path` keep both trees when every archive
/// along it has been read on both sides.
proof fn lemma_steps_keep_trees<F: Fn(FileRead) -> Result<Vec<u8>, String>>(
    read: F,
    s1: FolderSession,
    path: Seq<Seq<char>>,
    states: Seq<FolderSession>,
    k: int,
)
    requires
        0 <= k < states.len(),
        states.len() == path.len() + 1,
        states[0] == s1,
        forall|j: int|
            1 <= j <= path.len() ==> !unread_archive(s1.left_tree, #[trigger] path.take(j))
                && !unread_archive(s1.right_tree, path.take(j)),
        forall|j: int|
            0 <= j < states.len() - 1 ==> #[trigger] archive_step(read, states[j], path.take(j + 1), states[j + 1]),
    ensures
        states[k].left_tree == s1.left_tree,
        states[k].right_tree == s1.right_tree,
    decreases k,
{
    if k > 0 {
        lemma_steps_keep_trees(read, s1, path, states, k - 1);
        let j = k - 1;
        assert(archive_step(read, states[j], path.take(j + 1), states[j + 1]));
        assert(!unread_archive(s1.left_tree, path.take(j + 1)));
    }
}

/// Once every archive along `path` has been read on both sides, listing
/// the children at `path` again reads nothing: every step of the second
/// listing keeps both trees, so the rows it gives are those of the first.
pub proof fn law_children_at_again<F: Fn(FileRead) -> Result<Vec<u8>, String>>(
    read: F,
    s1: FolderSession,
    path: Seq<Seq<char>>,
    states: Seq<FolderSession>,
    rows1: Seq<FolderRowView>,
    rows2: Seq<FolderRowView>,
)
    requires
        forall|k: int|
            1 <= k <= path.len() ==> !unread_archive(s1.left_tree, #[trigger] path.take(k))
                && !unread_archive(s1.right_tree, path.take(k)),
        states.len() == path.len() + 1,
        states[0] == s1,
        forall|k: int|
            0 <= k < states.len() - 1 ==> #[trigger] archive_step(read, states[k], path.take(k + 1), states[k + 1]),
        aligned(children_at_spec(s1.left_tree, path), children_at_spec(s1.right_tree, path), rows1),
        aligned(
            children_at_spec(states.last().left_tree, path),
            children_at_spec(states.last().right_tree, path),
            rows2,
        ),
    ensures
        states.last().left_tree == s1.left_tree,
        states.last().right_tree == s1.right_tree,
        rows2 == rows1,
{
    lemma_steps_keep_trees(read, s1, path, states, states.len() - 1);
    lemma_aligned_unique(
        children_at_spec(s1.left_tree, path),
        children_at_spec(s1.right_tree, path),
        rows2,
        rows1,
    );
}

fn copy_prefix(path: &[String], end: usize) -> (r: Vec<String>)
    requires
        end <= path@.len(),
    ensures
        strings_view(r@) == strings_view(path@).take(end as int),
{
    let ghost p = strings_view(path@);
    let mut out: Vec<String> = Vec::new();
    let mut i: usize = 0;
    while i < end
        invariant
            i <= end <= path@.len(),
            p == strings_view(path@),
            strings_view(out@) == p.take(i as int),
        decreases end - i,
    {
        let ghost o0 = out@;
        out.push(path[i].clone());
        assert(strings_view(out@) == strings_view(o0).push(path@[i as int]@));
        assert(p.take(i + 1) == p.take(i as int).push(p[i as int]));
        i += 1;
    }
    out
}

impl FolderSession {
    /// Makes sure the archive at the first `end` names of `path` has been
    /// read: on each side where it is an archive not read yet, its bytes are
    /// read, scanned and hung below it, and kept for reads further down.
    fn ensure_archive<F: Fn(FileRead) -> Result<Vec<u8>, String>>(
        &mut self,
        path: &[String],
        end: usize,
        read: &F,
    ) -> (r: Result<(), String>)
        requires
            old(self).inv(),
            reads_allowed(*read),
            end <= path@.len(),
        ensures
            final(self).inv(),
            r is Ok ==> archive_step(*read, *old(self), strings_view(path@).take(end as int), *final(self)),
            r matches Err(e) ==> (e@ == bad_archive_message() || e@ == cannot_open_message()),
            r matches Err(e) ==> archive_failed(
                *read,
                *old(self),
                strings_view(path@).take(end as int),
                *final(self),
                e,
            ),
    {
        let ghost p = strings_view(path@).take(end as int);
        let ghost old_self = *self;
        assert(strings_view(path@).subrange(0, end as int) == p);
        if end == 0 {
            return Ok(());
        }
        let ln = node_at(&self.left_tree, path, 0, end);
        let rn = node_at(&self.right_tree, path, 0, end);
        let archive = match ln {
            Some(n) => n.kind == FolderKind::Archive,
            None => match rn {
                Some(n) => n.kind == FolderKind::Archive,
                None => false,
            },
        };
        if !archive {
            return Ok(());
        }
        let need_left = match ln {
            Some(n) => n.kind == FolderKind::Archive && n.children.len() == 0,
            None => false,
        };
        let need_right = match rn {
            Some(n) => n.kind == FolderKind::Archive && n.children.len() == 0,
            None => false,
        };
        let sub = copy_prefix(path, end);
        let key_path = join_range(path, 0, end);
        proof {
            reveal_strlit("left");
            reveal_strlit("right");
            assert(nested_key("left"@, p)[0] == 'l');
            assert(nested_key("right"@, p)[0] == 'r');
        }
        let left_read = if need_left {
            Some(self.read_path("left", sub.as_slice(), read))
        } else {
            None
        };
        let left_inner = match &left_read {
            Some(Ok(bytes)) => match scan_zip_bytes(bytes.as_slice()) {
                Ok(t) => Some(t),
                Err(e) => {
                    proof {
                        if let Some(entries) = zip_listing(bytes@) {
                            lemma_scan_error_messages(entries);
                        }
                        assert(old_self.path_read(*read, "left"@, p, Ok(*bytes)));
                        assert(unread_archive(old_self.left_tree, p));
                    }
                    return Err(e);
                },
            },
            _ => None,
        };
        let right_read = if need_right {
            Some(self.read_path("right", sub.as_slice(), read))
        } else {
            None
        };
        let ghost lread = left_read;
        let ghost rread = right_read;
        proof {
            if need_left {
                assert(old_self.path_read(*read, "left"@, p, lread->0));
            }
        }
        match left_inner {
            Some(inner) => {
                let ghost t = inner;
                proof {
                    lemma_scan_ok_wf(lread->0->Ok_0@, inner);
                    assert(scan_result(lread->0->Ok_0@, Ok(t)));
                }
                set_children_at(&mut self.left_tree, path, 0, end, inner.children);
                let mut key = "left".to_owned();
                key.append(":");
                key.append(key_path.as_str());
                match left_read {
                    Some(Ok(bytes)) => nested_insert(&mut self.nested, key, Source::Memory(bytes)),
                    _ => {},
                }
            },
            None => {},
        }
        let ghost mid = *self;
        match right_read {
            Some(Ok(bytes)) => {
                let inner = match scan_zip_bytes(bytes.as_slice()) {
                    Ok(t) => t,
                    Err(e) => {
                        proof {
                            if let Some(entries) = zip_listing(bytes@) {
                                lemma_scan_error_messages(entries);
                            }
                            assert(old_self.path_read(*read, "right"@, p, Ok(bytes)));
                            assert(unread_archive(old_self.right_tree, p));
                            reveal_strlit("left");
                            reveal_strlit("right");
                            assert("right"@ != "left"@);
                        }
                        return Err(e);
                    },
                };
                let ghost t = inner;
                proof {
                    lemma_scan_ok_wf(bytes@, inner);
                    assert(scan_result(bytes@, Ok(t)));
                }
                set_children_at(&mut self.right_tree, path, 0, end, inner.children);
                let mut key = "right".to_owned();
                key.append(":");
                key.append(key_path.as_str());
                nested_insert(&mut self.nested, key, Source::Memory(bytes));
            },
            _ => {},
        }
        Ok(())
    }

    /// The rows of the folder at `path` below the current root, reading on
    /// the way every archive of the path that has not been read yet.
    pub fn children_at<F: Fn(FileRead) -> Result<Vec<u8>, String>>(
        &mut self,
        path: &[String],
        read: &F,
    ) -> (r: Result<Vec<FolderRow>, String>)
        requires
            old(self).inv(),
            reads_allowed(*read),
        ensures
            final(self).inv(),
            final(self).left_src == old(self).left_src,
            final(self).right_src == old(self).right_src,
            final(self).prefix == old(self).prefix,
            final(self).segments == old(self).segments,
            final(self).stack == old(self).stack,
            final(self).rows == old(self).rows,
            r matches Err(e) ==> (e@ == bad_archive_message() || e@ == cannot_open_message()),
            r matches Ok(rows) ==> aligned(
                children_at_spec(final(self).left_tree, strings_view(path@)),
                children_at_spec(final(self).right_tree, strings_view(path@)),
                folder_rows_view(rows@),
            ),
            exists|states: Seq<FolderSession>|
                1 <= states.len() <= path@.len() + 1 && states[0] == *old(self) && (forall|k: int|
                    0 <= k < states.len() - 1 ==> #[trigger] archive_step(
                        *read,
                        states[k],
                        strings_view(path@).take(k + 1),
                        states[k + 1],
                    )) && match r {
                    Ok(_) => states.len() == path@.len() + 1 && states.last() == *final(self),
                    Err(e) => states.len() <= path@.len() && archive_failed(
                        *read,
                        states.last(),
                        strings_view(path@).take(states.len() as int),
                        *final(self),
                        e,
                    ),
                },
    {
        let ghost mut states: Seq<FolderSession> = seq![*self];
        let mut i: usize = 0;
        while i < path.len()
            invariant
                i <= path@.len(),
                self.inv(),
                reads_allowed(*read),
                self.left_src == old(self).left_src,
                self.right_src == old(self).right_src,
                self.prefix == old(self).prefix,
                self.segments == old(self).segments,
                self.stack == old(self).stack,
                self.rows == old(self).rows,
                states.len() == i + 1,
                states[0] == *old(self),
                states.last() == *self,
                forall|k: int|
                    0 <= k < i ==> #[trigger] archive_step(
                        *read,
                        states[k],
                        strings_view(path@).take(k + 1),
                        states[k + 1],
                    ),
            decreases path@.len() - i,
        {
            let step = self.ensure_archive(path, i + 1, read);
            match step {
                Ok(()) => {},
                Err(e) => {
                    return Err(e);
                },
            }
            proof {
                let s0 = states;
                states = states.push(*self);
                assert forall|k: int| 0 <= k < i + 1 implies #[trigger] archive_step(
                    *read,
                    states[k],
                    strings_view(path@).take(k + 1),
                    states[k + 1],
                ) by {
                    if k < i {
                        assert(states[k] == s0[k] && states[k + 1] == s0[k + 1]);
                    }
                }
            }
            i += 1;
        }
        Ok(rows_at(&self.left_tree, &self.right_tree, path))
    }
}


/// Bytes that read as UTF-8 text: valid UTF-8 without a NUL byte.
pub open spec fn utf8_text(b: Seq<u8>) -> bool {
    !b.contains(0u8) && valid_utf8(b)
}

/// Whether an entry can be shown as text: never a class file or an
/// archive; always a file with a text extension; any other file when its
/// bytes read as UTF-8 without a NUL byte and fit in [`MAX_FILE_BYTES`].
pub fn entry_is_text(name: &str, bytes: &[u8]) -> (r: bool)
    ensures
        r == (!ends_with_ci(name@, ".class"@) && !archive_name(name@) && (text_name(name@) || (
        utf8_text(bytes@) && bytes@.len() <= MAX_FILE_BYTES))),
{
    if is_class_name(name) {
        return false;
    }
    if is_archive_name(name) {
        return false;
    }
    if is_text_name(name) {
        return true;
    }
    let mut i: usize = 0;
    while i < bytes.len()
        invariant
            i <= bytes@.len(),
            !text_name(name@),
            forall|k: int| 0 <= k < i ==> bytes@[k] != 0u8,
        decreases bytes@.len() - i,
    {
        if bytes[i] == 0 {
            assert(bytes@[i as int] == 0u8);
            assert(bytes@.contains(0u8));
            return false;
        }
        i += 1;
    }
    assert(!bytes@.contains(0u8));
    bytes_as_utf8(bytes).is_ok() && (bytes.len() as u64) <= MAX_FILE_BYTES
}

/// The current folder session, if any, and a count of the sessions started
/// or cancelled.
#[derive(Debug)]
pub struct FolderStore {
    pub session: Option<FolderSession>,
    pub generation: u64,
}

impl Default for FolderStore {
    fn default() -> (s: Self)
        ensures
            s.session is None,
            s.generation == 0,
    {
        FolderStore { session: None, generation: 0 }
    }
}

/// The generation after `g`, wrapping at the top.
pub open spec fn next_generation(g: u64) -> u64 {
    if g == u64::MAX {
        0
    } else {
        (g + 1) as u64
    }
}

impl FolderStore {
    /// Makes `session` the current session.
    pub fn install(&mut self, session: FolderSession)
        ensures
            final(self).session == Some(session),
            final(self).generation == next_generation(old(self).generation),
    {
        self.generation = self.generation.wrapping_add(1);
        self.session = Some(session);
    }

    /// Drops the current session.
    pub fn cancel(&mut self)
        ensures
            final(self).session is None,
            final(self).generation == next_generation(old(self).generation),
    {
        self.generation = self.generation.wrapping_add(1);
        self.session = None;
    }
}

} // verus!
