use vstd::prelude::*;

use similar::{DiffOp, TextDiff};

use crate::chars::{char_vec, push_char};
use vstd::utf8::encode_utf8;
use crate::edit::{
    all_equal_steps, equal_item, equal_total, is_edit_script, keeps_most, common_picks,
    law_shortest_script_keeps_lcs, lemma_pos_bounds, lemma_step_in_bounds, new_pos, old_pos, EditOp};

verus! {

/// How a row of the aligned text relates its two sides.
#[derive(Debug, Clone, Copy, PartialEq, Eq, Structural)]
pub enum DiffKind {
    Equal,
    Delete,
    Insert,
    Replace,
}

/// A run of a line's text, marked when it differs from the other side.
#[derive(Debug, PartialEq, Eq)]
pub struct TextSpan {
    pub text: String,
    pub changed: bool,
}

/// The mathematical value of a [`TextSpan`].
pub struct SpanModel {
    pub text: Seq<char>,
    pub changed: bool,
}

impl View for TextSpan {
    type V = SpanModel;

    open spec fn view(&self) -> SpanModel {
        SpanModel { text: self.text@, changed: self.changed }
    }
}

pub open spec fn spans_view(spans: Seq<TextSpan>) -> Seq<SpanModel> {
    spans.map_values(|s: TextSpan| s@)
}

/// One aligned row: a line of each side (or a gap), its kind, and for rows
/// that are not equal the changed runs of each side.
#[derive(Debug, PartialEq, Eq)]
pub struct DiffRow {
    pub left_line: Option<u32>,
    pub right_line: Option<u32>,
    pub left_text: String,
    pub right_text: String,
    pub kind: DiffKind,
    pub left_spans: Vec<TextSpan>,
    pub right_spans: Vec<TextSpan>,
}

/// The mathematical value of a [`DiffRow`].
pub struct RowModel {
    pub left_line: Option<u32>,
    pub right_line: Option<u32>,
    pub left_text: Seq<char>,
    pub right_text: Seq<char>,
    pub kind: DiffKind,
    pub left_spans: Seq<SpanModel>,
    pub right_spans: Seq<SpanModel>,
}

impl View for DiffRow {
    type V = RowModel;

    open spec fn view(&self) -> RowModel {
        RowModel {
            left_line: self.left_line,
            right_line: self.right_line,
            left_text: self.left_text@,
            right_text: self.right_text@,
            kind: self.kind,
            left_spans: spans_view(self.left_spans@),
            right_spans: spans_view(self.right_spans@),
        }
    }
}

pub open spec fn rows_view(rows: Seq<DiffRow>) -> Seq<RowModel> {
    rows.map_values(|r: DiffRow| r@)
}


impl Clone for TextSpan {
    fn clone(&self) -> (r: Self)
        ensures
            r@ == self@,
    {
        TextSpan { text: self.text.clone(), changed: self.changed }
    }
}

fn clone_spans(spans: &Vec<TextSpan>) -> (r: Vec<TextSpan>)
    ensures
        spans_view(r@) == spans_view(spans@),
{
    let mut out: Vec<TextSpan> = Vec::new();
    let mut i: usize = 0;
    while i < spans.len()
        invariant
            i <= spans@.len(),
            spans_view(out@) == spans_view(spans@).take(i as int),
        decreases spans@.len() - i,
    {
        let c = spans[i].clone();
        assert(c@ == spans@[i as int]@);
        let ghost o0 = out@;
        out.push(c);
        assert(spans_view(out@) == spans_view(o0).push(c@));
        assert(spans_view(out@) == spans_view(spans@).take(i + 1));
        i += 1;
    }
    assert(spans_view(spans@).take(spans@.len() as int) == spans_view(spans@));
    out
}

impl Clone for DiffRow {
    fn clone(&self) -> (r: Self)
        ensures
            r@ == self@,
    {
        DiffRow {
            left_line: self.left_line,
            right_line: self.right_line,
            left_text: self.left_text.clone(),
            right_text: self.right_text.clone(),
            kind: self.kind,
            left_spans: clone_spans(&self.left_spans),
            right_spans: clone_spans(&self.right_spans),
        }
    }
}

/// How many rows of each kind a comparison produced.
#[derive(Debug, Clone, Copy, PartialEq, Eq, Default, Structural)]
pub struct DiffStats {
    pub equal: u32,
    pub insert: u32,
    pub delete: u32,
    pub replace: u32,
}

/// The aligned rows of two texts and their counts by kind.
#[derive(Debug, PartialEq, Eq)]
pub struct DiffResult {
    pub rows: Vec<DiffRow>,
    pub stats: DiffStats,
}

pub open spec fn strings_view(v: Seq<String>) -> Seq<Seq<char>> {
    v.map_values(|s: String| s@)
}

/// Length of the first line of `s`, its terminator (`\n`, `\r\n` or a lone
/// `\r`) included.
pub open spec fn first_line_len(s: Seq<char>) -> int
    decreases s.len(),
{
    if s.len() == 0 {
        0
    } else if s[0] == '\n' {
        1
    } else if s[0] == '\r' {
        if s.len() > 1 && s[1] == '\n' {
            2
        } else {
            1
        }
    } else {
        1 + first_line_len(s.drop_first())
    }
}

/// The lines of `s`, each keeping its terminator; a last line without a
/// terminator is kept as well.
pub open spec fn split_lines(s: Seq<char>) -> Seq<Seq<char>>
    decreases s.len(),
{
    if s.len() == 0 {
        seq![]
    } else {
        let k = first_line_len(s);
        let k = if 1 <= k <= s.len() {
            k
        } else {
            s.len() as int
        };
        seq![s.take(k)] + split_lines(s.skip(k))
    }
}

/// `s` without its trailing `\n` and `\r` characters.
pub open spec fn trim_newlines(s: Seq<char>) -> Seq<char>
    decreases s.len(),
{
    if s.len() > 0 && (s.last() == '\n' || s.last() == '\r') {
        trim_newlines(s.drop_last())
    } else {
        s
    }
}

/// Line diff engine result: the edit script between the lines of two texts.
pub uninterp spec fn line_diff(old: Seq<char>, new: Seq<char>) -> Seq<EditOp>;

/// The lines of both texts and the line-level edit script between them.
pub struct LineDiff {
    pub old_lines: Vec<String>,
    pub new_lines: Vec<String>,
    pub ops: Vec<EditOp>,
}

/// Trusted: `similar::TextDiff::from_lines` with its `old_slices`,
/// `new_slices` and `ops`. The lines are the input split after each `\n`,
/// `\r\n` or lone `\r` (the engine's line tokenizer), and the ops are an edit
/// script between them; which script the engine picks is left to its name.
/// The engine (Myers, with no deadline) starts by matching the common
/// prefix as one equal step, so two equal texts give equal steps only; and
/// it splits at the middle snake of an optimal path, so the script is a
/// shortest one: no common subsequence of the two line lists is longer
/// than what its equal steps keep (the compaction and replace passes that
/// follow move and merge steps without changing that amount).
#[verifier::external_body]
fn diff_lines(left: &str, right: &str) -> (d: LineDiff)
    ensures
        strings_view(d.old_lines@) == split_lines(left@),
        strings_view(d.new_lines@) == split_lines(right@),
        d.ops@ == line_diff(left@, right@),
        is_edit_script(d.ops@, split_lines(left@), split_lines(right@)),
        left@ == right@ ==> all_equal_steps(d.ops@),
        keeps_most(d.ops@, split_lines(left@), split_lines(right@)),
{
    let diff = TextDiff::from_lines(left, right);
    let old_lines = diff.old_slices().iter().map(|s| s.to_string()).collect();
    let new_lines = diff.new_slices().iter().map(|s| s.to_string()).collect();
    let ops = diff.ops().iter().map(|op| match *op {
        DiffOp::Equal { old_index, new_index, len } => EditOp::Equal { old_index, new_index, len },
        DiffOp::Delete { old_index, old_len, new_index } => EditOp::Delete { old_index, old_len, new_index },
        DiffOp::Insert { old_index, new_index, new_len } => EditOp::Insert { old_index, new_index, new_len },
        DiffOp::Replace { old_index, old_len, new_index, new_len } => EditOp::Replace { old_index, old_len, new_index, new_len },
    }).collect();
    LineDiff { old_lines, new_lines, ops }
}

/// The 1-based line number of the `offset`-th line of a range that starts at
/// `start`.
fn line_number(start: usize, offset: usize) -> (n: u32)
    requires
        start + offset + 1 <= u32::MAX,
    ensures
        n == start + offset + 1,
{
    (start + offset + 1) as u32
}

/// `value` without its trailing line terminators.
fn strip_nl(value: &str) -> (s: String)
    ensures
        s@ == trim_newlines(value@),
{
    let chars = char_vec(value);
    let mut end: usize = chars.len();
    assert(chars@.take(end as int) == value@);
    while end > 0 && (chars[end - 1] == '\n' || chars[end - 1] == '\r')
        invariant
            end <= chars@.len(),
            trim_newlines(value@) == trim_newlines(chars@.take(end as int)),
        decreases end,
    {
        assert(chars@.take(end as int).drop_last() == chars@.take(end - 1));
        end -= 1;
    }
    let mut out = String::new();
    let mut i: usize = 0;
    while i < end
        invariant
            i <= end <= chars@.len(),
            out@ == chars@.take(i as int),
        decreases end - i,
    {
        push_char(&mut out, chars[i]);
        assert(chars@.take(i + 1) == chars@.take(i as int).push(chars@[i as int]));
        i += 1;
    }
    out
}


/// The concatenation of a sequence of sequences.
pub open spec fn join<A>(s: Seq<Seq<A>>) -> Seq<A>
    decreases s.len(),
{
    if s.len() == 0 {
        seq![]
    } else {
        join(s.drop_last()) + s.last()
    }
}

/// Character classes that decide where a line is cut into tokens.
#[derive(Debug, Clone, Copy, PartialEq, Eq, Structural)]
pub enum TokenKind {
    Word,
    Space,
    Punct,
    Other,
}

/// The Unicode `White_Space` characters.
pub open spec fn is_white_space(c: char) -> bool {
    let v = c as u32;
    (9 <= v <= 13) || v == 32 || v == 0x85 || v == 0xA0 || v == 0x1680 || (0x2000 <= v <= 0x200A)
        || v == 0x2028 || v == 0x2029 || v == 0x202F || v == 0x205F || v == 0x3000
}

/// ASCII letters and digits and `_` are word characters, white space is
/// space, other ASCII is punctuation, anything else stands alone.
pub open spec fn kind_of(c: char) -> TokenKind {
    let v = c as u32;
    if (0x30 <= v <= 0x39) || (0x41 <= v <= 0x5A) || (0x61 <= v <= 0x7A) || v == 0x5F {
        TokenKind::Word
    } else if is_white_space(c) {
        TokenKind::Space
    } else if v < 0x80 {
        TokenKind::Punct
    } else {
        TokenKind::Other
    }
}

fn token_kind(c: char) -> (k: TokenKind)
    ensures
        k == kind_of(c),
{
    let v = c as u32;
    if (0x30 <= v && v <= 0x39) || (0x41 <= v && v <= 0x5A) || (0x61 <= v && v <= 0x7A) || v
        == 0x5F {
        TokenKind::Word
    } else if (9 <= v && v <= 13) || v == 32 || v == 0x85 || v == 0xA0 || v == 0x1680 || (0x2000
        <= v && v <= 0x200A) || v == 0x2028 || v == 0x2029 || v == 0x202F || v == 0x205F || v
        == 0x3000 {
        TokenKind::Space
    } else if v < 0x80 {
        TokenKind::Punct
    } else {
        TokenKind::Other
    }
}

/// `c` continues the token that ends with `prev`.
pub open spec fn merges(prev: char, c: char) -> bool {
    kind_of(prev) != TokenKind::Other && kind_of(prev) == kind_of(c)
}

/// `s` cut into maximal runs of one class; each non-ASCII, non-space
/// character is a token of its own.
pub open spec fn tokenize_spec(s: Seq<char>) -> Seq<Seq<char>>
    decreases s.len(),
{
    if s.len() == 0 {
        seq![]
    } else if s.len() >= 2 && merges(s[s.len() - 2], s.last()) {
        let prev = tokenize_spec(s.drop_last());
        prev.update(prev.len() - 1, prev.last().push(s.last()))
    } else {
        tokenize_spec(s.drop_last()).push(seq![s.last()])
    }
}

proof fn lemma_tokenize_nonempty(s: Seq<char>)
    ensures
        s.len() > 0 <==> tokenize_spec(s).len() > 0,
    decreases s.len(),
{
    if s.len() > 0 {
        lemma_tokenize_nonempty(s.drop_last());
    }
}

/// The tokens of a line put back together give the line.
pub proof fn lemma_tokenize_join(s: Seq<char>)
    ensures
        join(tokenize_spec(s)) == s,
    decreases s.len(),
{
    if s.len() > 0 {
        lemma_tokenize_join(s.drop_last());
        let prev = tokenize_spec(s.drop_last());
        if s.len() >= 2 && merges(s[s.len() - 2], s.last()) {
            lemma_tokenize_nonempty(s.drop_last());
            let cur = prev.update(prev.len() - 1, prev.last().push(s.last()));
            assert(cur.drop_last() == prev.drop_last());
            assert(join(prev) == join(prev.drop_last()) + prev.last());
            assert(s == s.drop_last().push(s.last()));
        } else {
            assert(prev.push(seq![s.last()]).drop_last() == prev);
            assert(s == s.drop_last() + seq![s.last()]);
        }
    }
}

fn tokenize(s: &str) -> (tokens: Vec<String>)
    ensures
        strings_view(tokens@) == tokenize_spec(s@),
{
    let chars = char_vec(s);
    let mut tokens: Vec<String> = Vec::new();
    let mut cur = String::new();
    let mut i: usize = 0;
    while i < chars.len()
        invariant
            i <= chars@.len(),
            chars@ == s@,
            i == 0 ==> tokens@.len() == 0 && cur@.len() == 0,
            i > 0 ==> strings_view(tokens@).push(cur@) == tokenize_spec(chars@.take(i as int)),
        decreases chars@.len() - i,
    {
        let c = chars[i];
        let ghost before = strings_view(tokens@).push(cur@);
        let ghost pre = chars@.take(i + 1);
        assert(pre.drop_last() == chars@.take(i as int));
        assert(pre.last() == c);
        if i > 0 {
            assert(pre[pre.len() - 2] == chars@[i - 1]);
            let prev_kind = token_kind(chars[i - 1]);
            let kind = token_kind(c);
            let can_merge = prev_kind != TokenKind::Other && prev_kind == kind;
            if !can_merge {
                tokens.push(cur);
                cur = String::new();
                assert(strings_view(tokens@) == before);
                push_char(&mut cur, c);
                assert(cur@ == seq![c]);
                assert(strings_view(tokens@).push(cur@) == before.push(seq![c]));
            } else {
                let ghost old_cur = cur@;
                push_char(&mut cur, c);
                assert(strings_view(tokens@).push(cur@) == before.update(
                    before.len() - 1,
                    old_cur.push(c),
                ));
            }
        } else {
            push_char(&mut cur, c);
            assert(cur@ == seq![c]);
            assert(tokenize_spec(pre.drop_last()) == Seq::<Seq<char>>::empty());
            assert(strings_view(tokens@).push(cur@) == seq![seq![c]]);
        }
        i += 1;
        assert(strings_view(tokens@).push(cur@) == tokenize_spec(pre));
    }
    if i > 0 {
        tokens.push(cur);
        assert(chars@.take(i as int) == chars@);
    }
    tokens
}

/// `spans` with a run of `text` added: it joins the last span when both are
/// marked alike, and an empty text adds nothing.
pub open spec fn push_piece(spans: Seq<SpanModel>, text: Seq<char>, changed: bool) -> Seq<
    SpanModel,
> {
    if text.len() == 0 {
        spans
    } else if spans.len() > 0 && spans.last().changed == changed {
        spans.update(
            spans.len() - 1,
            SpanModel { text: spans.last().text + text, changed },
        )
    } else {
        spans.push(SpanModel { text, changed })
    }
}

/// The spans that the runs `pieces`, added in order, leave.
pub open spec fn merge_pieces(pieces: Seq<SpanModel>) -> Seq<SpanModel>
    decreases pieces.len(),
{
    if pieces.len() == 0 {
        seq![]
    } else {
        push_piece(merge_pieces(pieces.drop_last()), pieces.last().text, pieces.last().changed)
    }
}

fn push_span(spans: &mut Vec<TextSpan>, text: &str, changed: bool)
    ensures
        spans_view(final(spans)@) == push_piece(spans_view(old(spans)@), text@, changed),
{
    if text.is_empty() {
        return ;
    }
    let n = spans.len();
    if n > 0 && spans[n - 1].changed == changed {
        let mut last = spans.pop().unwrap();
        last.text.append(text);
        spans.push(last);
        assert(spans_view(spans@) == push_piece(spans_view(old(spans)@), text@, changed));
        return ;
    }
    spans.push(TextSpan { text: text.to_owned(), changed });
    assert(spans_view(spans@) == push_piece(spans_view(old(spans)@), text@, changed));
}

/// The whole of `text` as one changed span (none for an empty text).
pub open spec fn whole_spec(text: Seq<char>) -> Seq<SpanModel> {
    push_piece(seq![], text, true)
}

fn whole_changed(text: &str) -> (spans: Vec<TextSpan>)
    ensures
        spans_view(spans@) == whole_spec(text@),
{
    if text.is_empty() {
        Vec::new()
    } else {
        let spans = vec![TextSpan { text: text.to_owned(), changed: true }];
        assert(spans_view(spans@) == whole_spec(text@));
        spans
    }
}


proof fn lemma_merge_push(p: Seq<SpanModel>, x: SpanModel)
    ensures
        merge_pieces(p.push(x)) == push_piece(merge_pieces(p), x.text, x.changed),
{
    assert(p.push(x).drop_last() == p);
}

proof fn lemma_join_new<A>(f: spec_fn(int) -> Seq<A>, k: int)
    requires
        k >= 0,
    ensures
        join(Seq::new((k + 1) as nat, f)) == join(Seq::new(k as nat, f)) + f(k),
{
    assert(Seq::new((k + 1) as nat, f).drop_last() == Seq::new(k as nat, f));
}

/// Runs of single characters `src[start..start + count]`, all marked alike.
pub open spec fn char_run(src: Seq<char>, start: int, count: int, changed: bool) -> Seq<SpanModel> {
    Seq::new(count as nat, |i: int| SpanModel { text: seq![src[start + i]], changed })
}

/// Runs of tokens `src[start..start + count]`, all marked alike.
pub open spec fn token_run(src: Seq<Seq<char>>, start: int, count: int, changed: bool) -> Seq<
    SpanModel,
> {
    Seq::new(count as nat, |i: int| SpanModel { text: src[start + i], changed })
}

fn push_char_run(
    spans: &mut Vec<TextSpan>,
    src: &Vec<char>,
    start: usize,
    count: usize,
    changed: bool,
    Ghost(prior): Ghost<Seq<SpanModel>>,
)
    requires
        start + count <= src@.len(),
        spans_view(old(spans)@) == merge_pieces(prior),
    ensures
        spans_view(final(spans)@) == merge_pieces(prior + char_run(src@, start as int, count as int, changed)),
{
    let ghost run = char_run(src@, start as int, count as int, changed);
    let n = src.len();
    let mut i: usize = 0;
    assert(prior + run.take(0) == prior);
    while i < count
        invariant
            i <= count,
            n == src@.len(),
            start + count <= src@.len(),
            run == char_run(src@, start as int, count as int, changed),
            spans_view(spans@) == merge_pieces(prior + run.take(i as int)),
        decreases count - i,
    {
        assert(start + i < src@.len());
        let mut piece = String::new();
        push_char(&mut piece, src[start + i]);
        proof {
            lemma_merge_push(prior + run.take(i as int), run[i as int]);
            assert(prior + run.take(i + 1) == (prior + run.take(i as int)).push(run[i as int]));
            assert(piece@ == run[i as int].text);
        }
        push_span(spans, piece.as_str(), changed);
        i += 1;
    }
    assert(run.take(count as int) == run);
}

fn push_token_run(
    spans: &mut Vec<TextSpan>,
    src: &Vec<String>,
    start: usize,
    count: usize,
    changed: bool,
    Ghost(prior): Ghost<Seq<SpanModel>>,
)
    requires
        start + count <= src@.len(),
        spans_view(old(spans)@) == merge_pieces(prior),
    ensures
        spans_view(final(spans)@) == merge_pieces(
            prior + token_run(strings_view(src@), start as int, count as int, changed),
        ),
{
    let ghost run = token_run(strings_view(src@), start as int, count as int, changed);
    let n = src.len();
    let mut i: usize = 0;
    assert(prior + run.take(0) == prior);
    while i < count
        invariant
            i <= count,
            n == src@.len(),
            start + count <= src@.len(),
            run == token_run(strings_view(src@), start as int, count as int, changed),
            spans_view(spans@) == merge_pieces(prior + run.take(i as int)),
        decreases count - i,
    {
        proof {
            lemma_merge_push(prior + run.take(i as int), run[i as int]);
            assert(prior + run.take(i + 1) == (prior + run.take(i as int)).push(run[i as int]));
        }
        assert(start + i < src@.len());
        push_span(spans, src[start + i].as_str(), changed);
        i += 1;
    }
    assert(run.take(count as int) == run);
}

fn push_all_spans(
    spans: &mut Vec<TextSpan>,
    more: &Vec<TextSpan>,
    Ghost(prior): Ghost<Seq<SpanModel>>,
)
    requires
        spans_view(old(spans)@) == merge_pieces(prior),
    ensures
        spans_view(final(spans)@) == merge_pieces(prior + spans_view(more@)),
{
    let ghost run = spans_view(more@);
    let mut i: usize = 0;
    assert(prior + run.take(0) == prior);
    while i < more.len()
        invariant
            i <= more@.len(),
            run == spans_view(more@),
            spans_view(spans@) == merge_pieces(prior + run.take(i as int)),
        decreases more@.len() - i,
    {
        proof {
            lemma_merge_push(prior + run.take(i as int), run[i as int]);
            assert(prior + run.take(i + 1) == (prior + run.take(i as int)).push(run[i as int]));
        }
        push_span(spans, more[i].text.as_str(), more[i].changed);
        i += 1;
    }
    assert(run.take(more@.len() as int) == run);
}


/// The text of the unmarked spans, in order: what a changed row keeps of
/// its side.
pub open spec fn kept_text(spans: Seq<SpanModel>) -> Seq<char>
    decreases spans.len(),
{
    if spans.len() == 0 {
        seq![]
    } else {
        kept_text(spans.drop_last()) + if spans.last().changed {
            seq![]
        } else {
            spans.last().text
        }
    }
}

proof fn lemma_kept_concat(a: Seq<SpanModel>, b: Seq<SpanModel>)
    ensures
        kept_text(a + b) == kept_text(a) + kept_text(b),
    decreases b.len(),
{
    if b.len() == 0 {
        assert(a + b == a);
        assert(kept_text(a) + kept_text(b) == kept_text(a));
    } else {
        lemma_kept_concat(a, b.drop_last());
        assert((a + b).drop_last() == a + b.drop_last());
    }
}

proof fn lemma_kept_push_piece(spans: Seq<SpanModel>, text: Seq<char>, changed: bool)
    ensures
        kept_text(push_piece(spans, text, changed)) == kept_text(spans) + if changed {
            seq![]
        } else {
            text
        },
{
    if text.len() == 0 {
        assert(kept_text(spans) + seq![] == kept_text(spans));
        assert(kept_text(spans) + text == kept_text(spans));
    } else if spans.len() > 0 && spans.last().changed == changed {
        let up = push_piece(spans, text, changed);
        assert(up.drop_last() == spans.drop_last());
        if changed {
            assert(kept_text(spans) + seq![] == kept_text(spans));
        } else {
            assert(kept_text(spans.drop_last()) + (spans.last().text + text) == kept_text(spans.drop_last())
                + spans.last().text + text);
        }
    } else {
        assert(spans.push(SpanModel { text, changed }).drop_last() == spans);
    }
}

proof fn lemma_kept_merge(p: Seq<SpanModel>)
    ensures
        kept_text(merge_pieces(p)) == kept_text(p),
    decreases p.len(),
{
    if p.len() > 0 {
        lemma_kept_merge(p.drop_last());
        lemma_kept_push_piece(merge_pieces(p.drop_last()), p.last().text, p.last().changed);
    }
}

/// Spans that are all marked keep nothing.
proof fn lemma_kept_all_changed(spans: Seq<SpanModel>)
    requires
        forall|i: int| 0 <= i < spans.len() ==> (#[trigger] spans[i]).changed,
    ensures
        kept_text(spans) == Seq::<char>::empty(),
    decreases spans.len(),
{
    if spans.len() > 0 {
        lemma_kept_all_changed(spans.drop_last());
    }
}

/// The character runs of an edit script keep the same text on both sides.
proof fn lemma_char_pieces_kept(ops: Seq<EditOp>, old: Seq<char>, new: Seq<char>, k: int)
    requires
        0 <= k <= ops.len(),
    ensures
        kept_text(char_pieces(ops, old, new, true, k)) == kept_text(char_pieces(ops, old, new, false, k)),
    decreases k,
{
    if k > 0 {
        let j = k - 1;
        lemma_char_pieces_kept(ops, old, new, j);
        lemma_join_new(|m: int| char_op_pieces(ops[m], old, new, true), j);
        lemma_join_new(|m: int| char_op_pieces(ops[m], old, new, false), j);
        let cl = char_op_pieces(ops[j], old, new, true);
        let cr = char_op_pieces(ops[j], old, new, false);
        lemma_kept_concat(char_pieces(ops, old, new, true, j), cl);
        lemma_kept_concat(char_pieces(ops, old, new, false, j), cr);
        if !(ops[j] is Equal) {
            lemma_kept_all_changed(cl);
            lemma_kept_all_changed(cr);
        }
    }
}

/// The token runs of an edit script between two token lists keep the same
/// text on both sides.
proof fn lemma_word_pieces_kept(ops: Seq<EditOp>, lt: Seq<Seq<char>>, rt: Seq<Seq<char>>, k: int)
    requires
        is_edit_script(ops, lt, rt),
        0 <= k <= ops.len(),
    ensures
        kept_text(word_pieces(ops, lt, rt, true, k)) == kept_text(word_pieces(ops, lt, rt, false, k)),
    decreases k,
{
    if k > 0 {
        let j = k - 1;
        lemma_word_pieces_kept(ops, lt, rt, j);
        lemma_step_in_bounds(ops, lt, rt, j);
        lemma_join_new(|m: int| word_op_pieces(ops[m], lt, rt, true), j);
        lemma_join_new(|m: int| word_op_pieces(ops[m], lt, rt, false), j);
        let cl = word_op_pieces(ops[j], lt, rt, true);
        let cr = word_op_pieces(ops[j], lt, rt, false);
        lemma_kept_concat(word_pieces(ops, lt, rt, true, j), cl);
        lemma_kept_concat(word_pieces(ops, lt, rt, false, j), cr);
        match ops[j] {
            EditOp::Equal { old_index, new_index, len } => {
                assert forall|i: int| 0 <= i < len implies #[trigger] cl[i] == cr[i] by {
                    assert(equal_item(ops[j], lt, rt, i));
                }
                assert(cl =~= cr);
            },
            EditOp::Replace { old_index, old_len, new_index, new_len } => {
                let hl = join(lt.subrange(old_index as int, old_index + old_len));
                let hr = join(rt.subrange(new_index as int, new_index + new_len));
                let ops2 = char_diff(hl, hr);
                if char_refine(hl, hr) is Some {
                    lemma_char_pieces_kept(ops2, hl, hr, ops2.len() as int);
                    lemma_kept_merge(char_pieces(ops2, hl, hr, true, ops2.len() as int));
                    lemma_kept_merge(char_pieces(ops2, hl, hr, false, ops2.len() as int));
                } else {
                    lemma_kept_all_changed(cl);
                    lemma_kept_all_changed(cr);
                }
            },
            _ => {
                lemma_kept_all_changed(cl);
                lemma_kept_all_changed(cr);
            },
        }
    }
}

/// The text that a sequence of spans covers.
pub open spec fn spans_text(spans: Seq<SpanModel>) -> Seq<char>
    decreases spans.len(),
{
    if spans.len() == 0 {
        seq![]
    } else {
        spans_text(spans.drop_last()) + spans.last().text
    }
}

proof fn lemma_spans_text_push_piece(spans: Seq<SpanModel>, text: Seq<char>, changed: bool)
    ensures
        spans_text(push_piece(spans, text, changed)) == spans_text(spans) + text,
{
    if text.len() == 0 {
        assert(spans_text(spans) + text == spans_text(spans));
    } else if spans.len() > 0 && spans.last().changed == changed {
        let up = push_piece(spans, text, changed);
        assert(up.drop_last() == spans.drop_last());
        assert(spans_text(spans) + text == spans_text(spans.drop_last()) + (spans.last().text + text));
    } else {
        assert(spans.push(SpanModel { text, changed }).drop_last() == spans);
    }
}

proof fn lemma_spans_text_concat(a: Seq<SpanModel>, b: Seq<SpanModel>)
    ensures
        spans_text(a + b) == spans_text(a) + spans_text(b),
    decreases b.len(),
{
    if b.len() == 0 {
        assert(a + b == a);
        assert(spans_text(a) + spans_text(b) == spans_text(a));
    } else {
        lemma_spans_text_concat(a, b.drop_last());
        assert((a + b).drop_last() == a + b.drop_last());
        assert(spans_text(a) + spans_text(b) == spans_text(a) + spans_text(b.drop_last()) + b.last().text);
    }
}

/// Merging runs into spans keeps the text they cover.
pub proof fn lemma_merge_text(p: Seq<SpanModel>)
    ensures
        spans_text(merge_pieces(p)) == spans_text(p),
    decreases p.len(),
{
    if p.len() > 0 {
        lemma_merge_text(p.drop_last());
        lemma_spans_text_push_piece(merge_pieces(p.drop_last()), p.last().text, p.last().changed);
    }
}

proof fn lemma_char_run_text(src: Seq<char>, start: int, count: int, changed: bool)
    requires
        0 <= start,
        0 <= count,
        start + count <= src.len(),
    ensures
        spans_text(char_run(src, start, count, changed)) == src.subrange(start, start + count),
    decreases count,
{
    if count > 0 {
        lemma_char_run_text(src, start, count - 1, changed);
        assert(char_run(src, start, count, changed).drop_last() == char_run(src, start, count - 1, changed));
        assert(src.subrange(start, start + count) == src.subrange(start, start + count - 1) + seq![src[start + count - 1]]);
    } else {
        assert(src.subrange(start, start) == Seq::<char>::empty());
    }
}

proof fn lemma_token_run_text(src: Seq<Seq<char>>, start: int, count: int, changed: bool)
    requires
        0 <= start,
        0 <= count,
        start + count <= src.len(),
    ensures
        spans_text(token_run(src, start, count, changed)) == join(src.subrange(start, start + count)),
    decreases count,
{
    if count > 0 {
        lemma_token_run_text(src, start, count - 1, changed);
        assert(token_run(src, start, count, changed).drop_last() == token_run(src, start, count - 1, changed));
        assert(src.subrange(start, start + count).drop_last() == src.subrange(start, start + count - 1));
    } else {
        assert(src.subrange(start, start) == Seq::<Seq<char>>::empty());
    }
}

/// The concatenation of a prefix extended by the next part.
proof fn lemma_join_take_extend<A>(s: Seq<Seq<A>>, a: int, b: int)
    requires
        0 <= a <= b <= s.len(),
    ensures
        join(s.take(b)) == join(s.take(a)) + join(s.subrange(a, b)),
    decreases b - a,
{
    if a == b {
        assert(s.subrange(a, b) == Seq::<Seq<A>>::empty());
        assert(join(s.take(a)) + join(s.subrange(a, b)) == join(s.take(a)));
    } else {
        lemma_join_take_extend(s, a, b - 1);
        assert(s.take(b).drop_last() == s.take(b - 1));
        assert(s.subrange(a, b).drop_last() == s.subrange(a, b - 1));
    }
}

proof fn lemma_seq_take_extend<A>(s: Seq<A>, a: int, b: int)
    requires
        0 <= a <= b <= s.len(),
    ensures
        s.take(b) == s.take(a) + s.subrange(a, b),
{
    assert(s.take(b) == s.take(a) + s.subrange(a, b));
}

/// Character diff engine result: the edit script between the characters of
/// two strings.
pub uninterp spec fn char_diff(old: Seq<char>, new: Seq<char>) -> Seq<EditOp>;

/// Trusted: `similar::TextDiff::from_chars` and its `ops`, an edit script
/// between the characters of the two strings; which script the engine picks
/// is left to its name, but for two equal strings every step is equal (the
/// common prefix is matched first).
#[verifier::external_body]
fn diff_chars(left: &str, right: &str) -> (ops: Vec<EditOp>)
    ensures
        ops@ == char_diff(left@, right@),
        is_edit_script(ops@, left@, right@),
        left@ == right@ ==> all_equal_steps(ops@),
{
    TextDiff::from_chars(left, right).ops().iter().map(|op| match *op {
        DiffOp::Equal { old_index, new_index, len } => EditOp::Equal { old_index, new_index, len },
        DiffOp::Delete { old_index, old_len, new_index } => EditOp::Delete { old_index, old_len, new_index },
        DiffOp::Insert { old_index, new_index, new_len } => EditOp::Insert { old_index, new_index, new_len },
        DiffOp::Replace { old_index, old_len, new_index, new_len } => EditOp::Replace { old_index, old_len, new_index, new_len },
    }).collect()
}

/// Token diff engine result: the edit script between two token sequences.
pub uninterp spec fn token_diff(old: Seq<Seq<char>>, new: Seq<Seq<char>>) -> Seq<EditOp>;

/// Trusted: `similar::TextDiff::from_slices` over the two token lists and its
/// `ops`, an edit script between them (tokens compare as strings); which
/// script the engine picks is left to its name, but for two equal lists
/// every step is equal (the common prefix is matched first).
#[verifier::external_body]
fn diff_tokens(old: &Vec<String>, new: &Vec<String>) -> (ops: Vec<EditOp>)
    ensures
        ops@ == token_diff(strings_view(old@), strings_view(new@)),
        is_edit_script(ops@, strings_view(old@), strings_view(new@)),
        strings_view(old@) == strings_view(new@) ==> all_equal_steps(ops@),
{
    let old: Vec<&str> = old.iter().map(|s| s.as_str()).collect();
    let new: Vec<&str> = new.iter().map(|s| s.as_str()).collect();
    TextDiff::from_slices(&old, &new).ops().iter().map(|op| match *op {
        DiffOp::Equal { old_index, new_index, len } => EditOp::Equal { old_index, new_index, len },
        DiffOp::Delete { old_index, old_len, new_index } => EditOp::Delete { old_index, old_len, new_index },
        DiffOp::Insert { old_index, new_index, new_len } => EditOp::Insert { old_index, new_index, new_len },
        DiffOp::Replace { old_index, old_len, new_index, new_len } => EditOp::Replace { old_index, old_len, new_index, new_len },
    }).collect()
}

proof fn lemma_equal_total_bound(ops: Seq<EditOp>, k: int)
    requires
        0 <= k <= ops.len(),
    ensures
        0 <= equal_total(ops, k) <= old_pos(ops, k),
    decreases k,
{
    if k > 0 {
        lemma_equal_total_bound(ops, k - 1);
    }
}

/// The runs one character step adds to the left (`left`) or right side.
pub open spec fn char_op_pieces(op: EditOp, old: Seq<char>, new: Seq<char>, left: bool) -> Seq<
    SpanModel,
> {
    match op {
        EditOp::Equal { old_index, len, .. } => char_run(old, old_index as int, len as int, false),
        EditOp::Delete { old_index, old_len, .. } => if left {
            char_run(old, old_index as int, old_len as int, true)
        } else {
            seq![]
        },
        EditOp::Insert { new_index, new_len, .. } => if left {
            seq![]
        } else {
            char_run(new, new_index as int, new_len as int, true)
        },
        EditOp::Replace { old_index, old_len, new_index, new_len } => if left {
            char_run(old, old_index as int, old_len as int, true)
        } else {
            char_run(new, new_index as int, new_len as int, true)
        },
    }
}

/// The runs the first `k` character steps add to one side.
pub open spec fn char_pieces(ops: Seq<EditOp>, old: Seq<char>, new: Seq<char>, left: bool, k: int) -> Seq<
    SpanModel,
> {
    join(Seq::new(k as nat, |j: int| char_op_pieces(ops[j], old, new, left)))
}

/// Character-level spans of a replaced hunk, or none when the two sides
/// share too little: fewer than two in five characters (in the sense
/// `2 * matched / (len(old) + len(new)) < 0.4`).
pub open spec fn char_refine(old: Seq<char>, new: Seq<char>) -> Option<
    (Seq<SpanModel>, Seq<SpanModel>),
> {
    char_refine_with(char_diff(old, new), old, new)
}

/// Character-level spans of a replaced hunk along the character edit script
/// `ops`, or none when the two sides share fewer than two in five
/// characters.
pub open spec fn char_refine_with(ops: Seq<EditOp>, old: Seq<char>, new: Seq<char>) -> Option<
    (Seq<SpanModel>, Seq<SpanModel>),
> {
    if 5 * equal_total(ops, ops.len() as int) < old.len() + new.len() {
        None
    } else {
        Some(
            (
                merge_pieces(char_pieces(ops, old, new, true, ops.len() as int)),
                merge_pieces(char_pieces(ops, old, new, false, ops.len() as int)),
            ),
        )
    }
}

fn spans_from_char_diff(left: &str, right: &str) -> (res: Option<(Vec<TextSpan>, Vec<TextSpan>)>)
    ensures
        match char_refine(left@, right@) {
            None => res is None,
            Some(p) => res matches Some(q) && spans_view(q.0@) == p.0 && spans_view(q.1@) == p.1,
        },
        res matches Some(q) ==> spans_text(spans_view(q.0@)) == left@ && spans_text(
            spans_view(q.1@),
        ) == right@,
{
    let old = char_vec(left);
    let new = char_vec(right);
    let ops = diff_chars(left, right);
    char_spans(&ops, &old, &new)
}

/// The spans of the two sides of a replaced hunk along the character edit
/// script `ops` between them: none when they share fewer than two in five
/// characters; otherwise equal runs unmarked and the rest marked, with
/// neighbouring runs of the same marking merged.
pub fn char_spans(ops: &Vec<EditOp>, old: &Vec<char>, new: &Vec<char>) -> (res: Option<
    (Vec<TextSpan>, Vec<TextSpan>),
>)
    requires
        is_edit_script(ops@, old@, new@),
    ensures
        match char_refine_with(ops@, old@, new@) {
            None => res is None,
            Some(p) => res matches Some(q) && spans_view(q.0@) == p.0 && spans_view(q.1@) == p.1,
        },
        res matches Some(q) ==> spans_text(spans_view(q.0@)) == old@ && spans_text(
            spans_view(q.1@),
        ) == new@,
        res matches Some(q) ==> kept_text(spans_view(q.0@)) == kept_text(spans_view(q.1@)),
{
    proof {
        lemma_char_pieces_kept(ops@, old@, new@, ops@.len() as int);
        lemma_kept_merge(char_pieces(ops@, old@, new@, true, ops@.len() as int));
        lemma_kept_merge(char_pieces(ops@, old@, new@, false, ops@.len() as int));
    }
    let ghost o = ops@;
    let olen = old.len();
    let mut matches: usize = 0;
    let mut k: usize = 0;
    while k < ops.len()
        invariant
            k <= ops@.len(),
            o == ops@,
            is_edit_script(o, old@, new@),
            matches == equal_total(o, k as int),
            olen == old@.len(),
        decreases ops@.len() - k,
    {
        proof {
            lemma_step_in_bounds(o, old@, new@, k as int);
            lemma_equal_total_bound(o, k + 1);
            lemma_pos_bounds(o, k + 1, o.len() as int);
        }
        if let EditOp::Equal { len, .. } = ops[k] {
            matches = matches + len;
        }
        k += 1;
    }
    if (matches as u128) * 5 < (old.len() as u128) + (new.len() as u128) {
        return None;
    }
    let mut ls: Vec<TextSpan> = Vec::new();
    let mut rs: Vec<TextSpan> = Vec::new();
    let mut k: usize = 0;
    while k < ops.len()
        invariant
            k <= ops@.len(),
            o == ops@,
            is_edit_script(o, old@, new@),
            spans_view(ls@) == merge_pieces(char_pieces(o, old@, new@, true, k as int)),
            spans_view(rs@) == merge_pieces(char_pieces(o, old@, new@, false, k as int)),
            spans_text(spans_view(ls@)) == old@.take(old_pos(o, k as int)),
            spans_text(spans_view(rs@)) == new@.take(new_pos(o, k as int)),
        decreases ops@.len() - k,
    {
        proof {
            lemma_step_in_bounds(o, old@, new@, k as int);
            lemma_pos_bounds(o, k + 1, o.len() as int);
            lemma_seq_take_extend(old@, old_pos(o, k as int), old_pos(o, k + 1));
            lemma_seq_take_extend(new@, new_pos(o, k as int), new_pos(o, k + 1));
            lemma_join_new(|j: int| char_op_pieces(o[j], old@, new@, true), k as int);
            lemma_join_new(|j: int| char_op_pieces(o[j], old@, new@, false), k as int);
        }
        let ghost pl = char_pieces(o, old@, new@, true, k as int);
        let ghost pr = char_pieces(o, old@, new@, false, k as int);
        match ops[k] {
            EditOp::Equal { old_index, new_index, len } => {
                push_char_run(&mut ls, old, old_index, len, false, Ghost(pl));
                push_char_run(&mut rs, old, old_index, len, false, Ghost(pr));
                proof {
                    lemma_char_run_text(old@, old_index as int, len as int, false);
                    assert forall|i: int| 0 <= i < len implies #[trigger] old@.subrange(
                        old_index as int,
                        old_index + len,
                    )[i] == new@.subrange(new_index as int, new_index + len)[i] by {
                        assert(equal_item(o[k as int], old@, new@, i));
                    }
                    assert(old@.subrange(old_index as int, old_index + len) == new@.subrange(
                        new_index as int,
                        new_index + len,
                    ));
                }
            },
            EditOp::Delete { old_index, old_len, .. } => {
                push_char_run(&mut ls, old, old_index, old_len, true, Ghost(pl));
                assert(pr + seq![] == pr);
                proof {
                    lemma_char_run_text(old@, old_index as int, old_len as int, true);
                }
            },
            EditOp::Insert { new_index, new_len, .. } => {
                push_char_run(&mut rs, new, new_index, new_len, true, Ghost(pr));
                assert(pl + seq![] == pl);
                proof {
                    lemma_char_run_text(new@, new_index as int, new_len as int, true);
                }
            },
            EditOp::Replace { old_index, old_len, new_index, new_len } => {
                push_char_run(&mut ls, old, old_index, old_len, true, Ghost(pl));
                push_char_run(&mut rs, new, new_index, new_len, true, Ghost(pr));
                proof {
                    lemma_char_run_text(old@, old_index as int, old_len as int, true);
                    lemma_char_run_text(new@, new_index as int, new_len as int, true);
                }
            },
        }
        proof {
            let cl = char_op_pieces(o[k as int], old@, new@, true);
            let cr = char_op_pieces(o[k as int], old@, new@, false);
            lemma_merge_text(pl + cl);
            lemma_merge_text(pl);
            lemma_spans_text_concat(pl, cl);
            lemma_merge_text(pr + cr);
            lemma_merge_text(pr);
            lemma_spans_text_concat(pr, cr);
        }
        k += 1;
    }
    proof {
        lemma_equal_total_bound(o, o.len() as int);
        assert(old@.take(old@.len() as int) == old@);
        assert(new@.take(new@.len() as int) == new@);
    }
    Some((ls, rs))
}


/// Lines longer than this many bytes (both sides together) are marked as
/// wholly changed instead of being compared word by word.
pub const INLINE_MAX_BYTES: usize = 8000;

/// The runs one token step adds to one side of a changed row.
pub open spec fn word_op_pieces(op: EditOp, lt: Seq<Seq<char>>, rt: Seq<Seq<char>>, left: bool) -> Seq<
    SpanModel,
> {
    match op {
        EditOp::Equal { old_index, new_index, len } => if left {
            token_run(lt, old_index as int, len as int, false)
        } else {
            token_run(rt, new_index as int, len as int, false)
        },
        EditOp::Delete { old_index, old_len, .. } => if left {
            token_run(lt, old_index as int, old_len as int, true)
        } else {
            seq![]
        },
        EditOp::Insert { new_index, new_len, .. } => if left {
            seq![]
        } else {
            token_run(rt, new_index as int, new_len as int, true)
        },
        EditOp::Replace { old_index, old_len, new_index, new_len } => {
            let hl = join(lt.subrange(old_index as int, old_index + old_len));
            let hr = join(rt.subrange(new_index as int, new_index + new_len));
            match char_refine(hl, hr) {
                Some(p) => if left {
                    p.0
                } else {
                    p.1
                },
                None => seq![SpanModel { text: if left { hl } else { hr }, changed: true }],
            }
        },
    }
}

/// The runs the first `k` token steps add to one side.
pub open spec fn word_pieces(
    ops: Seq<EditOp>,
    lt: Seq<Seq<char>>,
    rt: Seq<Seq<char>>,
    left: bool,
    k: int,
) -> Seq<SpanModel> {
    join(Seq::new(k as nat, |j: int| word_op_pieces(ops[j], lt, rt, left)))
}

/// The spans of the two sides of a changed row: a missing side has none and
/// the other is wholly changed; long rows are wholly changed on both sides;
/// otherwise the two sides are compared token by token, and replaced hunks
/// are refined character by character when they are similar enough.
pub open spec fn inline_spans_spec(l: Seq<char>, r: Seq<char>) -> (Seq<SpanModel>, Seq<SpanModel>) {
    let lb = encode_utf8(l).len() as usize;
    let rb = encode_utf8(r).len() as usize;
    if l.len() == 0 {
        (seq![], whole_spec(r))
    } else if r.len() == 0 {
        (whole_spec(l), seq![])
    } else if lb > INLINE_MAX_BYTES || rb > INLINE_MAX_BYTES - lb {
        (whole_spec(l), whole_spec(r))
    } else {
        let lt = tokenize_spec(l);
        let rt = tokenize_spec(r);
        let ops = token_diff(lt, rt);
        (
            merge_pieces(word_pieces(ops, lt, rt, true, ops.len() as int)),
            merge_pieces(word_pieces(ops, lt, rt, false, ops.len() as int)),
        )
    }
}

fn join_tokens(src: &Vec<String>, start: usize, count: usize) -> (s: String)
    requires
        start + count <= src@.len(),
    ensures
        s@ == join(strings_view(src@).subrange(start as int, start + count)),
{
    let n = src.len();
    let mut out = String::new();
    let mut i: usize = 0;
    assert(strings_view(src@).subrange(start as int, start as int) == Seq::<Seq<char>>::empty());
    while i < count
        invariant
            i <= count,
            n == src@.len(),
            start + count <= src@.len(),
            out@ == join(strings_view(src@).subrange(start as int, start + i)),
        decreases count - i,
    {
        assert(strings_view(src@).subrange(start as int, start + i + 1).drop_last()
            == strings_view(src@).subrange(start as int, start + i));
        out.append(src[start + i].as_str());
        i += 1;
    }
    out
}

fn inline_spans(left: &str, right: &str) -> (res: (Vec<TextSpan>, Vec<TextSpan>))
    ensures
        spans_view(res.0@) == inline_spans_spec(left@, right@).0,
        spans_view(res.1@) == inline_spans_spec(left@, right@).1,
        spans_text(spans_view(res.0@)) == left@,
        spans_text(spans_view(res.1@)) == right@,
        kept_text(spans_view(res.0@)) == kept_text(spans_view(res.1@)),
{
    proof {
        lemma_kept_push_piece(seq![], left@, true);
        lemma_kept_push_piece(seq![], right@, true);
        assert(kept_text(seq![]) + seq![] == Seq::<char>::empty());
        lemma_spans_text_push_piece(seq![], left@, true);
        lemma_spans_text_push_piece(seq![], right@, true);
        assert(spans_text(seq![]) + left@ == left@);
        assert(spans_text(seq![]) + right@ == right@);
        assert(spans_view(Seq::<TextSpan>::empty()) == Seq::<SpanModel>::empty());
    }
    if left.is_empty() {
        return (Vec::new(), whole_changed(right));
    }
    if right.is_empty() {
        return (whole_changed(left), Vec::new());
    }
    let lb = left.len();
    let rb = right.len();
    if lb > INLINE_MAX_BYTES || rb > INLINE_MAX_BYTES - lb {
        return (whole_changed(left), whole_changed(right));
    }
    let left_tokens = tokenize(left);
    let right_tokens = tokenize(right);
    let ops = diff_tokens(&left_tokens, &right_tokens);
    proof {
        lemma_tokenize_join(left@);
        lemma_tokenize_join(right@);
    }
    token_spans(&ops, &left_tokens, &right_tokens)
}

/// The spans of the two sides of a changed row along the token edit script
/// `ops` between their tokens: equal tokens unmarked, deleted and inserted
/// ones marked, replaced hunks refined character by character when similar
/// enough and marked whole otherwise, with neighbouring runs of the same
/// marking merged.
pub fn token_spans(ops: &Vec<EditOp>, left_tokens: &Vec<String>, right_tokens: &Vec<String>) -> (res: (
    Vec<TextSpan>,
    Vec<TextSpan>,
))
    requires
        is_edit_script(ops@, strings_view(left_tokens@), strings_view(right_tokens@)),
    ensures
        spans_view(res.0@) == merge_pieces(
            word_pieces(
                ops@,
                strings_view(left_tokens@),
                strings_view(right_tokens@),
                true,
                ops@.len() as int,
            ),
        ),
        spans_view(res.1@) == merge_pieces(
            word_pieces(
                ops@,
                strings_view(left_tokens@),
                strings_view(right_tokens@),
                false,
                ops@.len() as int,
            ),
        ),
        spans_text(spans_view(res.0@)) == join(strings_view(left_tokens@)),
        spans_text(spans_view(res.1@)) == join(strings_view(right_tokens@)),
        kept_text(spans_view(res.0@)) == kept_text(spans_view(res.1@)),
{
    proof {
        let lt0 = strings_view(left_tokens@);
        let rt0 = strings_view(right_tokens@);
        lemma_word_pieces_kept(ops@, lt0, rt0, ops@.len() as int);
        lemma_kept_merge(word_pieces(ops@, lt0, rt0, true, ops@.len() as int));
        lemma_kept_merge(word_pieces(ops@, lt0, rt0, false, ops@.len() as int));
    }
    let ghost o = ops@;
    let ghost lt = strings_view(left_tokens@);
    let ghost rt = strings_view(right_tokens@);
    proof {
        assert(lt.take(0) == Seq::<Seq<char>>::empty());
        assert(rt.take(0) == Seq::<Seq<char>>::empty());
        assert(spans_view(Seq::<TextSpan>::empty()) == Seq::<SpanModel>::empty());
    }
    let mut left_spans: Vec<TextSpan> = Vec::new();
    let mut right_spans: Vec<TextSpan> = Vec::new();
    let mut k: usize = 0;
    while k < ops.len()
        invariant
            k <= ops@.len(),
            o == ops@,
            lt == strings_view(left_tokens@),
            rt == strings_view(right_tokens@),
            is_edit_script(o, lt, rt),
            spans_view(left_spans@) == merge_pieces(word_pieces(o, lt, rt, true, k as int)),
            spans_view(right_spans@) == merge_pieces(word_pieces(o, lt, rt, false, k as int)),
            spans_text(spans_view(left_spans@)) == join(lt.take(old_pos(o, k as int))),
            spans_text(spans_view(right_spans@)) == join(rt.take(new_pos(o, k as int))),
        decreases ops@.len() - k,
    {
        proof {
            lemma_step_in_bounds(o, lt, rt, k as int);
            lemma_pos_bounds(o, k + 1, o.len() as int);
            lemma_join_take_extend(lt, old_pos(o, k as int), old_pos(o, k + 1));
            lemma_join_take_extend(rt, new_pos(o, k as int), new_pos(o, k + 1));
            lemma_join_new(|j: int| word_op_pieces(o[j], lt, rt, true), k as int);
            lemma_join_new(|j: int| word_op_pieces(o[j], lt, rt, false), k as int);
        }
        let ghost pl = word_pieces(o, lt, rt, true, k as int);
        let ghost pr = word_pieces(o, lt, rt, false, k as int);
        match ops[k] {
            EditOp::Equal { old_index, new_index, len } => {
                push_token_run(&mut left_spans, left_tokens, old_index, len, false, Ghost(pl));
                push_token_run(&mut right_spans, right_tokens, new_index, len, false, Ghost(pr));
                proof {
                    lemma_token_run_text(lt, old_index as int, len as int, false);
                    lemma_token_run_text(rt, new_index as int, len as int, false);
                }
            },
            EditOp::Delete { old_index, old_len, .. } => {
                push_token_run(&mut left_spans, left_tokens, old_index, old_len, true, Ghost(pl));
                assert(pr + seq![] == pr);
                proof {
                    lemma_token_run_text(lt, old_index as int, old_len as int, true);
                    let a = new_pos(o, k as int);
                    assert(rt.subrange(a, a) == Seq::<Seq<char>>::empty());
                }
            },
            EditOp::Insert { new_index, new_len, .. } => {
                push_token_run(&mut right_spans, right_tokens, new_index, new_len, true, Ghost(pr));
                assert(pl + seq![] == pl);
                proof {
                    lemma_token_run_text(rt, new_index as int, new_len as int, true);
                    let a = old_pos(o, k as int);
                    assert(lt.subrange(a, a) == Seq::<Seq<char>>::empty());
                }
            },
            EditOp::Replace { old_index, old_len, new_index, new_len } => {
                let hunk_left = join_tokens(left_tokens, old_index, old_len);
                let hunk_right = join_tokens(right_tokens, new_index, new_len);
                match spans_from_char_diff(hunk_left.as_str(), hunk_right.as_str()) {
                    Some((ls, rs)) => {
                        push_all_spans(&mut left_spans, &ls, Ghost(pl));
                        push_all_spans(&mut right_spans, &rs, Ghost(pr));
                    },
                    None => {
                        proof {
                            lemma_merge_push(pl, SpanModel { text: hunk_left@, changed: true });
                            lemma_merge_push(pr, SpanModel { text: hunk_right@, changed: true });
                            assert(pl + seq![SpanModel { text: hunk_left@, changed: true }] == pl.push(
                                SpanModel { text: hunk_left@, changed: true },
                            ));
                            assert(pr + seq![SpanModel { text: hunk_right@, changed: true }] == pr.push(
                                SpanModel { text: hunk_right@, changed: true },
                            ));
                        }
                        push_span(&mut left_spans, hunk_left.as_str(), true);
                        push_span(&mut right_spans, hunk_right.as_str(), true);
                        proof {
                            let xl = SpanModel { text: hunk_left@, changed: true };
                            let xr = SpanModel { text: hunk_right@, changed: true };
                            assert(seq![xl].drop_last() == Seq::<SpanModel>::empty());
                            assert(seq![xr].drop_last() == Seq::<SpanModel>::empty());
                            assert(spans_text(seq![xl]) == spans_text(Seq::<SpanModel>::empty()) + hunk_left@);
                            assert(spans_text(seq![xr]) == spans_text(Seq::<SpanModel>::empty()) + hunk_right@);
                        }
                    },
                }
            },
        }
        proof {
            let cl = word_op_pieces(o[k as int], lt, rt, true);
            let cr = word_op_pieces(o[k as int], lt, rt, false);
            lemma_merge_text(pl + cl);
            lemma_merge_text(pl);
            lemma_spans_text_concat(pl, cl);
            lemma_merge_text(pr + cr);
            lemma_merge_text(pr);
            lemma_spans_text_concat(pr, cr);
        }
        k += 1;
    }
    proof {
        assert(lt.take(lt.len() as int) == lt);
        assert(rt.take(rt.len() as int) == rt);
    }
    (left_spans, right_spans)
}

/// The value of a row built from its two sides and kind: equal rows carry
/// no spans, the others the spans of [`inline_spans_spec`].
pub open spec fn row_spec(
    left_line: Option<u32>,
    right_line: Option<u32>,
    left_text: Seq<char>,
    right_text: Seq<char>,
    kind: DiffKind,
) -> RowModel {
    let spans = if kind == DiffKind::Equal {
        (seq![], seq![])
    } else {
        inline_spans_spec(left_text, right_text)
    };
    RowModel {
        left_line,
        right_line,
        left_text,
        right_text,
        kind,
        left_spans: spans.0,
        right_spans: spans.1,
    }
}

fn diff_row(
    left_line: Option<u32>,
    right_line: Option<u32>,
    left_text: String,
    right_text: String,
    kind: DiffKind,
) -> (row: DiffRow)
    ensures
        row@ == row_spec(left_line, right_line, left_text@, right_text@, kind),
        spans_cover_text(row@),
{
    let (left_spans, right_spans) = match kind {
        DiffKind::Equal => (Vec::new(), Vec::new()),
        _ => inline_spans(left_text.as_str(), right_text.as_str()),
    };
    let row = DiffRow { left_line, right_line, left_text, right_text, kind, left_spans, right_spans };
    assert(spans_view(Seq::<TextSpan>::empty()) == Seq::<SpanModel>::empty());
    row
}

/// Number of rows of `kind` in `rows`.
pub open spec fn count_kind(rows: Seq<RowModel>, kind: DiffKind) -> nat
    decreases rows.len(),
{
    if rows.len() == 0 {
        0
    } else {
        count_kind(rows.drop_last(), kind) + if rows.last().kind == kind {
            1nat
        } else {
            0nat
        }
    }
}

proof fn lemma_count_kind_bound(rows: Seq<RowModel>, kind: DiffKind)
    ensures
        count_kind(rows, kind) <= rows.len(),
    decreases rows.len(),
{
    if rows.len() > 0 {
        lemma_count_kind_bound(rows.drop_last(), kind);
    }
}

/// The counts of [`DiffStats`] for `rows`.
pub open spec fn stats_spec(rows: Seq<RowModel>) -> DiffStats {
    DiffStats {
        equal: count_kind(rows, DiffKind::Equal) as u32,
        insert: count_kind(rows, DiffKind::Insert) as u32,
        delete: count_kind(rows, DiffKind::Delete) as u32,
        replace: count_kind(rows, DiffKind::Replace) as u32,
    }
}

fn stats_from(rows: &Vec<DiffRow>) -> (stats: DiffStats)
    requires
        rows@.len() <= u32::MAX,
    ensures
        stats == stats_spec(rows_view(rows@)),
        stats.equal == count_kind(rows_view(rows@), DiffKind::Equal),
        stats.insert == count_kind(rows_view(rows@), DiffKind::Insert),
        stats.delete == count_kind(rows_view(rows@), DiffKind::Delete),
        stats.replace == count_kind(rows_view(rows@), DiffKind::Replace),
{
    let mut stats = DiffStats { equal: 0, insert: 0, delete: 0, replace: 0 };
    let ghost rv = rows_view(rows@);
    let mut i: usize = 0;
    while i < rows.len()
        invariant
            i <= rows@.len() <= u32::MAX,
            rv == rows_view(rows@),
            stats.equal == count_kind(rv.take(i as int), DiffKind::Equal),
            stats.insert == count_kind(rv.take(i as int), DiffKind::Insert),
            stats.delete == count_kind(rv.take(i as int), DiffKind::Delete),
            stats.replace == count_kind(rv.take(i as int), DiffKind::Replace),
        decreases rows@.len() - i,
    {
        proof {
            assert(rv.take(i + 1).drop_last() == rv.take(i as int));
            lemma_count_kind_bound(rv.take(i as int), DiffKind::Equal);
            lemma_count_kind_bound(rv.take(i as int), DiffKind::Insert);
            lemma_count_kind_bound(rv.take(i as int), DiffKind::Delete);
            lemma_count_kind_bound(rv.take(i as int), DiffKind::Replace);
        }
        match rows[i].kind {
            DiffKind::Equal => stats.equal = stats.equal + 1,
            DiffKind::Insert => stats.insert = stats.insert + 1,
            DiffKind::Delete => stats.delete = stats.delete + 1,
            DiffKind::Replace => stats.replace = stats.replace + 1,
        }
        i += 1;
    }
    assert(rv.take(rows@.len() as int) == rv);
    stats
}



/// The spans of a row cover its text exactly and keep the same text on
/// both sides; equal rows carry none.
pub open spec fn spans_cover_text(r: RowModel) -> bool {
    if r.kind == DiffKind::Equal {
        r.left_spans.len() == 0 && r.right_spans.len() == 0
    } else {
        spans_text(r.left_spans) == r.left_text && spans_text(r.right_spans) == r.right_text
            && kept_text(r.left_spans) == kept_text(r.right_spans)
    }
}

/// The numbered left lines that `rows` show, in row order.
pub open spec fn left_side(rows: Seq<RowModel>) -> Seq<(u32, Seq<char>)>
    decreases rows.len(),
{
    if rows.len() == 0 {
        seq![]
    } else {
        let p = left_side(rows.drop_last());
        match rows.last().left_line {
            Some(n) => p.push((n, rows.last().left_text)),
            None => p,
        }
    }
}

/// The numbered right lines that `rows` show, in row order.
pub open spec fn right_side(rows: Seq<RowModel>) -> Seq<(u32, Seq<char>)>
    decreases rows.len(),
{
    if rows.len() == 0 {
        seq![]
    } else {
        let p = right_side(rows.drop_last());
        match rows.last().right_line {
            Some(n) => p.push((n, rows.last().right_text)),
            None => p,
        }
    }
}

/// Every line of `lines`, numbered from 1 and without its terminator.
pub open spec fn numbered(lines: Seq<Seq<char>>) -> Seq<(u32, Seq<char>)> {
    Seq::new(lines.len(), |i: int| (line_no(0, i), trim_newlines(lines[i])))
}

proof fn lemma_sides_concat(a: Seq<RowModel>, b: Seq<RowModel>)
    ensures
        left_side(a + b) == left_side(a) + left_side(b),
        right_side(a + b) == right_side(a) + right_side(b),
    decreases b.len(),
{
    if b.len() == 0 {
        assert(a + b == a);
        assert(left_side(a) + left_side(b) == left_side(a));
        assert(right_side(a) + right_side(b) == right_side(a));
    } else {
        lemma_sides_concat(a, b.drop_last());
        assert((a + b).drop_last() == a + b.drop_last());
        assert((a + b).last() == b.last());
    }
}

proof fn lemma_left_run(rows: Seq<RowModel>, c: int, start: int, lines: Seq<Seq<char>>)
    requires
        0 <= c <= rows.len(),
        0 <= start,
        start + c <= lines.len(),
        forall|i: int|
            0 <= i < c ==> (#[trigger] rows[i]).left_line == Some(line_no(start, i))
                && rows[i].left_text == trim_newlines(lines[start + i]),
        forall|i: int| c <= i < rows.len() ==> (#[trigger] rows[i]).left_line is None,
    ensures
        left_side(rows) == numbered(lines).subrange(start, start + c),
    decreases rows.len(),
{
    if rows.len() > 0 {
        let last = rows.len() - 1;
        if last >= c {
            assert(rows[last].left_line is None);
            lemma_left_run(rows.drop_last(), c, start, lines);
        } else {
            lemma_left_run(rows.drop_last(), c - 1, start, lines);
            assert(numbered(lines).subrange(start, start + c) == numbered(lines).subrange(
                start,
                start + c - 1,
            ).push(numbered(lines)[start + c - 1]));
        }
    } else {
        assert(numbered(lines).subrange(start, start + c) == Seq::<(u32, Seq<char>)>::empty());
    }
}

proof fn lemma_right_run(rows: Seq<RowModel>, c: int, start: int, lines: Seq<Seq<char>>)
    requires
        0 <= c <= rows.len(),
        0 <= start,
        start + c <= lines.len(),
        forall|i: int|
            0 <= i < c ==> (#[trigger] rows[i]).right_line == Some(line_no(start, i))
                && rows[i].right_text == trim_newlines(lines[start + i]),
        forall|i: int| c <= i < rows.len() ==> (#[trigger] rows[i]).right_line is None,
    ensures
        right_side(rows) == numbered(lines).subrange(start, start + c),
    decreases rows.len(),
{
    if rows.len() > 0 {
        let last = rows.len() - 1;
        if last >= c {
            assert(rows[last].right_line is None);
            lemma_right_run(rows.drop_last(), c, start, lines);
        } else {
            lemma_right_run(rows.drop_last(), c - 1, start, lines);
            assert(numbered(lines).subrange(start, start + c) == numbered(lines).subrange(
                start,
                start + c - 1,
            ).push(numbered(lines)[start + c - 1]));
        }
    } else {
        assert(numbered(lines).subrange(start, start + c) == Seq::<(u32, Seq<char>)>::empty());
    }
}

proof fn lemma_op_sides(op: EditOp, ov: Seq<Seq<char>>, nv: Seq<Seq<char>>)
    requires
        0 <= op.old_start(),
        0 <= op.new_start(),
        op.old_start() + op.old_count() <= ov.len(),
        op.new_start() + op.new_count() <= nv.len(),
        forall|i: int| 0 <= i < op.old_count() ==> #[trigger] equal_item(op, ov, nv, i),
    ensures
        left_side(op_rows(op, ov, nv)) == numbered(ov).subrange(
            op.old_start(),
            op.old_start() + op.old_count(),
        ),
        right_side(op_rows(op, ov, nv)) == numbered(nv).subrange(
            op.new_start(),
            op.new_start() + op.new_count(),
        ),
{
    let rows = op_rows(op, ov, nv);
    match op {
        EditOp::Equal { old_index, new_index, len } => {
            assert forall|i: int| 0 <= i < len implies (#[trigger] rows[i]).right_text
                == trim_newlines(nv[new_index + i]) by {
                assert(equal_item(op, ov, nv, i));
            }
            lemma_left_run(rows, len as int, old_index as int, ov);
            lemma_right_run(rows, len as int, new_index as int, nv);
        },
        EditOp::Delete { old_index, old_len, new_index } => {
            lemma_left_run(rows, old_len as int, old_index as int, ov);
            lemma_right_run(rows, 0, new_index as int, nv);
        },
        EditOp::Insert { old_index, new_index, new_len } => {
            lemma_left_run(rows, 0, old_index as int, ov);
            lemma_right_run(rows, new_len as int, new_index as int, nv);
        },
        EditOp::Replace { old_index, old_len, new_index, new_len } => {
            lemma_left_run(rows, old_len as int, old_index as int, ov);
            lemma_right_run(rows, new_len as int, new_index as int, nv);
        },
    }
}

/// The 1-based number of line `i` of a range starting at 0-based `start`.
pub open spec fn line_no(start: int, i: int) -> u32 {
    (start + i + 1) as u32
}

/// The rows one line step produces: equal lines side by side, deleted lines
/// against a gap, inserted lines against a gap, and replaced lines zipped
/// with the shorter side padded by gaps.
pub open spec fn op_rows(op: EditOp, old: Seq<Seq<char>>, new: Seq<Seq<char>>) -> Seq<RowModel> {
    match op {
        EditOp::Equal { old_index, new_index, len } => Seq::new(
            len as nat,
            |i: int|
                row_spec(
                    Some(line_no(old_index as int, i)),
                    Some(line_no(new_index as int, i)),
                    trim_newlines(old[old_index + i]),
                    trim_newlines(old[old_index + i]),
                    DiffKind::Equal,
                ),
        ),
        EditOp::Delete { old_index, old_len, .. } => Seq::new(
            old_len as nat,
            |i: int|
                row_spec(
                    Some(line_no(old_index as int, i)),
                    None,
                    trim_newlines(old[old_index + i]),
                    seq![],
                    DiffKind::Delete,
                ),
        ),
        EditOp::Insert { new_index, new_len, .. } => Seq::new(
            new_len as nat,
            |i: int|
                row_spec(
                    None,
                    Some(line_no(new_index as int, i)),
                    seq![],
                    trim_newlines(new[new_index + i]),
                    DiffKind::Insert,
                ),
        ),
        EditOp::Replace { old_index, old_len, new_index, new_len } => Seq::new(
            (if old_len >= new_len {
                old_len
            } else {
                new_len
            }) as nat,
            |i: int|
                row_spec(
                    if i < old_len {
                        Some(line_no(old_index as int, i))
                    } else {
                        None
                    },
                    if i < new_len {
                        Some(line_no(new_index as int, i))
                    } else {
                        None
                    },
                    if i < old_len {
                        trim_newlines(old[old_index + i])
                    } else {
                        seq![]
                    },
                    if i < new_len {
                        trim_newlines(new[new_index + i])
                    } else {
                        seq![]
                    },
                    DiffKind::Replace,
                ),
        ),
    }
}

/// The rows of the first `k` line steps.
pub open spec fn rows_spec(ops: Seq<EditOp>, old: Seq<Seq<char>>, new: Seq<Seq<char>>, k: int) -> Seq<
    RowModel,
> {
    join(Seq::new(k as nat, |j: int| op_rows(ops[j], old, new)))
}

/// The aligned rows of two texts: none for two empty texts, otherwise the
/// rows of every step of the line edit script, in order.
pub open spec fn align_spec(left: Seq<char>, right: Seq<char>) -> Seq<RowModel> {
    if left.len() == 0 && right.len() == 0 {
        seq![]
    } else {
        let ops = line_diff(left, right);
        rows_spec(ops, split_lines(left), split_lines(right), ops.len() as int)
    }
}

fn push_op_rows(
    rows: &mut Vec<DiffRow>,
    op: EditOp,
    old_lines: &Vec<String>,
    new_lines: &Vec<String>,
)
    requires
        0 <= op.old_start(),
        0 <= op.new_start(),
        op.old_start() + op.old_count() <= old_lines@.len(),
        op.new_start() + op.new_count() <= new_lines@.len(),
        old_lines@.len() + new_lines@.len() <= u32::MAX,
        forall|i: int| 0 <= i < old(rows)@.len() ==> #[trigger] spans_cover_text(
            rows_view(old(rows)@)[i],
        ),
    ensures
        rows_view(final(rows)@) == rows_view(old(rows)@) + op_rows(
            op,
            strings_view(old_lines@),
            strings_view(new_lines@),
        ),
        final(rows)@.len() <= old(rows)@.len() + op.old_count() + op.new_count(),
        forall|i: int|
            0 <= i < final(rows)@.len() ==> #[trigger] spans_cover_text(
                rows_view(final(rows)@)[i],
            ),
{
    let ghost ov = strings_view(old_lines@);
    let ghost nv = strings_view(new_lines@);
    let ghost base = rows_view(rows@);
    let ghost run = op_rows(op, ov, nv);
    let ghost n0 = rows@.len();
    let count: usize = match op {
        EditOp::Equal { len, .. } => len,
        EditOp::Delete { old_len, .. } => old_len,
        EditOp::Insert { new_len, .. } => new_len,
        EditOp::Replace { old_len, new_len, .. } => if old_len >= new_len {
            old_len
        } else {
            new_len
        },
    };
    assert(base + run.take(0) == base);
    let mut i: usize = 0;
    while i < count
        invariant
            i <= count,
            count == run.len(),
            ov == strings_view(old_lines@),
            nv == strings_view(new_lines@),
            run == op_rows(op, ov, nv),
            0 <= op.old_start(),
            0 <= op.new_start(),
            op.old_start() + op.old_count() <= old_lines@.len(),
            op.new_start() + op.new_count() <= new_lines@.len(),
            old_lines@.len() + new_lines@.len() <= u32::MAX,
            count <= op.old_count() + op.new_count(),
            rows_view(rows@) == base + run.take(i as int),
            rows@.len() == n0 + i,
            forall|j: int| 0 <= j < rows@.len() ==> #[trigger] spans_cover_text(rows_view(rows@)[j]),
        decreases count - i,
    {
        let row = match op {
            EditOp::Equal { old_index, new_index, .. } => {
                let text = strip_nl(old_lines[old_index + i].as_str());
                diff_row(
                    Some(line_number(old_index, i)),
                    Some(line_number(new_index, i)),
                    text.clone(),
                    text,
                    DiffKind::Equal,
                )
            },
            EditOp::Delete { old_index, .. } => diff_row(
                Some(line_number(old_index, i)),
                None,
                strip_nl(old_lines[old_index + i].as_str()),
                String::new(),
                DiffKind::Delete,
            ),
            EditOp::Insert { new_index, .. } => diff_row(
                None,
                Some(line_number(new_index, i)),
                String::new(),
                strip_nl(new_lines[new_index + i].as_str()),
                DiffKind::Insert,
            ),
            EditOp::Replace { old_index, old_len, new_index, new_len } => {
                let left_text = if i < old_len {
                    strip_nl(old_lines[old_index + i].as_str())
                } else {
                    String::new()
                };
                let right_text = if i < new_len {
                    strip_nl(new_lines[new_index + i].as_str())
                } else {
                    String::new()
                };
                diff_row(
                    if i < old_len {
                        Some(line_number(old_index, i))
                    } else {
                        None
                    },
                    if i < new_len {
                        Some(line_number(new_index, i))
                    } else {
                        None
                    },
                    left_text,
                    right_text,
                    DiffKind::Replace,
                )
            },
        };
        assert(row@ == run[i as int]);
        let ghost before = rows@;
        rows.push(row);
        assert forall|j: int| 0 <= j < rows@.len() implies #[trigger] spans_cover_text(
            rows_view(rows@)[j],
        ) by {
            if j < before.len() {
                assert(rows_view(rows@)[j] == rows_view(before)[j]);
            }
        }
        assert(base + run.take(i + 1) == (base + run.take(i as int)).push(run[i as int]));
        i += 1;
    }
    assert(run.take(count as int) == run);
}

/// Sets two lists of lines side by side along a line edit script between
/// them: the rows of every step of the script, in order, each line of each
/// side once, numbered from 1 and without its terminator; rows that are not
/// equal carry the changed runs of each side. `stats` counts the rows of
/// each kind.
pub fn align_lines(ops: &Vec<EditOp>, old_lines: &Vec<String>, new_lines: &Vec<String>) -> (result: DiffResult)
    requires
        is_edit_script(ops@, strings_view(old_lines@), strings_view(new_lines@)),
        old_lines@.len() + new_lines@.len() <= u32::MAX,
    ensures
        rows_view(result.rows@) == rows_spec(
            ops@,
            strings_view(old_lines@),
            strings_view(new_lines@),
            ops@.len() as int,
        ),
        result.stats == stats_spec(rows_view(result.rows@)),
        result.stats.equal == count_kind(rows_view(result.rows@), DiffKind::Equal),
        result.stats.insert == count_kind(rows_view(result.rows@), DiffKind::Insert),
        result.stats.delete == count_kind(rows_view(result.rows@), DiffKind::Delete),
        result.stats.replace == count_kind(rows_view(result.rows@), DiffKind::Replace),
        forall|i: int|
            0 <= i < result.rows@.len() ==> #[trigger] spans_cover_text(
                rows_view(result.rows@)[i],
            ),
        left_side(rows_view(result.rows@)) == numbered(strings_view(old_lines@)),
        right_side(rows_view(result.rows@)) == numbered(strings_view(new_lines@)),
{
    let ghost o = ops@;
    let ghost ov = strings_view(old_lines@);
    let ghost nv = strings_view(new_lines@);
    assert(ov.len() == old_lines@.len());
    assert(nv.len() == new_lines@.len());
    let mut rows: Vec<DiffRow> = Vec::new();
    let mut k: usize = 0;
    assert(rows_view(rows@) == rows_spec(o, ov, nv, 0));
    assert(numbered(ov).take(0) == Seq::<(u32, Seq<char>)>::empty());
    assert(numbered(nv).take(0) == Seq::<(u32, Seq<char>)>::empty());
    while k < ops.len()
        invariant
            k <= o.len(),
            o == ops@,
            ov == strings_view(old_lines@),
            nv == strings_view(new_lines@),
            is_edit_script(o, ov, nv),
            old_lines@.len() + new_lines@.len() <= u32::MAX,
            rows_view(rows@) == rows_spec(o, ov, nv, k as int),
            rows@.len() <= old_pos(o, k as int) + new_pos(o, k as int),
            forall|j: int| 0 <= j < rows@.len() ==> #[trigger] spans_cover_text(rows_view(rows@)[j]),
            left_side(rows_view(rows@)) == numbered(ov).take(old_pos(o, k as int)),
            right_side(rows_view(rows@)) == numbered(nv).take(new_pos(o, k as int)),
        decreases o.len() - k,
    {
        proof {
            lemma_step_in_bounds(o, ov, nv, k as int);
            lemma_pos_bounds(o, k + 1, o.len() as int);
            lemma_join_new(|j: int| op_rows(o[j], ov, nv), k as int);
            assert forall|i: int| 0 <= i < o[k as int].old_count() implies #[trigger] equal_item(
                o[k as int],
                ov,
                nv,
                i,
            ) by {}
            lemma_op_sides(o[k as int], ov, nv);
            lemma_sides_concat(rows_view(rows@), op_rows(o[k as int], ov, nv));
            lemma_seq_take_extend(numbered(ov), old_pos(o, k as int), old_pos(o, k + 1));
            lemma_seq_take_extend(numbered(nv), new_pos(o, k as int), new_pos(o, k + 1));
        }
        push_op_rows(&mut rows, ops[k], old_lines, new_lines);
        k += 1;
    }
    proof {
        lemma_pos_bounds(o, 0, o.len() as int);
        assert(numbered(ov).take(ov.len() as int) == numbered(ov));
        assert(numbered(nv).take(nv.len() as int) == numbered(nv));
    }
    let stats = stats_from(&rows);
    DiffResult { rows, stats }
}

/// Rows in which every row has one kind count that kind once per row, and
/// no other.
proof fn lemma_count_kind_uniform(rows: Seq<RowModel>, kind: DiffKind, k: DiffKind)
    requires
        forall|i: int| 0 <= i < rows.len() ==> (#[trigger] rows[i]).kind == kind,
    ensures
        count_kind(rows, k) == if k == kind {
            rows.len()
        } else {
            0
        },
    decreases rows.len(),
{
    if rows.len() > 0 {
        lemma_count_kind_uniform(rows.drop_last(), kind, k);
    }
}

proof fn lemma_count_kind_concat(a: Seq<RowModel>, b: Seq<RowModel>, k: DiffKind)
    ensures
        count_kind(a + b, k) == count_kind(a, k) + count_kind(b, k),
    decreases b.len(),
{
    if b.len() > 0 {
        lemma_count_kind_concat(a, b.drop_last(), k);
        assert((a + b).drop_last() == a + b.drop_last());
    } else {
        assert(a + b == a);
    }
}

/// The equal rows of the first `k` steps are as many as the items their
/// equal steps keep.
proof fn lemma_equal_rows_count(ops: Seq<EditOp>, old: Seq<Seq<char>>, new: Seq<Seq<char>>, k: int)
    requires
        0 <= k <= ops.len(),
    ensures
        count_kind(rows_spec(ops, old, new, k), DiffKind::Equal) == equal_total(ops, k),
    decreases k,
{
    if k > 0 {
        lemma_equal_rows_count(ops, old, new, k - 1);
        lemma_join_new(|j: int| op_rows(ops[j], old, new), k - 1);
        let prev = rows_spec(ops, old, new, k - 1);
        let op = ops[k - 1];
        let run = op_rows(op, old, new);
        assert(rows_spec(ops, old, new, k) == prev + run);
        lemma_count_kind_concat(prev, run, DiffKind::Equal);
        let kind = match op {
            EditOp::Equal { .. } => DiffKind::Equal,
            EditOp::Delete { .. } => DiffKind::Delete,
            EditOp::Insert { .. } => DiffKind::Insert,
            EditOp::Replace { .. } => DiffKind::Replace,
        };
        assert forall|i: int| 0 <= i < run.len() implies (#[trigger] run[i]).kind == kind by {}
        lemma_count_kind_uniform(run, kind, DiffKind::Equal);
    }
}

/// Rows made from equal steps only are all equal rows.
proof fn lemma_equal_steps_rows(ops: Seq<EditOp>, old: Seq<Seq<char>>, new: Seq<Seq<char>>, k: int)
    requires
        0 <= k <= ops.len(),
        all_equal_steps(ops),
    ensures
        forall|i: int| 0 <= i < rows_spec(ops, old, new, k).len() ==> (#[trigger] rows_spec(ops, old, new, k)[i]).kind
            == DiffKind::Equal,
    decreases k,
{
    if k > 0 {
        lemma_equal_steps_rows(ops, old, new, k - 1);
        lemma_join_new(|j: int| op_rows(ops[j], old, new), k - 1);
        let prev = rows_spec(ops, old, new, k - 1);
        let run = op_rows(ops[k - 1], old, new);
        assert(ops[k - 1] is Equal);
        assert forall|i: int| 0 <= i < rows_spec(ops, old, new, k).len() implies (#[trigger] rows_spec(ops, old, new, k)[i]).kind
            == DiffKind::Equal by {
            assert(rows_spec(ops, old, new, k) == prev + run);
            if i >= prev.len() {
                assert(run[i - prev.len()].kind == DiffKind::Equal);
            } else {
                assert(prev[i].kind == DiffKind::Equal);
            }
        }
    }
}

/// Aligns two texts line by line.
///
/// The rows follow the line edit script between the two texts: every line of
/// each side appears once, in order, numbered from 1; lines lose their
/// terminators; rows that are not equal carry the changed runs of each side.
/// `stats` counts the rows of each kind.
pub fn align_diff(left: &str, right: &str) -> (result: DiffResult)
    requires
        split_lines(left@).len() + split_lines(right@).len() <= u32::MAX,
    ensures
        rows_view(result.rows@) == align_spec(left@, right@),
        result.stats == stats_spec(rows_view(result.rows@)),
        result.stats.equal == count_kind(rows_view(result.rows@), DiffKind::Equal),
        result.stats.insert == count_kind(rows_view(result.rows@), DiffKind::Insert),
        result.stats.delete == count_kind(rows_view(result.rows@), DiffKind::Delete),
        result.stats.replace == count_kind(rows_view(result.rows@), DiffKind::Replace),
        forall|i: int|
            0 <= i < result.rows@.len() ==> #[trigger] spans_cover_text(
                rows_view(result.rows@)[i],
            ),
        left_side(rows_view(result.rows@)) == numbered(split_lines(left@)),
        right_side(rows_view(result.rows@)) == numbered(split_lines(right@)),
        left@ == right@ ==> forall|i: int|
            0 <= i < result.rows@.len() ==> (#[trigger] result.rows@[i]).kind == DiffKind::Equal,
        forall|i: int|
            0 <= i < result.rows@.len() && (#[trigger] result.rows@[i]).kind != DiffKind::Equal ==> kept_text(
                spans_view(result.rows@[i].left_spans@),
            ) == kept_text(spans_view(result.rows@[i].right_spans@)),
        forall|is: Seq<int>, js: Seq<int>|
            #[trigger] common_picks(split_lines(left@), split_lines(right@), is, js) ==> is.len()
                <= count_kind(rows_view(result.rows@), DiffKind::Equal),
        exists|is: Seq<int>, js: Seq<int>|
            #[trigger] common_picks(split_lines(left@), split_lines(right@), is, js) && is.len()
                == count_kind(rows_view(result.rows@), DiffKind::Equal),
{
    if left.is_empty() && right.is_empty() {
        assert(split_lines(left@) == Seq::<Seq<char>>::empty());
        assert(split_lines(right@) == Seq::<Seq<char>>::empty());
        assert(numbered(Seq::<Seq<char>>::empty()) == Seq::<(u32, Seq<char>)>::empty());
        let rows: Vec<DiffRow> = Vec::new();
        let stats = stats_from(&rows);
        assert forall|is: Seq<int>, js: Seq<int>|
            #[trigger] common_picks(split_lines(left@), split_lines(right@), is, js) implies is.len() == 0 by {
            if is.len() > 0 {
                assert(0 <= is[0] < split_lines(left@).len());
            }
        }
        assert(common_picks(split_lines(left@), split_lines(right@), Seq::<int>::empty(), Seq::<int>::empty()));
        return DiffResult { rows, stats };
    }
    let diff = diff_lines(left, right);
    proof {
        assert(strings_view(diff.old_lines@).len() == diff.old_lines@.len());
        assert(strings_view(diff.new_lines@).len() == diff.new_lines@.len());
    }
    let result = align_lines(&diff.ops, &diff.old_lines, &diff.new_lines);
    proof {
        assert forall|i: int|
            0 <= i < result.rows@.len() && (#[trigger] result.rows@[i]).kind != DiffKind::Equal implies kept_text(
                spans_view(result.rows@[i].left_spans@),
            ) == kept_text(spans_view(result.rows@[i].right_spans@)) by {
            assert(rows_view(result.rows@)[i] == result.rows@[i]@);
            assert(spans_cover_text(rows_view(result.rows@)[i]));
        }
        law_shortest_script_keeps_lcs(diff.ops@, split_lines(left@), split_lines(right@));
        lemma_equal_rows_count(
            diff.ops@,
            strings_view(diff.old_lines@),
            strings_view(diff.new_lines@),
            diff.ops@.len() as int,
        );
        if left@ == right@ {
            let ov = strings_view(diff.old_lines@);
            let nv = strings_view(diff.new_lines@);
            lemma_equal_steps_rows(diff.ops@, ov, nv, diff.ops@.len() as int);
            assert forall|i: int| 0 <= i < result.rows@.len() implies (#[trigger] result.rows@[i]).kind
                == DiffKind::Equal by {
                assert(rows_view(result.rows@)[i] == result.rows@[i]@);
            }
        }
    }
    result
}

} // verus!
