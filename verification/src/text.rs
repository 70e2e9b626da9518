use vstd::prelude::*;

use crate::chars::char_vec;

verus! {

/// Whether two strings hold the same characters.
pub fn str_eq(a: &str, b: &str) -> (r: bool)
    ensures
        r == (a@ == b@),
{
    let x = char_vec(a);
    let y = char_vec(b);
    if x.len() != y.len() {
        return false;
    }
    let mut i: usize = 0;
    while i < x.len()
        invariant
            i <= x@.len(),
            x@.len() == y@.len(),
            x@ == a@,
            y@ == b@,
            forall|j: int| 0 <= j < i ==> x@[j] == y@[j],
        decreases x@.len() - i,
    {
        if x[i] != y[i] {
            assert(x@[i as int] != y@[i as int]);
            return false;
        }
        i += 1;
    }
    assert(x@ == y@);
    true
}

/// Which rows a list view shows.
#[derive(Debug, Clone, Copy, PartialEq, Eq, Structural)]
pub enum RowFilter {
    All,
    Same,
    Diff,
}

/// The filter a view names: `"same"` keeps equal rows, `"diff"` keeps the
/// others, and any other name keeps every row.
pub open spec fn filter_of(name: Seq<char>) -> RowFilter {
    if name == "same"@ {
        RowFilter::Same
    } else if name == "diff"@ {
        RowFilter::Diff
    } else {
        RowFilter::All
    }
}

pub fn parse_filter(name: &str) -> (f: RowFilter)
    ensures
        f == filter_of(name@),
{
    if str_eq(name, "same") {
        RowFilter::Same
    } else if str_eq(name, "diff") {
        RowFilter::Diff
    } else {
        RowFilter::All
    }
}

/// Whether a row that is equal (`equal`) passes the filter.
pub open spec fn passes(filter: RowFilter, equal: bool) -> bool {
    match filter {
        RowFilter::Same => equal,
        RowFilter::Diff => !equal,
        RowFilter::All => true,
    }
}

/// The part of `s` that a window of `limit` items starting at `offset`
/// shows.
pub open spec fn window_of<A>(s: Seq<A>, offset: int, limit: int) -> Seq<A> {
    let start = if offset < s.len() {
        offset
    } else {
        s.len() as int
    };
    let end = if offset + limit < s.len() {
        offset + limit
    } else {
        s.len() as int
    };
    s.subrange(start, end)
}

} // verus!
