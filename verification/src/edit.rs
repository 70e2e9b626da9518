use vstd::prelude::*;

verus! {

/// One step of an edit script between an old and a new sequence, with the
/// same fields as the steps the diff engine reports.
#[derive(Debug, Clone, Copy, PartialEq, Eq)]
pub enum EditOp {
    Equal { old_index: usize, new_index: usize, len: usize },
    Delete { old_index: usize, old_len: usize, new_index: usize },
    Insert { old_index: usize, new_index: usize, new_len: usize },
    Replace { old_index: usize, old_len: usize, new_index: usize, new_len: usize },
}

impl EditOp {
    pub open spec fn old_start(self) -> int {
        match self {
            EditOp::Equal { old_index, .. } => old_index as int,
            EditOp::Delete { old_index, .. } => old_index as int,
            EditOp::Insert { old_index, .. } => old_index as int,
            EditOp::Replace { old_index, .. } => old_index as int,
        }
    }

    pub open spec fn new_start(self) -> int {
        match self {
            EditOp::Equal { new_index, .. } => new_index as int,
            EditOp::Delete { new_index, .. } => new_index as int,
            EditOp::Insert { new_index, .. } => new_index as int,
            EditOp::Replace { new_index, .. } => new_index as int,
        }
    }

    /// How many old items the step covers.
    pub open spec fn old_count(self) -> int {
        match self {
            EditOp::Equal { len, .. } => len as int,
            EditOp::Delete { old_len, .. } => old_len as int,
            EditOp::Insert { .. } => 0,
            EditOp::Replace { old_len, .. } => old_len as int,
        }
    }

    /// How many new items the step covers.
    pub open spec fn new_count(self) -> int {
        match self {
            EditOp::Equal { len, .. } => len as int,
            EditOp::Delete { .. } => 0,
            EditOp::Insert { new_len, .. } => new_len as int,
            EditOp::Replace { new_len, .. } => new_len as int,
        }
    }
}

/// Number of old items covered by the first `k` steps.
pub open spec fn old_pos(ops: Seq<EditOp>, k: int) -> int
    decreases k,
{
    if k <= 0 {
        0
    } else {
        old_pos(ops, k - 1) + ops[k - 1].old_count()
    }
}

/// Number of new items covered by the first `k` steps.
pub open spec fn new_pos(ops: Seq<EditOp>, k: int) -> int
    decreases k,
{
    if k <= 0 {
        0
    } else {
        new_pos(ops, k - 1) + ops[k - 1].new_count()
    }
}

/// Item `i` of an `Equal` step is the same on both sides.
pub open spec fn equal_item<A>(op: EditOp, old: Seq<A>, new: Seq<A>, i: int) -> bool {
    op is Equal ==> old[op.old_start() + i] == new[op.new_start() + i]
}

/// Total length of the `Equal` steps among the first `k` steps.
pub open spec fn equal_total(ops: Seq<EditOp>, k: int) -> int
    decreases k,
{
    if k <= 0 {
        0
    } else {
        equal_total(ops, k - 1) + if ops[k - 1] is Equal {
            ops[k - 1].old_count()
        } else {
            0
        }
    }
}

/// `is` and `js` pick a common subsequence of `old` and `new`: as many
/// positions of each, strictly increasing, at equal items.
pub open spec fn common_picks<A>(old: Seq<A>, new: Seq<A>, is: Seq<int>, js: Seq<int>) -> bool {
    &&& is.len() == js.len()
    &&& forall|t: int|
        0 <= t < is.len() ==> 0 <= #[trigger] is[t] < old.len() && 0 <= js[t] < new.len() && old[is[t]]
            == new[js[t]]
    &&& forall|t: int, u: int| 0 <= t < u < is.len() ==> #[trigger] is[t] < #[trigger] is[u] && js[t] < js[u]
}

/// The equal steps of `ops` keep at least as many items as any common
/// subsequence of `old` and `new` has: the script is a shortest one.
pub open spec fn keeps_most<A>(ops: Seq<EditOp>, old: Seq<A>, new: Seq<A>) -> bool {
    forall|is: Seq<int>, js: Seq<int>|
        #[trigger] common_picks(old, new, is, js) ==> is.len() <= equal_total(ops, ops.len() as int)
}

/// The picks of a list of position pairs.
pub open spec fn firsts(p: Seq<(int, int)>) -> Seq<int> {
    p.map_values(|x: (int, int)| x.0)
}

pub open spec fn seconds(p: Seq<(int, int)>) -> Seq<int> {
    p.map_values(|x: (int, int)| x.1)
}

/// The position pairs an equal step keeps.
pub open spec fn step_pairs(op: EditOp) -> Seq<(int, int)> {
    if op is Equal {
        Seq::new(op.old_count() as nat, |i: int| (op.old_start() + i, op.new_start() + i))
    } else {
        seq![]
    }
}

/// The position pairs the equal steps among the first `k` steps keep.
pub open spec fn equal_pairs(ops: Seq<EditOp>, k: int) -> Seq<(int, int)>
    decreases k,
{
    if k <= 0 {
        seq![]
    } else {
        equal_pairs(ops, k - 1) + step_pairs(ops[k - 1])
    }
}

proof fn lemma_equal_pairs<A>(ops: Seq<EditOp>, old: Seq<A>, new: Seq<A>, k: int)
    requires
        is_edit_script(ops, old, new),
        0 <= k <= ops.len(),
    ensures
        equal_pairs(ops, k).len() == equal_total(ops, k),
        forall|t: int|
            0 <= t < equal_pairs(ops, k).len() ==> 0 <= (#[trigger] equal_pairs(ops, k)[t]).0 < old_pos(ops, k)
                && 0 <= equal_pairs(ops, k)[t].1 < new_pos(ops, k) && old[equal_pairs(ops, k)[t].0]
                == new[equal_pairs(ops, k)[t].1],
        forall|t: int, u: int|
            0 <= t < u < equal_pairs(ops, k).len() ==> (#[trigger] equal_pairs(ops, k)[t]).0 < (
            #[trigger] equal_pairs(ops, k)[u]).0 && equal_pairs(ops, k)[t].1 < equal_pairs(ops, k)[u].1,
    decreases k,
{
    if k > 0 {
        let j = k - 1;
        lemma_equal_pairs(ops, old, new, j);
        lemma_step_in_bounds(ops, old, new, j);
        lemma_pos_bounds(ops, 0, j);
        let prev = equal_pairs(ops, j);
        let run = step_pairs(ops[j]);
        let all = equal_pairs(ops, k);
        assert(all == prev + run);
        assert forall|t: int| 0 <= t < all.len() implies 0 <= (#[trigger] all[t]).0 < old_pos(ops, k) && 0
            <= all[t].1 < new_pos(ops, k) && old[all[t].0] == new[all[t].1] by {
            if t < prev.len() {
                assert(all[t] == prev[t]);
            } else {
                let i = t - prev.len();
                assert(all[t] == run[i]);
                assert(equal_item(ops[j], old, new, i));
            }
        }
        assert forall|t: int, u: int| 0 <= t < u < all.len() implies (#[trigger] all[t]).0 < (#[trigger] all[u]).0
            && all[t].1 < all[u].1 by {
            if u < prev.len() {
                assert(all[t] == prev[t] && all[u] == prev[u]);
            } else if t < prev.len() {
                assert(all[t] == prev[t] && all[u] == run[u - prev.len()]);
            } else {
                assert(all[t] == run[t - prev.len()] && all[u] == run[u - prev.len()]);
            }
        }
    }
}

/// A shortest edit script keeps a longest common subsequence: some common
/// subsequence is as long as what its equal steps keep, and none is longer.
pub proof fn law_shortest_script_keeps_lcs<A>(ops: Seq<EditOp>, old: Seq<A>, new: Seq<A>)
    requires
        is_edit_script(ops, old, new),
        keeps_most(ops, old, new),
    ensures
        exists|is: Seq<int>, js: Seq<int>|
            #[trigger] common_picks(old, new, is, js) && is.len() == equal_total(ops, ops.len() as int),
        forall|is: Seq<int>, js: Seq<int>|
            #[trigger] common_picks(old, new, is, js) ==> is.len() <= equal_total(ops, ops.len() as int),
{
    let n = ops.len() as int;
    lemma_equal_pairs(ops, old, new, n);
    let p = equal_pairs(ops, n);
    let is = firsts(p);
    let js = seconds(p);
    assert forall|t: int| 0 <= t < is.len() implies 0 <= #[trigger] is[t] < old.len() && 0 <= js[t] < new.len()
        && old[is[t]] == new[js[t]] by {
        assert(is[t] == p[t].0 && js[t] == p[t].1);
    }
    assert forall|t: int, u: int| 0 <= t < u < is.len() implies #[trigger] is[t] < #[trigger] is[u] && js[t]
        < js[u] by {
        assert(is[t] == p[t].0 && js[t] == p[t].1);
        assert(is[u] == p[u].0 && js[u] == p[u].1);
    }
    assert(common_picks(old, new, is, js));
}

/// Every step of an edit script keeps its items.
pub open spec fn all_equal_steps(ops: Seq<EditOp>) -> bool {
    forall|k: int| 0 <= k < ops.len() ==> #[trigger] ops[k] is Equal
}

/// `ops` is an edit script from `old` to `new`: the steps cover both
/// sequences from start to end, in order, each step starting where the
/// previous one ended, and an `Equal` step joins equal items.
pub open spec fn is_edit_script<A>(ops: Seq<EditOp>, old: Seq<A>, new: Seq<A>) -> bool {
    &&& forall|k: int|
        0 <= k < ops.len() ==> (#[trigger] ops[k]).old_start() == old_pos(ops, k)
            && ops[k].new_start() == new_pos(ops, k)
    &&& old_pos(ops, ops.len() as int) == old.len()
    &&& new_pos(ops, ops.len() as int) == new.len()
    &&& forall|k: int, i: int|
        0 <= k < ops.len() && 0 <= i < ops[k].old_count() ==> #[trigger] equal_item(
            ops[k],
            old,
            new,
            i,
        )
}

/// Positions covered so far never decrease and stay within the whole script.
pub proof fn lemma_pos_bounds(ops: Seq<EditOp>, j: int, k: int)
    requires
        0 <= j <= k <= ops.len(),
    ensures
        0 <= old_pos(ops, j) <= old_pos(ops, k),
        0 <= new_pos(ops, j) <= new_pos(ops, k),
    decreases k,
{
    if k > 0 {
        if j < k {
            lemma_pos_bounds(ops, j, k - 1);
        } else {
            lemma_pos_bounds(ops, 0, k - 1);
        }
    }
}

/// Within a script, step `k` covers old items `[old_pos(k), old_pos(k + 1))`
/// and new items `[new_pos(k), new_pos(k + 1))`, all inside the sequences.
pub proof fn lemma_step_in_bounds<A>(ops: Seq<EditOp>, old: Seq<A>, new: Seq<A>, k: int)
    requires
        is_edit_script(ops, old, new),
        0 <= k < ops.len(),
    ensures
        ops[k].old_start() == old_pos(ops, k),
        ops[k].new_start() == new_pos(ops, k),
        0 <= ops[k].old_start(),
        0 <= ops[k].new_start(),
        ops[k].old_start() + ops[k].old_count() <= old.len(),
        ops[k].new_start() + ops[k].new_count() <= new.len(),
        old_pos(ops, k + 1) == old_pos(ops, k) + ops[k].old_count(),
        new_pos(ops, k + 1) == new_pos(ops, k) + ops[k].new_count(),
{
    lemma_pos_bounds(ops, k, k + 1);
    lemma_pos_bounds(ops, k + 1, ops.len() as int);
}

} // verus!
