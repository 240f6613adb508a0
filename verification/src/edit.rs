//! Edit scripts between two token sequences.
//!
//! Given the tokens of a paired minus/plus line, `compute_edit_ops` produces
//! the shortest edit script as a list of [`EditOp`]s whose covered ranges
//! partition both token sequences exactly.  `coalesce_edit_ops` then folds
//! equal runs shorter than a configured minimum into their neighbouring
//! changed runs, so that a highlighted word is not visually fragmented
//! around an incidental shared token.

use vstd::prelude::*;

verus! {

/// One operation of an edit script over two token sequences.
///
/// Ranges are half-open token index ranges: a `minus_*` range indexes the
/// minus (removed) token sequence, a `plus_*` range the plus (added) one.
#[derive(Clone, Copy, Debug, PartialEq, Eq, Structural)]
pub enum EditOp {
    /// A run of tokens present unchanged on both sides.
    Equal { minus_start: usize, minus_end: usize, plus_start: usize, plus_end: usize },
    /// A run of minus tokens with no counterpart on the plus side.
    Delete { minus_start: usize, minus_end: usize },
    /// A run of plus tokens with no counterpart on the minus side.
    Insert { plus_start: usize, plus_end: usize },
    /// A run of minus tokens replaced by a run of plus tokens.
    Replace { minus_start: usize, minus_end: usize, plus_start: usize, plus_end: usize },
}

/// The op is well formed and its covered ranges begin exactly at the
/// cursor `(ms, ps)`.
pub open spec fn op_starts_ok(op: EditOp, ms: int, ps: int) -> bool {
    match op {
        EditOp::Equal { minus_start, minus_end, plus_start, plus_end } =>
            minus_start == ms && plus_start == ps && minus_start < minus_end
            && minus_end - minus_start == plus_end - plus_start,
        EditOp::Delete { minus_start, minus_end } =>
            minus_start == ms && minus_start < minus_end,
        EditOp::Insert { plus_start, plus_end } =>
            plus_start == ps && plus_start < plus_end,
        EditOp::Replace { minus_start, minus_end, plus_start, plus_end } =>
            minus_start == ms && plus_start == ps && minus_start < minus_end
            && plus_start < plus_end,
    }
}

/// The minus cursor after the op, starting from minus cursor `ms`.
pub open spec fn op_minus_next(op: EditOp, ms: int) -> int {
    match op {
        EditOp::Equal { minus_end, .. } => minus_end as int,
        EditOp::Delete { minus_end, .. } => minus_end as int,
        EditOp::Insert { .. } => ms,
        EditOp::Replace { minus_end, .. } => minus_end as int,
    }
}

/// The plus cursor after the op, starting from plus cursor `ps`.
pub open spec fn op_plus_next(op: EditOp, ps: int) -> int {
    match op {
        EditOp::Equal { plus_end, .. } => plus_end as int,
        EditOp::Delete { .. } => ps,
        EditOp::Insert { plus_end, .. } => plus_end as int,
        EditOp::Replace { plus_end, .. } => plus_end as int,
    }
}

/// The ops' covered ranges, concatenated in order, are exactly the minus
/// range `[ms, me)` and the plus range `[ps, pe)`: no gap, no overlap.
///
/// With `ms == ps == 0`, `me` the minus token count and `pe` the plus token
/// count, this is the partition invariant of an edit script: concatenating
/// the covered ranges reproduces each original token sequence exactly.
pub open spec fn ops_cover(ops: Seq<EditOp>, ms: int, ps: int, me: int, pe: int) -> bool
    decreases ops.len(),
{
    if ops.len() == 0 {
        ms == me && ps == pe
    } else {
        op_starts_ok(ops[0], ms, ps)
        && ops_cover(ops.skip(1), op_minus_next(ops[0], ms), op_plus_next(ops[0], ps), me, pe)
    }
}

/// An `Equal` op really covers equal tokens of the two sequences.
pub open spec fn op_tokens_agree(op: EditOp, a: Seq<Seq<u8>>, b: Seq<Seq<u8>>) -> bool {
    match op {
        EditOp::Equal { minus_start, minus_end, plus_start, plus_end } =>
            minus_end <= a.len() && plus_end <= b.len()
            && forall|k: int| minus_start <= k < minus_end
                ==> #[trigger] a[k] == b[k - minus_start + plus_start],
        _ => true,
    }
}

/// Every `Equal` op of the script covers equal tokens.
pub open spec fn ops_tokens_agree(ops: Seq<EditOp>, a: Seq<Seq<u8>>, b: Seq<Seq<u8>>) -> bool {
    forall|i: int| 0 <= i < ops.len() ==> op_tokens_agree(#[trigger] ops[i], a, b)
}

/// How many tokens the op reports as unchanged.
pub open spec fn op_equal_len(op: EditOp) -> nat {
    match op {
        EditOp::Equal { minus_start, minus_end, .. } => (minus_end - minus_start) as nat,
        _ => 0,
    }
}

/// Total number of tokens the script reports as unchanged.
pub open spec fn equal_total(ops: Seq<EditOp>) -> nat
    decreases ops.len(),
{
    if ops.len() == 0 {
        0
    } else {
        op_equal_len(ops[0]) + equal_total(ops.skip(1))
    }
}

/// Equal and changed runs alternate: no two adjacent ops are both `Equal`,
/// and no two adjacent ops are both changed (those would form one run).
pub open spec fn runs_alternate(ops: Seq<EditOp>) -> bool {
    forall|i: int| 0 <= i && i + 1 < ops.len()
        ==> ((#[trigger] ops[i]) is Equal) != (ops[i + 1] is Equal)
}

/// Length of a longest common subsequence of `a.take(i)` and `b.take(j)`.
pub open spec fn lcs_at(a: Seq<Seq<u8>>, b: Seq<Seq<u8>>, i: int, j: int) -> nat
    decreases i + j,
    when i >= 0 && j >= 0
{
    if i <= 0 || j <= 0 {
        0
    } else if a[i - 1] == b[j - 1] {
        (lcs_at(a, b, i - 1, j - 1) + 1) as nat
    } else if lcs_at(a, b, i - 1, j) >= lcs_at(a, b, i, j - 1) {
        lcs_at(a, b, i - 1, j)
    } else {
        lcs_at(a, b, i, j - 1)
    }
}

/// Length of a longest common subsequence of the two token sequences.
pub open spec fn lcs_len(a: Seq<Seq<u8>>, b: Seq<Seq<u8>>) -> nat {
    lcs_at(a, b, a.len() as int, b.len() as int)
}

/// The token sequence as a sequence of byte sequences.
pub open spec fn token_views(ts: Seq<Vec<u8>>) -> Seq<Seq<u8>> {
    ts.map_values(|t: Vec<u8>| t@)
}

pub proof fn lemma_lcs_at_bounds(a: Seq<Seq<u8>>, b: Seq<Seq<u8>>, i: int, j: int)
    requires
        0 <= i,
        0 <= j,
    ensures
        lcs_at(a, b, i, j) <= i,
        lcs_at(a, b, i, j) <= j,
    decreases i + j,
{
    if i <= 0 || j <= 0 {
    } else if a[i - 1] == b[j - 1] {
        lemma_lcs_at_bounds(a, b, i - 1, j - 1);
    } else {
        lemma_lcs_at_bounds(a, b, i - 1, j);
        lemma_lcs_at_bounds(a, b, i, j - 1);
    }
}

/// The two byte sequences are equal.
fn token_eq(x: &Vec<u8>, y: &Vec<u8>) -> (r: bool)
    ensures
        r == (x@ == y@),
{
    if x.len() != y.len() {
        assert(x@ != y@);
        return false;
    }
    let mut i: usize = 0;
    while i < x.len()
        invariant
            i <= x.len(),
            x@.len() == y@.len(),
            forall|k: int| 0 <= k < i ==> x@[k] == y@[k],
        decreases x@.len() - i,
    {
        if x[i] != y[i] {
            return false;
        }
        i = i + 1;
    }
    proof {
        assert(x@ =~= y@);
    }
    true
}

/// The full dynamic-programming table of longest-common-subsequence lengths
/// over prefixes of the two token sequences.
pub(crate) fn lcs_table(a: &Vec<Vec<u8>>, b: &Vec<Vec<u8>>) -> (t: Vec<Vec<usize>>)
    requires
        a@.len() < usize::MAX,
        b@.len() < usize::MAX,
    ensures
        t@.len() == a@.len() + 1,
        forall|i: int| 0 <= i < t@.len() ==> (#[trigger] t@[i])@.len() == b@.len() + 1,
        forall|i: int, j: int| 0 <= i <= a@.len() && 0 <= j <= b@.len()
            ==> #[trigger] t@[i]@[j] == lcs_at(token_views(a@), token_views(b@), i, j),
{
    let ghost av = token_views(a@);
    let ghost bv = token_views(b@);
    let m = a.len();
    let n = b.len();
    let mut t: Vec<Vec<usize>> = Vec::new();
    let mut i: usize = 0;
    while i <= m
        invariant
            i <= m + 1,
            m == a@.len(),
            n == b@.len(),
            m < usize::MAX,
            n < usize::MAX,
            av == token_views(a@),
            bv == token_views(b@),
            t@.len() == i,
            forall|p: int| 0 <= p < i ==> (#[trigger] t@[p])@.len() == n + 1,
            forall|p: int, q: int| 0 <= p < i && 0 <= q <= n
                ==> #[trigger] t@[p]@[q] == lcs_at(av, bv, p, q),
        decreases m + 1 - i,
    {
        let mut row: Vec<usize> = Vec::new();
        let mut j: usize = 0;
        while j <= n
            invariant
                j <= n + 1,
                i <= m,
                m == a@.len(),
                n == b@.len(),
                m < usize::MAX,
                n < usize::MAX,
                av == token_views(a@),
                bv == token_views(b@),
                t@.len() == i,
                forall|p: int| 0 <= p < i ==> (#[trigger] t@[p])@.len() == n + 1,
                forall|p: int, q: int| 0 <= p < i && 0 <= q <= n
                    ==> #[trigger] t@[p]@[q] == lcs_at(av, bv, p, q),
                row@.len() == j,
                forall|q: int| 0 <= q < j ==> #[trigger] row@[q] == lcs_at(av, bv, i as int, q),
            decreases n + 1 - j,
        {
            let v: usize;
            if i == 0 || j == 0 {
                v = 0;
            } else if token_eq(&a[i - 1], &b[j - 1]) {
                proof {
                    assert(av[i - 1] == a@[i - 1]@);
                    assert(bv[j - 1] == b@[j - 1]@);
                    lemma_lcs_at_bounds(av, bv, i - 1, j - 1);
                }
                v = t[i - 1][j - 1] + 1;
            } else {
                proof {
                    assert(av[i - 1] == a@[i - 1]@);
                    assert(bv[j - 1] == b@[j - 1]@);
                }
                let up = t[i - 1][j];
                let left = row[j - 1];
                if up >= left {
                    v = up;
                } else {
                    v = left;
                }
            }
            assert(v == lcs_at(av, bv, i as int, j as int));
            row.push(v);
            j = j + 1;
        }
        t.push(row);
        i = i + 1;
    }
    t
}

proof fn lemma_ops_cover_prepend(op: EditOp, ops: Seq<EditOp>, ms: int, ps: int, me: int, pe: int)
    requires
        op_starts_ok(op, ms, ps),
        ops_cover(ops, op_minus_next(op, ms), op_plus_next(op, ps), me, pe),
    ensures
        ops_cover(seq![op] + ops, ms, ps, me, pe),
{
    let s = seq![op] + ops;
    assert(s[0] == op);
    assert(s.skip(1) =~= ops);
}

proof fn lemma_ops_cover_push(ops: Seq<EditOp>, op: EditOp, ms: int, ps: int, me: int, pe: int)
    requires
        ops_cover(ops, ms, ps, me, pe),
        op_starts_ok(op, me, pe),
    ensures
        ops_cover(ops.push(op), ms, ps, op_minus_next(op, me), op_plus_next(op, pe)),
    decreases ops.len(),
{
    if ops.len() == 0 {
        let s = ops.push(op);
        assert(s[0] == op);
        assert(s.skip(1) =~= Seq::<EditOp>::empty());
        assert(ops_cover(
            s.skip(1),
            op_minus_next(op, me), op_plus_next(op, pe),
            op_minus_next(op, me), op_plus_next(op, pe),
        ));
    } else {
        lemma_ops_cover_push(
            ops.skip(1), op,
            op_minus_next(ops[0], ms), op_plus_next(ops[0], ps), me, pe,
        );
        assert(ops.push(op)[0] == ops[0]);
        assert(ops.push(op).skip(1) =~= ops.skip(1).push(op));
    }
}

/// Covered ranges only grow along a script, and a nonempty script covers
/// a nonempty range on at least one side.
proof fn lemma_ops_cover_progress(ops: Seq<EditOp>, ms: int, ps: int, me: int, pe: int)
    requires
        ops_cover(ops, ms, ps, me, pe),
    ensures
        ms <= me,
        ps <= pe,
        ops.len() > 0 ==> ms < me || ps < pe,
    decreases ops.len(),
{
    if ops.len() > 0 {
        lemma_ops_cover_progress(
            ops.skip(1),
            op_minus_next(ops[0], ms), op_plus_next(ops[0], ps), me, pe,
        );
    }
}

proof fn lemma_equal_total_prepend(op: EditOp, ops: Seq<EditOp>)
    ensures
        equal_total(seq![op] + ops) == op_equal_len(op) + equal_total(ops),
{
    let s = seq![op] + ops;
    assert(s[0] == op);
    assert(s.skip(1) =~= ops);
}

proof fn lemma_equal_total_push(ops: Seq<EditOp>, op: EditOp)
    ensures
        equal_total(ops.push(op)) == equal_total(ops) + op_equal_len(op),
    decreases ops.len(),
{
    if ops.len() == 0 {
        let s = ops.push(op);
        assert(s[0] == op);
        assert(s.skip(1) =~= Seq::<EditOp>::empty());
        assert(equal_total(s.skip(1)) == 0);
    } else {
        lemma_equal_total_push(ops.skip(1), op);
        assert(ops.push(op)[0] == ops[0]);
        assert(ops.push(op).skip(1) =~= ops.skip(1).push(op));
    }
}

proof fn lemma_agree_prepend(op: EditOp, ops: Seq<EditOp>, a: Seq<Seq<u8>>, b: Seq<Seq<u8>>)
    requires
        op_tokens_agree(op, a, b),
        ops_tokens_agree(ops, a, b),
    ensures
        ops_tokens_agree(seq![op] + ops, a, b),
{
    let s = seq![op] + ops;
    assert forall|i: int| 0 <= i < s.len() implies op_tokens_agree(#[trigger] s[i], a, b) by {
        if i == 0 {
            assert(s[i] == op);
        } else {
            assert(s[i] == ops[i - 1]);
        }
    }
}

/// Walks the filled table from the far corner back to the origin, emitting
/// one single-token op per step.
fn backtrack_ops(a: &Vec<Vec<u8>>, b: &Vec<Vec<u8>>, t: &Vec<Vec<usize>>) -> (ops: Vec<EditOp>)
    requires
        a@.len() < usize::MAX,
        b@.len() < usize::MAX,
        t@.len() == a@.len() + 1,
        forall|i: int| 0 <= i < t@.len() ==> (#[trigger] t@[i])@.len() == b@.len() + 1,
        forall|i: int, j: int| 0 <= i <= a@.len() && 0 <= j <= b@.len()
            ==> #[trigger] t@[i]@[j] == lcs_at(token_views(a@), token_views(b@), i, j),
    ensures
        ops_cover(ops@, 0, 0, a@.len() as int, b@.len() as int),
        ops_tokens_agree(ops@, token_views(a@), token_views(b@)),
        equal_total(ops@) == lcs_len(token_views(a@), token_views(b@)),
{
    let ghost av = token_views(a@);
    let ghost bv = token_views(b@);
    let m = a.len();
    let n = b.len();
    let mut i: usize = m;
    let mut j: usize = n;
    let mut acc: Vec<EditOp> = Vec::new();
    while i > 0 || j > 0
        invariant
            i <= m,
            j <= n,
            m == a@.len(),
            n == b@.len(),
            m < usize::MAX,
            n < usize::MAX,
            av == token_views(a@),
            bv == token_views(b@),
            t@.len() == m + 1,
            forall|p: int| 0 <= p < t@.len() ==> (#[trigger] t@[p])@.len() == n + 1,
            forall|p: int, q: int| 0 <= p <= m && 0 <= q <= n
                ==> #[trigger] t@[p]@[q] == lcs_at(av, bv, p, q),
            ops_cover(acc@, i as int, j as int, m as int, n as int),
            ops_tokens_agree(acc@, av, bv),
            equal_total(acc@) + lcs_at(av, bv, i as int, j as int)
                == lcs_at(av, bv, m as int, n as int),
        decreases i + j,
    {
        let ghost pre = acc@;
        if i > 0 && j > 0 && token_eq(&a[i - 1], &b[j - 1]) {
            let op = EditOp::Equal {
                minus_start: i - 1, minus_end: i, plus_start: j - 1, plus_end: j,
            };
            proof {
                assert(av[i - 1] == a@[i - 1]@);
                assert(bv[j - 1] == b@[j - 1]@);
                assert(lcs_at(av, bv, i as int, j as int)
                    == lcs_at(av, bv, i - 1, j - 1) + 1);
            }
            acc.insert(0, op);
            proof {
                assert(acc@ =~= seq![op] + pre);
                lemma_ops_cover_prepend(op, pre, i - 1, j - 1, m as int, n as int);
                assert(op_tokens_agree(op, av, bv)) by {
                    assert forall|k: int| i - 1 <= k < i
                        implies #[trigger] av[k] == bv[k - (i - 1) + (j - 1)] by {
                        assert(k == i - 1);
                    }
                }
                lemma_agree_prepend(op, pre, av, bv);
                lemma_equal_total_prepend(op, pre);
            }
            i = i - 1;
            j = j - 1;
        } else if i > 0 && (j == 0 || t[i - 1][j] >= t[i][j - 1]) {
            let op = EditOp::Delete { minus_start: i - 1, minus_end: i };
            proof {
                if j > 0 {
                    assert(av[i - 1] == a@[i - 1]@);
                    assert(bv[j - 1] == b@[j - 1]@);
                    assert(av[i - 1] != bv[j - 1]);
                    assert(lcs_at(av, bv, i - 1, j as int) >= lcs_at(av, bv, i as int, j - 1));
                }
                assert(lcs_at(av, bv, i as int, j as int) == lcs_at(av, bv, i - 1, j as int));
            }
            acc.insert(0, op);
            proof {
                assert(acc@ =~= seq![op] + pre);
                lemma_ops_cover_prepend(op, pre, i - 1, j as int, m as int, n as int);
                lemma_agree_prepend(op, pre, av, bv);
                lemma_equal_total_prepend(op, pre);
            }
            i = i - 1;
        } else {
            let op = EditOp::Insert { plus_start: j - 1, plus_end: j };
            proof {
                if i > 0 {
                    assert(av[i - 1] == a@[i - 1]@);
                    assert(bv[j - 1] == b@[j - 1]@);
                    assert(av[i - 1] != bv[j - 1]);
                    assert(lcs_at(av, bv, i - 1, j as int) < lcs_at(av, bv, i as int, j - 1));
                }
                assert(lcs_at(av, bv, i as int, j as int) == lcs_at(av, bv, i as int, j - 1));
            }
            acc.insert(0, op);
            proof {
                assert(acc@ =~= seq![op] + pre);
                lemma_ops_cover_prepend(op, pre, i as int, j - 1, m as int, n as int);
                lemma_agree_prepend(op, pre, av, bv);
                lemma_equal_total_prepend(op, pre);
            }
            j = j - 1;
        }
    }
    proof {
        assert(lcs_at(av, bv, 0, 0) == 0);
        assert(av.len() == m && bv.len() == n);
    }
    acc
}

/// Merges adjacent ops of one run into a single op, turning a changed run
/// that covers both sides into a `Replace`.
fn group_runs(
    ops: &Vec<EditOp>,
    minus_len: usize,
    plus_len: usize,
    Ghost(av): Ghost<Seq<Seq<u8>>>,
    Ghost(bv): Ghost<Seq<Seq<u8>>>,
) -> (r: Vec<EditOp>)
    requires
        ops_cover(ops@, 0, 0, minus_len as int, plus_len as int),
        ops_tokens_agree(ops@, av, bv),
    ensures
        ops_cover(r@, 0, 0, minus_len as int, plus_len as int),
        ops_tokens_agree(r@, av, bv),
        runs_alternate(r@),
        equal_total(r@) == equal_total(ops@),
{
    let mut out: Vec<EditOp> = Vec::new();
    // Start of the last op of `out`; meaningful only when `out` is nonempty.
    let mut last_ms: usize = 0;
    let mut last_ps: usize = 0;
    // Cursor after everything consumed so far.
    let mut mi: usize = 0;
    let mut pi: usize = 0;
    let mut k: usize = 0;
    proof {
        assert(ops@.skip(0) =~= ops@);
    }
    while k < ops.len()
        invariant
            k <= ops@.len(),
            ops_cover(ops@.skip(k as int), mi as int, pi as int, minus_len as int, plus_len as int),
            ops_tokens_agree(ops@, av, bv),
            out@.len() == 0 ==> mi == 0 && pi == 0,
            out@.len() > 0 ==> ops_cover(out@.drop_last(), 0, 0, last_ms as int, last_ps as int)
                && op_starts_ok(out@.last(), last_ms as int, last_ps as int)
                && op_minus_next(out@.last(), last_ms as int) == mi as int
                && op_plus_next(out@.last(), last_ps as int) == pi as int,
            ops_tokens_agree(out@, av, bv),
            runs_alternate(out@),
            equal_total(out@) + equal_total(ops@.skip(k as int)) == equal_total(ops@),
        decreases ops@.len() - k,
    {
        let cur = ops[k];
        proof {
            assert(ops@.skip(k as int)[0] == ops@[k as int]);
            assert(ops@.skip(k as int).skip(1) =~= ops@.skip(k as int + 1));
            assert(op_tokens_agree(ops@[k as int], av, bv));
        }
        // Cursor after `cur`.
        let nmi: usize = match cur {
            EditOp::Insert { .. } => mi,
            EditOp::Equal { minus_end, .. } => minus_end,
            EditOp::Delete { minus_end, .. } => minus_end,
            EditOp::Replace { minus_end, .. } => minus_end,
        };
        let npi: usize = match cur {
            EditOp::Delete { .. } => pi,
            EditOp::Equal { plus_end, .. } => plus_end,
            EditOp::Insert { plus_end, .. } => plus_end,
            EditOp::Replace { plus_end, .. } => plus_end,
        };
        let ghost pre_out = out@;
        if out.len() == 0 {
            out.push(cur);
            proof {
                assert(out@.drop_last() =~= Seq::<EditOp>::empty());
                assert(ops_cover(out@.drop_last(), 0, 0, 0, 0));
                assert(out@.last() == cur);
                assert(equal_total(pre_out) == 0);
                lemma_equal_total_push(pre_out, cur);
                assert forall|q: int| 0 <= q < out@.len()
                    implies op_tokens_agree(#[trigger] out@[q], av, bv) by {
                    assert(out@[q] == cur);
                }
            }
            last_ms = mi;
            last_ps = pi;
        } else {
            let last = out[out.len() - 1];
            let last_is_equal = matches!(last, EditOp::Equal { .. });
            let cur_is_equal = matches!(cur, EditOp::Equal { .. });
            if last_is_equal == cur_is_equal {
                // Same run: widen the last op to also cover `cur`.
                let merged: EditOp = if cur_is_equal {
                    EditOp::Equal {
                        minus_start: last_ms, minus_end: nmi,
                        plus_start: last_ps, plus_end: npi,
                    }
                } else if last_ms < nmi && last_ps < npi {
                    EditOp::Replace {
                        minus_start: last_ms, minus_end: nmi,
                        plus_start: last_ps, plus_end: npi,
                    }
                } else if last_ms < nmi {
                    EditOp::Delete { minus_start: last_ms, minus_end: nmi }
                } else {
                    EditOp::Insert { plus_start: last_ps, plus_end: npi }
                };
                proof {
                    assert(op_tokens_agree(pre_out.last(), av, bv));
                    if cur_is_equal {
                        assert(op_tokens_agree(merged, av, bv)) by {
                            assert forall|x: int| last_ms <= x < nmi
                                implies #[trigger] av[x] == bv[x - last_ms + last_ps] by {
                                if x < op_minus_next(pre_out.last(), last_ms as int) {
                                } else {
                                }
                            }
                        }
                    }
                }
                let idx = out.len() - 1;
                out.set(idx, merged);
                proof {
                    assert(out@ =~= pre_out.drop_last().push(merged));
                    assert(op_starts_ok(merged, last_ms as int, last_ps as int));
                    assert(out@.drop_last() =~= pre_out.drop_last());
                    assert(out@.last() == merged);
                    lemma_equal_total_push(pre_out.drop_last(), pre_out.last());
                    assert(pre_out.drop_last().push(pre_out.last()) =~= pre_out);
                    lemma_equal_total_push(pre_out.drop_last(), merged);
                    assert forall|q: int| 0 <= q < out@.len()
                        implies op_tokens_agree(#[trigger] out@[q], av, bv) by {
                        if q < out@.len() - 1 {
                            assert(out@[q] == pre_out[q]);
                        } else {
                            assert(out@[q] == merged);
                        }
                    }
                    assert forall|q: int| 0 <= q && q + 1 < out@.len()
                        implies ((#[trigger] out@[q]) is Equal) != (out@[q + 1] is Equal) by {
                        if q + 1 < out@.len() - 1 {
                            assert(out@[q] == pre_out[q] && out@[q + 1] == pre_out[q + 1]);
                        } else {
                            assert(out@[q] == pre_out[q] && out@[q + 1] == merged);
                        }
                    }
                }
            } else {
                // A new run begins.
                out.push(cur);
                proof {
                    assert(out@.drop_last() =~= pre_out);
                    assert(out@.last() == cur);
                    lemma_ops_cover_push(
                        pre_out.drop_last(), pre_out.last(), 0, 0,
                        last_ms as int, last_ps as int,
                    );
                    assert(pre_out.drop_last().push(pre_out.last()) =~= pre_out);
                    lemma_equal_total_push(pre_out, cur);
                    assert forall|q: int| 0 <= q < out@.len()
                        implies op_tokens_agree(#[trigger] out@[q], av, bv) by {
                        if q < out@.len() - 1 {
                            assert(out@[q] == pre_out[q]);
                        } else {
                            assert(out@[q] == cur);
                        }
                    }
                    assert forall|q: int| 0 <= q && q + 1 < out@.len()
                        implies ((#[trigger] out@[q]) is Equal) != (out@[q + 1] is Equal) by {
                        if q + 1 < out@.len() - 1 {
                            assert(out@[q] == pre_out[q] && out@[q + 1] == pre_out[q + 1]);
                        } else {
                            assert(out@[q] == pre_out[q] && out@[q + 1] == cur);
                        }
                    }
                }
                last_ms = mi;
                last_ps = pi;
            }
        }
        mi = nmi;
        pi = npi;
        k = k + 1;
    }
    proof {
        assert(ops@.skip(k as int) =~= Seq::<EditOp>::empty());
        if out@.len() > 0 {
            lemma_ops_cover_push(
                out@.drop_last(), out@.last(), 0, 0, last_ms as int, last_ps as int,
            );
            assert(out@.drop_last().push(out@.last()) =~= out@);
        }
    }
    out
}

/// Token granularity for edit-distance computation.
#[derive(Clone, Copy, Debug, PartialEq, Eq, Structural)]
pub enum TokenMode {
    /// Maximal runs of word bytes and of non-word bytes.
    Word,
    /// One token per character (one UTF-8 unit).
    Character,
}

/// A byte of a word: letter, digit or underscore.
pub open spec fn is_word_byte(b: u8) -> bool {
    (97 <= b && b <= 122) || (65 <= b && b <= 90) || (48 <= b && b <= 57) || b == 95
}

/// How many bytes a UTF-8 unit led by `b` spans; a stray byte counts alone.
pub open spec fn utf8_unit_len(b: u8) -> int {
    if b < 0x80 { 1 }
    else if 0xC0 <= b && b < 0xE0 { 2 }
    else if 0xE0 <= b && b < 0xF0 { 3 }
    else if 0xF0 <= b && b < 0xF8 { 4 }
    else { 1 }
}

/// Length of the leading run of bytes whose word-ness is `cls`.
pub open spec fn run_len(line: Seq<u8>, cls: bool) -> nat
    decreases line.len(),
{
    if line.len() == 0 || is_word_byte(line[0]) != cls {
        0
    } else {
        1 + run_len(line.skip(1), cls)
    }
}

/// The word-mode tokenization: maximal same-class runs, in order.
pub open spec fn word_tokens(line: Seq<u8>) -> Seq<Seq<u8>>
    decreases line.len(),
{
    if line.len() == 0 {
        Seq::empty()
    } else {
        let r = run_len(line, is_word_byte(line[0])) as int;
        let l = if r <= line.len() { r } else { line.len() as int };
        seq![line.take(l)] + word_tokens(line.skip(l))
    }
}

/// The character-mode tokenization: one UTF-8 unit per token, clipped at
/// the end of the line.
pub open spec fn char_tokens(line: Seq<u8>) -> Seq<Seq<u8>>
    decreases line.len(),
{
    if line.len() == 0 {
        Seq::empty()
    } else {
        let l = if utf8_unit_len(line[0]) <= line.len() {
            utf8_unit_len(line[0])
        } else {
            line.len() as int
        };
        seq![line.take(l)] + char_tokens(line.skip(l))
    }
}

/// The tokens, concatenated in order.
pub open spec fn concat_tokens(ts: Seq<Seq<u8>>) -> Seq<u8>
    decreases ts.len(),
{
    if ts.len() == 0 {
        Seq::empty()
    } else {
        ts[0] + concat_tokens(ts.skip(1))
    }
}

proof fn lemma_concat_prepend(t: Seq<u8>, ts: Seq<Seq<u8>>)
    ensures
        concat_tokens(seq![t] + ts) == t + concat_tokens(ts),
{
    let s = seq![t] + ts;
    assert(s[0] == t);
    assert(s.skip(1) =~= ts);
}

/// Tokens of either mode partition the line exactly: concatenating them in
/// order reproduces the original line, with no gap and no overlap.
pub proof fn lemma_tokens_partition(line: Seq<u8>, mode: TokenMode)
    ensures
        mode is Word ==> concat_tokens(word_tokens(line)) == line,
        mode is Character ==> concat_tokens(char_tokens(line)) == line,
    decreases line.len(),
{
    if line.len() > 0 {
        if mode is Word {
            let r = run_len(line, is_word_byte(line[0])) as int;
            assert(1 <= r <= line.len()) by {
                lemma_run_len_bounds(line, is_word_byte(line[0]));
            }
            let l = if r <= line.len() { r } else { line.len() as int };
            lemma_tokens_partition(line.skip(l), mode);
            lemma_concat_prepend(line.take(l), word_tokens(line.skip(l)));
            assert(line.take(l) + line.skip(l) =~= line);
        } else {
            let l = if utf8_unit_len(line[0]) <= line.len() {
                utf8_unit_len(line[0])
            } else {
                line.len() as int
            };
            lemma_tokens_partition(line.skip(l), mode);
            lemma_concat_prepend(line.take(l), char_tokens(line.skip(l)));
            assert(line.take(l) + line.skip(l) =~= line);
        }
    } else {
        assert(concat_tokens(Seq::<Seq<u8>>::empty()) =~= Seq::<u8>::empty());
        assert(line =~= Seq::<u8>::empty());
    }
}

proof fn lemma_run_len_bounds(line: Seq<u8>, cls: bool)
    requires
        line.len() > 0,
        is_word_byte(line[0]) == cls,
    ensures
        1 <= run_len(line, cls) <= line.len(),
    decreases line.len(),
{
    if line.len() > 1 && is_word_byte(line.skip(1)[0]) == cls {
        lemma_run_len_bounds(line.skip(1), cls);
    } else {
        assert(run_len(line.skip(1), cls) == 0);
    }
}

/// Splits the line into tokens of the chosen granularity.
pub fn tokenize(line: &Vec<u8>, mode: TokenMode) -> (toks: Vec<Vec<u8>>)
    ensures
        mode is Word ==> token_views(toks@) == word_tokens(line@),
        mode is Character ==> token_views(toks@) == char_tokens(line@),
{
    let mut toks: Vec<Vec<u8>> = Vec::new();
    let mut pos: usize = 0;
    let is_word_mode = matches!(mode, TokenMode::Word);
    let ghost target = if mode is Word { word_tokens(line@) } else { char_tokens(line@) };
    proof {
        assert(line@.skip(0) =~= line@);
        assert(token_views(toks@) =~= Seq::<Seq<u8>>::empty());
    }
    while pos < line.len()
        invariant
            pos <= line@.len(),
            is_word_mode == (mode is Word),
            target == if mode is Word { word_tokens(line@) } else { char_tokens(line@) },
            target == token_views(toks@) + (if mode is Word {
                word_tokens(line@.skip(pos as int))
            } else {
                char_tokens(line@.skip(pos as int))
            }),
        decreases line@.len() - pos,
    {
        let ghost rest = line@.skip(pos as int);
        let start = pos;
        let len: usize;
        if is_word_mode {
            let cls = word_byte(line[pos]);
            let mut end = pos + 1;
            while end < line.len() && word_byte(line[end]) == cls
                invariant
                    pos < end <= line@.len(),
                    pos < line@.len(),
                    cls == is_word_byte(line@[pos as int]),
                    forall|q: int| pos <= q < end ==> is_word_byte(line@[q]) == cls,
                decreases line@.len() - end,
            {
                end = end + 1;
            }
            len = end - start;
            proof {
                assert(run_len(rest, is_word_byte(rest[0])) == len) by {
                    lemma_run_len_value(line@, pos as int, (pos + len) as int, cls);
                }
            }
        } else {
            let b = line[pos];
            let unit: usize = if b < 0x80 { 1 }
                else if 0xC0 <= b && b < 0xE0 { 2 }
                else if 0xE0 <= b && b < 0xF0 { 3 }
                else if 0xF0 <= b && b < 0xF8 { 4 }
                else { 1 };
            let remaining = line.len() - pos;
            len = if unit <= remaining { unit } else { remaining };
        }
        proof {
            assert(pos + len <= line@.len());
        }
        let stop = pos + len;
        let mut token: Vec<u8> = Vec::new();
        let mut q: usize = pos;
        while q < stop
            invariant
                pos <= q <= stop,
                stop == pos + len,
                stop <= line@.len(),
                token@ == line@.subrange(pos as int, q as int),
            decreases stop - q,
        {
            token.push(line[q]);
            proof {
                assert(token@ =~= line@.subrange(pos as int, q as int + 1));
            }
            q = q + 1;
        }
        let ghost pre = toks@;
        toks.push(token);
        pos = pos + len;
        proof {
            assert(token@ =~= rest.take(len as int));
            assert(line@.skip(pos as int) =~= rest.skip(len as int));
            let tail = if mode is Word { word_tokens(line@.skip(pos as int)) }
                else { char_tokens(line@.skip(pos as int)) };
            assert(token_views(toks@) =~= token_views(pre).push(token@));
            assert(token_views(pre).push(token@) + tail
                =~= token_views(pre) + (seq![token@] + tail));
            if mode is Word {
                assert(word_tokens(rest) == seq![rest.take(len as int)] + word_tokens(rest.skip(len as int)));
            } else {
                assert(char_tokens(rest) == seq![rest.take(len as int)] + char_tokens(rest.skip(len as int)));
            }
        }
    }
    proof {
        assert(line@.skip(pos as int).len() == 0);
        if mode is Word {
            assert(word_tokens(line@.skip(pos as int)) =~= Seq::<Seq<u8>>::empty());
        } else {
            assert(char_tokens(line@.skip(pos as int)) =~= Seq::<Seq<u8>>::empty());
        }
        assert(token_views(toks@) + Seq::<Seq<u8>>::empty() =~= token_views(toks@));
    }
    toks
}

/// The leading run of `line` from `from` to `to` is maximal for class `cls`.
proof fn lemma_run_len_value(line: Seq<u8>, from: int, to: int, cls: bool)
    requires
        0 <= from < to <= line.len(),
        forall|q: int| from <= q < to ==> is_word_byte(line[q]) == cls,
        to < line.len() ==> is_word_byte(line[to]) != cls,
    ensures
        run_len(line.skip(from), cls) == to - from,
    decreases to - from,
{
    let rest = line.skip(from);
    assert(rest[0] == line[from]);
    if from + 1 < to {
        lemma_run_len_value(line, from + 1, to, cls);
        assert(rest.skip(1) =~= line.skip(from + 1));
    } else {
        assert(rest.skip(1) =~= line.skip(from + 1));
        if to < line.len() {
            assert(line.skip(from + 1)[0] == line[to]);
            assert(run_len(line.skip(from + 1), cls) == 0);
        } else {
            assert(line.skip(from + 1).len() == 0);
            assert(run_len(line.skip(from + 1), cls) == 0);
        }
    }
}

/// A line has no more tokens than bytes: every token is nonempty.
pub proof fn lemma_tokens_count(line: Seq<u8>, mode: TokenMode)
    ensures
        mode is Word ==> word_tokens(line).len() <= line.len(),
        mode is Character ==> char_tokens(line).len() <= line.len(),
    decreases line.len(),
{
    if line.len() > 0 {
        if mode is Word {
            let r = run_len(line, is_word_byte(line[0])) as int;
            assert(1 <= r <= line.len()) by {
                lemma_run_len_bounds(line, is_word_byte(line[0]));
            }
            let l = if r <= line.len() { r } else { line.len() as int };
            lemma_tokens_count(line.skip(l), mode);
            assert(word_tokens(line).len() == 1 + word_tokens(line.skip(l)).len());
        } else {
            let l = if utf8_unit_len(line[0]) <= line.len() {
                utf8_unit_len(line[0])
            } else {
                line.len() as int
            };
            lemma_tokens_count(line.skip(l), mode);
            assert(char_tokens(line).len() == 1 + char_tokens(line.skip(l)).len());
        }
    }
}

/// The byte is a word byte.
fn word_byte(b: u8) -> (r: bool)
    ensures
        r == is_word_byte(b),
{
    (97 <= b && b <= 122) || (65 <= b && b <= 90) || (48 <= b && b <= 57) || b == 95
}

/// An `Equal` op long enough to survive coalescing.
pub open spec fn op_is_keeper(op: EditOp, min_equal: int) -> bool {
    match op {
        EditOp::Equal { minus_start, minus_end, .. } => minus_end - minus_start >= min_equal,
        _ => false,
    }
}

/// No two adjacent ops are both short enough to coalesce: every equal run
/// shorter than the minimum stands alone between kept equal runs.
pub open spec fn coalesced(ops: Seq<EditOp>, min_equal: int) -> bool {
    forall|i: int| 0 <= i && i + 1 < ops.len()
        ==> op_is_keeper(#[trigger] ops[i], min_equal) || op_is_keeper(ops[i + 1], min_equal)
}

/// A script whose `Equal` ops all occur in a script known to cover equal
/// tokens also covers equal tokens.
pub proof fn lemma_agree_from_contains(
    sub: Seq<EditOp>, sup: Seq<EditOp>, a: Seq<Seq<u8>>, b: Seq<Seq<u8>>,
)
    requires
        ops_tokens_agree(sup, a, b),
        forall|i: int| 0 <= i < sub.len() && ((#[trigger] sub[i]) is Equal)
            ==> sup.contains(sub[i]),
    ensures
        ops_tokens_agree(sub, a, b),
{
    assert forall|i: int| 0 <= i < sub.len()
        implies op_tokens_agree(#[trigger] sub[i], a, b) by {
        if sub[i] is Equal {
            let j = choose|j: int| 0 <= j < sup.len() && sup[j] == sub[i];
            assert(op_tokens_agree(sup[j], a, b));
        }
    }
}

/// Folds every equal run shorter than `min_equal` into its neighbouring
/// changed run(s), re-tagging the merged run as `Replace` (or `Delete` /
/// `Insert` where only one side is covered).
///
/// The pass is idempotent: its result is `coalesced`, and on an already
/// `coalesced` script it returns the script unchanged, so running it twice
/// yields the same result as running it once.
pub fn coalesce_edit_ops(
    ops: &Vec<EditOp>, min_equal: usize, minus_len: usize, plus_len: usize,
) -> (r: Vec<EditOp>)
    requires
        ops_cover(ops@, 0, 0, minus_len as int, plus_len as int),
    ensures
        ops_cover(r@, 0, 0, minus_len as int, plus_len as int),
        coalesced(r@, min_equal as int),
        coalesced(ops@, min_equal as int) ==> r@ == ops@,
        forall|i: int| 0 <= i < r@.len() && ((#[trigger] r@[i]) is Equal)
            ==> ops@.contains(r@[i]),
{
    let mut out: Vec<EditOp> = Vec::new();
    let mut pending: Vec<EditOp> = Vec::new();
    // Cursor at the start of the pending run.
    let mut rs_m: usize = 0;
    let mut rs_p: usize = 0;
    // Cursor after everything consumed so far.
    let mut mi: usize = 0;
    let mut pi: usize = 0;
    let mut k: usize = 0;
    proof {
        assert(ops@.skip(0) =~= ops@);
        assert(ops@.take(0) =~= Seq::<EditOp>::empty());
        assert(out@ + pending@ =~= Seq::<EditOp>::empty());
    }
    while k < ops.len()
        invariant
            k <= ops@.len(),
            ops_cover(ops@.skip(k as int), mi as int, pi as int, minus_len as int, plus_len as int),
            ops_cover(out@, 0, 0, rs_m as int, rs_p as int),
            ops_cover(pending@, rs_m as int, rs_p as int, mi as int, pi as int),
            forall|q: int| 0 <= q < pending@.len()
                ==> !op_is_keeper(#[trigger] pending@[q], min_equal as int),
            coalesced(out@, min_equal as int),
            out@.len() > 0 ==> op_is_keeper(out@.last(), min_equal as int),
            forall|q: int| 0 <= q < out@.len() && ((#[trigger] out@[q]) is Equal)
                ==> ops@.contains(out@[q]),
            forall|q: int| 0 <= q < pending@.len() && ((#[trigger] pending@[q]) is Equal)
                ==> ops@.contains(pending@[q]),
            coalesced(ops@, min_equal as int)
                ==> out@ + pending@ == ops@.take(k as int) && pending@.len() <= 1,
        decreases ops@.len() - k,
    {
        let cur = ops[k];
        proof {
            assert(ops@.skip(k as int)[0] == ops@[k as int]);
            assert(ops@.skip(k as int).skip(1) =~= ops@.skip(k as int + 1));
            assert(ops@.take(k as int + 1) =~= ops@.take(k as int).push(cur));
            assert(ops@.contains(cur)) by {
                assert(ops@[k as int] == cur);
            }
        }
        let nmi: usize = match cur {
            EditOp::Insert { .. } => mi,
            EditOp::Equal { minus_end, .. } => minus_end,
            EditOp::Delete { minus_end, .. } => minus_end,
            EditOp::Replace { minus_end, .. } => minus_end,
        };
        let npi: usize = match cur {
            EditOp::Delete { .. } => pi,
            EditOp::Equal { plus_end, .. } => plus_end,
            EditOp::Insert { plus_end, .. } => plus_end,
            EditOp::Replace { plus_end, .. } => plus_end,
        };
        let keeper = match cur {
            EditOp::Equal { minus_start, minus_end, .. } => minus_end - minus_start >= min_equal,
            _ => false,
        };
        if keeper {
            let ghost pre_out = out@;
            // Flush the pending run, then keep the long equal op.
            if pending.len() == 1 {
                proof {
                    assert(op_starts_ok(pending@[0], rs_m as int, rs_p as int));
                    assert(ops_cover(
                        pending@.skip(1),
                        op_minus_next(pending@[0], rs_m as int),
                        op_plus_next(pending@[0], rs_p as int),
                        mi as int, pi as int,
                    ));
                    assert(op_minus_next(pending@[0], rs_m as int) == mi as int);
                    assert(op_plus_next(pending@[0], rs_p as int) == pi as int);
                }
                let p0 = pending[0];
                out.push(p0);
                proof {
                    lemma_ops_cover_push(pre_out, pending@[0], 0, 0, rs_m as int, rs_p as int);
                    assert(ops_cover(out@, 0, 0, mi as int, pi as int));
                }
            } else if pending.len() > 1 {
                let merged: EditOp = if rs_m < mi && rs_p < pi {
                    EditOp::Replace {
                        minus_start: rs_m, minus_end: mi, plus_start: rs_p, plus_end: pi,
                    }
                } else if rs_m < mi {
                    EditOp::Delete { minus_start: rs_m, minus_end: mi }
                } else {
                    EditOp::Insert { plus_start: rs_p, plus_end: pi }
                };
                proof {
                    lemma_ops_cover_progress(
                        pending@, rs_m as int, rs_p as int, mi as int, pi as int,
                    );
                    if coalesced(ops@, min_equal as int) {
                        assert(false);
                    }
                }
                out.push(merged);
                proof {
                    lemma_ops_cover_push(pre_out, merged, 0, 0, rs_m as int, rs_p as int);
                    assert(ops_cover(out@, 0, 0, mi as int, pi as int));
                }
            } else {
                proof {
                    assert(rs_m as int == mi as int && rs_p as int == pi as int);
                    assert(ops_cover(out@, 0, 0, mi as int, pi as int));
                }
            }
            let ghost mid_out = out@;
            out.push(cur);
            pending = Vec::new();
            proof {
                lemma_ops_cover_push(mid_out, cur, 0, 0, mi as int, pi as int);
                assert(ops_cover(
                    pending@, nmi as int, npi as int, nmi as int, npi as int,
                ));
                assert forall|q: int| 0 <= q && q + 1 < out@.len()
                    implies op_is_keeper(#[trigger] out@[q], min_equal as int)
                        || op_is_keeper(out@[q + 1], min_equal as int) by {
                    if q + 1 == out@.len() - 1 {
                        assert(out@[q + 1] == cur);
                    } else if q + 1 < pre_out.len() {
                        assert(out@[q] == pre_out[q] && out@[q + 1] == pre_out[q + 1]);
                    } else {
                        assert(q == pre_out.len() - 1);
                        assert(out@[q] == pre_out[q]);
                        assert(out@[q] == pre_out.last());
                    }
                }
                if coalesced(ops@, min_equal as int) {
                    assert(out@ + pending@ =~= ops@.take(k as int + 1));
                }
            }
            rs_m = nmi;
            rs_p = npi;
        } else {
            let ghost pre_pending = pending@;
            pending.push(cur);
            proof {
                lemma_ops_cover_push(
                    pre_pending, cur, rs_m as int, rs_p as int, mi as int, pi as int,
                );
                assert forall|q: int| 0 <= q < pending@.len()
                    implies !op_is_keeper(#[trigger] pending@[q], min_equal as int) by {
                    if q < pre_pending.len() {
                        assert(pending@[q] == pre_pending[q]);
                    } else {
                        assert(pending@[q] == cur);
                    }
                }
                if coalesced(ops@, min_equal as int) {
                    if pre_pending.len() >= 1 {
                        assert((out@ + pre_pending)[out@.len() + pre_pending.len() - 1]
                            == pre_pending[pre_pending.len() - 1]);
                        assert(ops@.take(k as int)[k - 1] == ops@[k - 1]);
                        assert(!op_is_keeper(ops@[k - 1], min_equal as int));
                        assert(!op_is_keeper(ops@[k as int], min_equal as int));
                        assert(false);
                    }
                    assert(out@ + pending@ =~= ops@.take(k as int + 1));
                }
            }
        }
        mi = nmi;
        pi = npi;
        k = k + 1;
    }
    // Flush the final pending run.
    let ghost pre_out = out@;
    proof {
        assert(ops@.skip(k as int) =~= Seq::<EditOp>::empty());
        assert(ops@.take(k as int) =~= ops@);
    }
    if pending.len() == 1 {
        proof {
            assert(op_starts_ok(pending@[0], rs_m as int, rs_p as int));
            assert(ops_cover(
                pending@.skip(1),
                op_minus_next(pending@[0], rs_m as int),
                op_plus_next(pending@[0], rs_p as int),
                mi as int, pi as int,
            ));
            assert(op_minus_next(pending@[0], rs_m as int) == mi as int);
            assert(op_plus_next(pending@[0], rs_p as int) == pi as int);
        }
        let p0 = pending[0];
        out.push(p0);
        proof {
            lemma_ops_cover_push(pre_out, pending@[0], 0, 0, rs_m as int, rs_p as int);
            assert(ops_cover(out@, 0, 0, minus_len as int, plus_len as int));
            assert forall|q: int| 0 <= q && q + 1 < out@.len()
                implies op_is_keeper(#[trigger] out@[q], min_equal as int)
                    || op_is_keeper(out@[q + 1], min_equal as int) by {
                if q + 1 < pre_out.len() {
                    assert(out@[q] == pre_out[q] && out@[q + 1] == pre_out[q + 1]);
                } else {
                    assert(out@[q] == pre_out[q]);
                }
            }
            if coalesced(ops@, min_equal as int) {
                assert(out@ =~= ops@);
            }
        }
    } else if pending.len() > 1 {
        let merged: EditOp = if rs_m < mi && rs_p < pi {
            EditOp::Replace { minus_start: rs_m, minus_end: mi, plus_start: rs_p, plus_end: pi }
        } else if rs_m < mi {
            EditOp::Delete { minus_start: rs_m, minus_end: mi }
        } else {
            EditOp::Insert { plus_start: rs_p, plus_end: pi }
        };
        proof {
            lemma_ops_cover_progress(pending@, rs_m as int, rs_p as int, mi as int, pi as int);
            if coalesced(ops@, min_equal as int) {
                assert(false);
            }
        }
        out.push(merged);
        proof {
            lemma_ops_cover_push(pre_out, merged, 0, 0, rs_m as int, rs_p as int);
            assert(ops_cover(out@, 0, 0, minus_len as int, plus_len as int));
            assert forall|q: int| 0 <= q && q + 1 < out@.len()
                implies op_is_keeper(#[trigger] out@[q], min_equal as int)
                    || op_is_keeper(out@[q + 1], min_equal as int) by {
                if q + 1 < pre_out.len() {
                    assert(out@[q] == pre_out[q] && out@[q + 1] == pre_out[q + 1]);
                } else {
                    assert(out@[q] == pre_out[q]);
                }
            }
        }
    } else {
        proof {
            assert(rs_m as int == mi as int && rs_p as int == pi as int);
            assert(ops_cover(out@, 0, 0, minus_len as int, plus_len as int));
            if coalesced(ops@, min_equal as int) {
                assert(out@ =~= ops@);
            }
        }
    }
    out
}

/// Computes the shortest edit script between two token sequences.
///
/// The script's covered ranges partition both token sequences exactly,
/// `Equal` ops cover equal tokens only, equal and changed runs alternate,
/// and the number of tokens reported equal is the length of a longest
/// common subsequence of the two sequences, so the script is minimal.
pub fn compute_edit_ops(minus_tokens: &Vec<Vec<u8>>, plus_tokens: &Vec<Vec<u8>>) -> (ops: Vec<EditOp>)
    requires
        minus_tokens@.len() < usize::MAX,
        plus_tokens@.len() < usize::MAX,
    ensures
        ops_cover(ops@, 0, 0, minus_tokens@.len() as int, plus_tokens@.len() as int),
        ops_tokens_agree(ops@, token_views(minus_tokens@), token_views(plus_tokens@)),
        runs_alternate(ops@),
        equal_total(ops@) == lcs_len(token_views(minus_tokens@), token_views(plus_tokens@)),
{
    let t = lcs_table(minus_tokens, plus_tokens);
    let atomic = backtrack_ops(minus_tokens, plus_tokens, &t);
    group_runs(
        &atomic,
        minus_tokens.len(),
        plus_tokens.len(),
        Ghost(token_views(minus_tokens@)),
        Ghost(token_views(plus_tokens@)),
    )
}

} // verus!
