//! Merging the syntax style layer with the diff highlight layer.
//!
//! Per byte of a line, the style starts from the syntax layer; for bytes
//! inside a changed range the diff style's explicitly set fields overlay
//! it, leaving its unset fields from syntax untouched.  The result is
//! the minimal coalesced span list: no two adjacent spans share a style.

use vstd::prelude::*;
use crate::edit::EditOp;
use crate::edit::TokenMode;
use crate::edit::compute_edit_ops;
use crate::edit::coalesce_edit_ops;
use crate::edit::concat_tokens;
use crate::edit::lemma_agree_from_contains;
use crate::edit::lemma_tokens_partition;
use crate::edit::ops_cover;
use crate::edit::ops_tokens_agree;
use crate::edit::coalesced;
use crate::edit::token_views;
use crate::edit::tokenize;
use crate::align::tokens_of;
use crate::style::Style;
use crate::style::default_style;
use crate::style::merge_styles;

verus! {

/// A styled byte range of one line; the range is half-open.
#[derive(Clone, Copy, Debug, PartialEq, Eq, Structural)]
pub struct StyledSpan {
    pub start: usize,
    pub end: usize,
    pub style: Style,
}

/// The spans cover exactly the range `[from, to)`, contiguously and in
/// order: no gap, no overlap.
pub open spec fn spans_cover(spans: Seq<StyledSpan>, from: int, to: int) -> bool
    decreases spans.len(),
{
    if spans.len() == 0 {
        from == to
    } else {
        spans[0].start == from && spans[0].start < spans[0].end
        && spans_cover(spans.skip(1), spans[0].end as int, to)
    }
}

/// The style of byte `b`: the style of the first span containing it.
pub open spec fn style_at(spans: Seq<StyledSpan>, b: int) -> Style
    decreases spans.len(),
{
    if spans.len() == 0 {
        default_style()
    } else if spans[0].start <= b < spans[0].end {
        spans[0].style
    } else {
        style_at(spans.skip(1), b)
    }
}

/// Byte `b` lies inside one of the ranges.
pub open spec fn in_ranges(rs: Seq<(usize, usize)>, b: int) -> bool {
    exists|q: int| 0 <= q < rs.len() && (#[trigger] rs[q]).0 <= b < rs[q].1
}

/// The style of byte `b` after merging the layers: the syntax style,
/// overlaid by the diff style's set fields where the byte is changed.
pub open spec fn merged_at(
    syntax: Seq<StyledSpan>, diff: Seq<(usize, usize)>, dstyle: Style, b: int,
) -> Style {
    if in_ranges(diff, b) {
        merge_styles(style_at(syntax, b), dstyle)
    } else {
        style_at(syntax, b)
    }
}

/// No two adjacent spans share a style: the span list is minimal.
pub open spec fn spans_minimal(spans: Seq<StyledSpan>) -> bool {
    forall|i: int| 0 <= i && i + 1 < spans.len()
        ==> (#[trigger] spans[i]).style != spans[i + 1].style
}

proof fn lemma_spans_cover_push(spans: Seq<StyledSpan>, sp: StyledSpan, from: int, to: int)
    requires
        spans_cover(spans, from, to),
        sp.start == to,
        sp.start < sp.end,
    ensures
        spans_cover(spans.push(sp), from, sp.end as int),
    decreases spans.len(),
{
    if spans.len() == 0 {
        let s = spans.push(sp);
        assert(s[0] == sp);
        assert(s.skip(1) =~= Seq::<StyledSpan>::empty());
        assert(spans_cover(s.skip(1), sp.end as int, sp.end as int));
    } else {
        lemma_spans_cover_push(spans.skip(1), sp, spans[0].end as int, to);
        assert(spans.push(sp)[0] == spans[0]);
        assert(spans.push(sp).skip(1) =~= spans.skip(1).push(sp));
    }
}

/// Appending a span does not change the style of bytes the earlier
/// spans already cover.
proof fn lemma_style_at_covered(spans: Seq<StyledSpan>, sp: StyledSpan, from: int, to: int, b: int)
    requires
        spans_cover(spans, from, to),
        from <= b < to,
    ensures
        style_at(spans.push(sp), b) == style_at(spans, b),
    decreases spans.len(),
{
    assert(spans.len() > 0);
    assert(spans.push(sp)[0] == spans[0]);
    assert(spans.push(sp).skip(1) =~= spans.skip(1).push(sp));
    if !(spans[0].start <= b < spans[0].end) {
        crate::paint::lemma_cover_progress(spans.skip(1), spans[0].end as int, to);
        lemma_style_at_covered(spans.skip(1), sp, spans[0].end as int, to, b);
    }
}

proof fn lemma_cover_progress(spans: Seq<StyledSpan>, from: int, to: int)
    requires
        spans_cover(spans, from, to),
    ensures
        from <= to,
    decreases spans.len(),
{
    if spans.len() > 0 {
        lemma_cover_progress(spans.skip(1), spans[0].end as int, to);
    }
}

/// A byte of the appended span gets that span's style.
proof fn lemma_style_at_last(spans: Seq<StyledSpan>, sp: StyledSpan, from: int, b: int)
    requires
        spans_cover(spans, from, sp.start as int),
        sp.start <= b < sp.end,
    ensures
        style_at(spans.push(sp), b) == sp.style,
    decreases spans.len(),
{
    if spans.len() == 0 {
        let s = spans.push(sp);
        assert(s[0] == sp);
    } else {
        assert(spans.push(sp)[0] == spans[0]);
        assert(spans.push(sp).skip(1) =~= spans.skip(1).push(sp));
        lemma_cover_progress(spans.skip(1), spans[0].end as int, sp.start as int);
        assert(!(spans[0].start <= b < spans[0].end));
        lemma_style_at_last(spans.skip(1), sp, spans[0].end as int, b);
    }
}

/// The style of byte `b` under the span list.
fn span_style_at(spans: &Vec<StyledSpan>, b: usize) -> (r: Style)
    ensures
        r == style_at(spans@, b as int),
{
    let mut k: usize = 0;
    proof {
        assert(spans@.skip(0) =~= spans@);
    }
    while k < spans.len()
        invariant
            k <= spans@.len(),
            style_at(spans@, b as int) == style_at(spans@.skip(k as int), b as int),
        decreases spans@.len() - k,
    {
        proof {
            assert(spans@.skip(k as int)[0] == spans@[k as int]);
            assert(spans@.skip(k as int).skip(1) =~= spans@.skip(k as int + 1));
        }
        if spans[k].start <= b && b < spans[k].end {
            return spans[k].style;
        }
        k = k + 1;
    }
    proof {
        assert(spans@.skip(k as int).len() == 0);
    }
    crate::style::style_default()
}

/// Byte `b` lies in one of the ranges.
fn ranges_contain(rs: &Vec<(usize, usize)>, b: usize) -> (r: bool)
    ensures
        r == in_ranges(rs@, b as int),
{
    let mut k: usize = 0;
    while k < rs.len()
        invariant
            k <= rs@.len(),
            forall|q: int| 0 <= q < k ==> !((#[trigger] rs@[q]).0 <= b < rs@[q].1),
        decreases rs@.len() - k,
    {
        if rs[k].0 <= b && b < rs[k].1 {
            return true;
        }
        k = k + 1;
    }
    false
}

/// Merges the syntax spans of a line with its diff highlight ranges into
/// the minimal coalesced span list.
///
/// The output spans partition `[0, len)` exactly; per byte, the output
/// style is the syntax style with the diff style's set fields overlaid
/// where the byte lies in a changed range; and no two adjacent output
/// spans share a style.
pub fn paint_line(
    len: usize, syntax: &Vec<StyledSpan>, diff: &Vec<(usize, usize)>, diff_style: Style,
) -> (out: Vec<StyledSpan>)
    requires
        spans_cover(syntax@, 0, len as int),
    ensures
        spans_cover(out@, 0, len as int),
        spans_minimal(out@),
        forall|b: int| 0 <= b < len
            ==> style_at(out@, b) == merged_at(syntax@, diff@, diff_style, b),
{
    let mut out: Vec<StyledSpan> = Vec::new();
    if len == 0 {
        return out;
    }
    let first_syn = span_style_at(syntax, 0);
    let mut open_style: Style = if ranges_contain(diff, 0) {
        crate::style::merge_style(first_syn, diff_style)
    } else {
        first_syn
    };
    let mut open_start: usize = 0;
    let mut b: usize = 1;
    while b < len
        invariant
            0 < b <= len,
            open_start < b,
            spans_cover(out@, 0, open_start as int),
            spans_minimal(out@),
            out@.len() > 0 ==> out@.last().style != open_style,
            forall|x: int| 0 <= x < open_start
                ==> style_at(out@, x) == merged_at(syntax@, diff@, diff_style, x),
            forall|x: int| open_start <= x < b
                ==> merged_at(syntax@, diff@, diff_style, x) == open_style,
            spans_cover(syntax@, 0, len as int),
        decreases len - b,
    {
        let syn = span_style_at(syntax, b);
        let st: Style = if ranges_contain(diff, b) {
            crate::style::merge_style(syn, diff_style)
        } else {
            syn
        };
        if !(st == open_style) {
            let sp = StyledSpan { start: open_start, end: b, style: open_style };
            let ghost pre = out@;
            out.push(sp);
            proof {
                lemma_spans_cover_push(pre, sp, 0, open_start as int);
                assert forall|x: int| 0 <= x < b
                    implies style_at(out@, x) == merged_at(syntax@, diff@, diff_style, x) by {
                    if x < open_start {
                        lemma_style_at_covered(pre, sp, 0, open_start as int, x);
                    } else {
                        lemma_style_at_last(pre, sp, 0, x);
                    }
                }
                assert forall|i: int| 0 <= i && i + 1 < out@.len()
                    implies (#[trigger] out@[i]).style != out@[i + 1].style by {
                    if i + 1 < out@.len() - 1 {
                        assert(out@[i] == pre[i] && out@[i + 1] == pre[i + 1]);
                    } else {
                        assert(out@[i] == pre[i] && out@[i + 1] == sp);
                        assert(pre[i] == pre.last());
                    }
                }
            }
            open_start = b;
            open_style = st;
        }
        b = b + 1;
    }
    let sp = StyledSpan { start: open_start, end: len, style: open_style };
    let ghost pre = out@;
    out.push(sp);
    proof {
        lemma_spans_cover_push(pre, sp, 0, open_start as int);
        assert forall|x: int| 0 <= x < len
            implies style_at(out@, x) == merged_at(syntax@, diff@, diff_style, x) by {
            if x < open_start {
                lemma_style_at_covered(pre, sp, 0, open_start as int, x);
            } else {
                lemma_style_at_last(pre, sp, 0, x);
            }
        }
        assert forall|i: int| 0 <= i && i + 1 < out@.len()
            implies (#[trigger] out@[i]).style != out@[i + 1].style by {
            if i + 1 < out@.len() - 1 {
                assert(out@[i] == pre[i] && out@[i + 1] == pre[i + 1]);
            } else {
                assert(out@[i] == pre[i] && out@[i + 1] == sp);
                assert(pre[i] == pre.last());
            }
        }
    }
    out
}

/// The byte offset of each token boundary: entry `k` is the total length
/// of the first `k` tokens.
pub open spec fn offsets_ok(offs: Seq<usize>, tokens: Seq<Vec<u8>>) -> bool {
    offs.len() == tokens.len() + 1
    && offs[0] == 0
    && forall|k: int| 0 <= k < tokens.len()
        ==> (#[trigger] offs[k + 1]) as int == offs[k] + tokens[k]@.len()
}

/// Total byte length of the tokens.
pub open spec fn total_len(tokens: Seq<Vec<u8>>) -> int
    decreases tokens.len(),
{
    if tokens.len() == 0 {
        0
    } else {
        total_len(tokens.drop_last()) + tokens.last()@.len()
    }
}

/// Computes the byte offset of every token boundary.
pub fn token_offsets(tokens: &Vec<Vec<u8>>) -> (offs: Vec<usize>)
    requires
        total_len(tokens@) <= usize::MAX,
    ensures
        offsets_ok(offs@, tokens@),
{
    let mut offs: Vec<usize> = Vec::new();
    offs.push(0);
    let mut k: usize = 0;
    let mut acc: usize = 0;
    while k < tokens.len()
        invariant
            k <= tokens@.len(),
            offs@.len() == k + 1,
            offs@[0] == 0,
            offs@[k as int] == acc,
            acc == total_len(tokens@.take(k as int)),
            total_len(tokens@) <= usize::MAX,
            forall|q: int| 0 <= q < k
                ==> (#[trigger] offs@[q + 1]) as int == offs@[q] + tokens@[q]@.len(),
        decreases tokens@.len() - k,
    {
        proof {
            assert(tokens@.take(k as int + 1).drop_last() =~= tokens@.take(k as int));
            assert(tokens@.take(k as int + 1).last() == tokens@[k as int]);
            lemma_total_len_mono(tokens@, k as int + 1);
        }
        acc = acc + tokens[k].len();
        offs.push(acc);
        k = k + 1;
    }
    proof {
        assert(tokens@.take(k as int) =~= tokens@);
    }
    offs
}

/// A prefix of the tokens is no longer than the whole.
proof fn lemma_total_len_mono(tokens: Seq<Vec<u8>>, k: int)
    requires
        0 <= k <= tokens.len(),
    ensures
        total_len(tokens.take(k)) <= total_len(tokens),
        total_len(tokens.take(k)) >= 0,
    decreases tokens.len() - k,
{
    if k == tokens.len() {
        assert(tokens.take(k) =~= tokens);
        lemma_total_len_nonneg(tokens);
    } else {
        lemma_total_len_mono(tokens, k + 1);
        assert(tokens.take(k + 1).drop_last() =~= tokens.take(k));
        lemma_total_len_nonneg(tokens.take(k));
    }
}

proof fn lemma_total_len_nonneg(tokens: Seq<Vec<u8>>)
    ensures
        total_len(tokens) >= 0,
    decreases tokens.len(),
{
    if tokens.len() > 0 {
        lemma_total_len_nonneg(tokens.drop_last());
    }
}

/// The changed byte ranges of the chosen side, one per changed op, each
/// converted from token indices through the boundary offsets.
pub open spec fn changed_ranges(
    ops: Seq<EditOp>, offs: Seq<usize>, minus_side: bool,
) -> Seq<(usize, usize)>
    decreases ops.len(),
{
    if ops.len() == 0 {
        Seq::empty()
    } else {
        let head = match ops[0] {
            EditOp::Equal { .. } => Seq::<(usize, usize)>::empty(),
            EditOp::Delete { minus_start, minus_end } => if minus_side
                && 0 <= minus_start < offs.len() && 0 <= minus_end < offs.len() {
                seq![(offs[minus_start as int], offs[minus_end as int])]
            } else {
                Seq::empty()
            },
            EditOp::Insert { plus_start, plus_end } => if !minus_side
                && 0 <= plus_start < offs.len() && 0 <= plus_end < offs.len() {
                seq![(offs[plus_start as int], offs[plus_end as int])]
            } else {
                Seq::empty()
            },
            EditOp::Replace { minus_start, minus_end, plus_start, plus_end } => {
                let s = if minus_side { minus_start } else { plus_start };
                let e = if minus_side { minus_end } else { plus_end };
                if 0 <= s < offs.len() && 0 <= e < offs.len() {
                    seq![(offs[s as int], offs[e as int])]
                } else {
                    Seq::empty()
                }
            },
        };
        head + changed_ranges(ops.skip(1), offs, minus_side)
    }
}

/// Converts the changed ops of one side into byte ranges of that side's
/// line, through the token boundary offsets.
pub fn diff_byte_ranges(
    ops: &Vec<EditOp>, offs: &Vec<usize>, minus_side: bool,
) -> (rs: Vec<(usize, usize)>)
    ensures
        rs@ == changed_ranges(ops@, offs@, minus_side),
{
    let mut rs: Vec<(usize, usize)> = Vec::new();
    let mut k: usize = 0;
    proof {
        assert(ops@.skip(0) =~= ops@);
        assert(rs@ =~= Seq::<(usize, usize)>::empty());
    }
    while k < ops.len()
        invariant
            k <= ops@.len(),
            changed_ranges(ops@, offs@, minus_side)
                == rs@ + changed_ranges(ops@.skip(k as int), offs@, minus_side),
        decreases ops@.len() - k,
    {
        let ghost pre = rs@;
        proof {
            assert(ops@.skip(k as int)[0] == ops@[k as int]);
            assert(ops@.skip(k as int).skip(1) =~= ops@.skip(k as int + 1));
        }
        let op = ops[k];
        match op {
            EditOp::Equal { .. } => {},
            EditOp::Delete { minus_start, minus_end } => {
                if minus_side && minus_start < offs.len() && minus_end < offs.len() {
                    rs.push((offs[minus_start], offs[minus_end]));
                }
            },
            EditOp::Insert { plus_start, plus_end } => {
                if !minus_side && plus_start < offs.len() && plus_end < offs.len() {
                    rs.push((offs[plus_start], offs[plus_end]));
                }
            },
            EditOp::Replace { minus_start, minus_end, plus_start, plus_end } => {
                let s = if minus_side { minus_start } else { plus_start };
                let e = if minus_side { minus_end } else { plus_end };
                if s < offs.len() && e < offs.len() {
                    rs.push((offs[s], offs[e]));
                }
            },
        }
        proof {
            if rs@.len() > pre.len() {
                assert(rs@ =~= pre.push(rs@.last()));
                assert(pre.push(rs@.last())
                    + changed_ranges(ops@.skip(k as int + 1), offs@, minus_side)
                    =~= pre + (seq![rs@.last()]
                        + changed_ranges(ops@.skip(k as int + 1), offs@, minus_side)));
            }
        }
        k = k + 1;
    }
    proof {
        assert(ops@.skip(k as int).len() == 0);
        assert(changed_ranges(ops@.skip(k as int), offs@, minus_side)
            =~= Seq::<(usize, usize)>::empty());
        assert(rs@ + Seq::<(usize, usize)>::empty() =~= rs@);
    }
    rs
}

proof fn lemma_total_len_front(tokens: Seq<Vec<u8>>)
    requires
        tokens.len() > 0,
    ensures
        total_len(tokens) == tokens[0]@.len() + total_len(tokens.skip(1)),
    decreases tokens.len(),
{
    if tokens.len() == 1 {
        assert(tokens.drop_last().len() == 0);
        assert(total_len(tokens.drop_last()) == 0);
        assert(tokens.skip(1).len() == 0);
        assert(total_len(tokens.skip(1)) == 0);
        assert(tokens.last() == tokens[0]);
    } else {
        lemma_total_len_front(tokens.drop_last());
        assert(tokens.drop_last()[0] == tokens[0]);
        assert(tokens.drop_last().skip(1) =~= tokens.skip(1).drop_last());
        assert(total_len(tokens.skip(1))
            == total_len(tokens.skip(1).drop_last()) + tokens.skip(1).last()@.len());
        assert(tokens.skip(1).last() == tokens.last());
    }
}

/// The total token length is the length of the concatenated tokens.
proof fn lemma_total_len_concat(tokens: Seq<Vec<u8>>)
    ensures
        total_len(tokens) == concat_tokens(token_views(tokens)).len(),
    decreases tokens.len(),
{
    if tokens.len() == 0 {
        assert(token_views(tokens).len() == 0);
        assert(concat_tokens(token_views(tokens)).len() == 0);
    } else {
        lemma_total_len_front(tokens);
        lemma_total_len_concat(tokens.skip(1));
        assert(token_views(tokens)[0] == tokens[0]@);
        assert(token_views(tokens).skip(1) =~= token_views(tokens.skip(1)));
        assert(concat_tokens(token_views(tokens))
            == tokens[0]@ + concat_tokens(token_views(tokens).skip(1)));
    }
}

/// The two style layers of one paired line side.
#[derive(Clone, Copy, Debug, PartialEq, Eq, Structural)]
pub struct PairStyles {
    pub minus_base: Style,
    pub minus_emph: Style,
    pub plus_base: Style,
    pub plus_emph: Style,
}

/// The intra-line highlight of one paired minus/plus line.
#[derive(Debug)]
pub struct PairHighlight {
    pub ops: Vec<EditOp>,
    pub minus_offsets: Vec<usize>,
    pub plus_offsets: Vec<usize>,
    pub minus_spans: Vec<StyledSpan>,
    pub plus_spans: Vec<StyledSpan>,
}

/// Highlights what changed between a paired minus and plus line.
///
/// Both lines are tokenized at the chosen granularity; the coalesced
/// minimal edit script between the token sequences yields the changed
/// token ranges, mapped to byte ranges through the returned boundary
/// offsets.  Per byte, each side shows its base style, with the
/// emphasis style's set fields overlaid exactly on the bytes of changed
/// tokens, as the minimal coalesced span list.
pub fn highlight_pair(
    minus_line: &Vec<u8>, plus_line: &Vec<u8>, mode: TokenMode, min_equal: usize,
    styles: PairStyles,
) -> (r: PairHighlight)
    requires
        minus_line@.len() < usize::MAX,
        plus_line@.len() < usize::MAX,
    ensures
        ops_cover(r.ops@, 0, 0,
            tokens_of(minus_line@, mode).len() as int,
            tokens_of(plus_line@, mode).len() as int),
        ops_tokens_agree(r.ops@, tokens_of(minus_line@, mode), tokens_of(plus_line@, mode)),
        coalesced(r.ops@, min_equal as int),
        offsets_match(r.minus_offsets@, tokens_of(minus_line@, mode)),
        offsets_match(r.plus_offsets@, tokens_of(plus_line@, mode)),
        spans_cover(r.minus_spans@, 0, minus_line@.len() as int),
        spans_cover(r.plus_spans@, 0, plus_line@.len() as int),
        spans_minimal(r.minus_spans@),
        spans_minimal(r.plus_spans@),
        forall|b: int| 0 <= b < minus_line@.len()
            ==> style_at(r.minus_spans@, b) == (
                if in_ranges(changed_ranges(r.ops@, r.minus_offsets@, true), b) {
                    merge_styles(styles.minus_base, styles.minus_emph)
                } else {
                    styles.minus_base
                }),
        forall|b: int| 0 <= b < plus_line@.len()
            ==> style_at(r.plus_spans@, b) == (
                if in_ranges(changed_ranges(r.ops@, r.plus_offsets@, false), b) {
                    merge_styles(styles.plus_base, styles.plus_emph)
                } else {
                    styles.plus_base
                }),
{
    let mtok = tokenize(minus_line, mode);
    let ptok = tokenize(plus_line, mode);
    proof {
        lemma_total_len_concat(mtok@);
        lemma_total_len_concat(ptok@);
        lemma_tokens_partition(minus_line@, mode);
        lemma_tokens_partition(plus_line@, mode);
        crate::edit::lemma_tokens_count(minus_line@, mode);
        crate::edit::lemma_tokens_count(plus_line@, mode);
    }
    let raw_ops = compute_edit_ops(&mtok, &ptok);
    let ops = coalesce_edit_ops(&raw_ops, min_equal, mtok.len(), ptok.len());
    proof {
        lemma_agree_from_contains(
            ops@, raw_ops@, token_views(mtok@), token_views(ptok@),
        );
    }
    let moffs = token_offsets(&mtok);
    let poffs = token_offsets(&ptok);
    let mranges = diff_byte_ranges(&ops, &moffs, true);
    let pranges = diff_byte_ranges(&ops, &poffs, false);
    let minus_spans = overlay_line(minus_line.len(), styles.minus_base, &mranges, styles.minus_emph);
    let plus_spans = overlay_line(plus_line.len(), styles.plus_base, &pranges, styles.plus_emph);
    proof {
        assert forall|k: int| 0 <= k < tokens_of(minus_line@, mode).len()
            implies (#[trigger] moffs@[k + 1]) as int
                == moffs@[k] + tokens_of(minus_line@, mode)[k].len() by {
            assert(moffs@[k + 1] as int == moffs@[k] + mtok@[k]@.len());
            assert(token_views(mtok@)[k] == mtok@[k]@);
        }
        assert forall|k: int| 0 <= k < tokens_of(plus_line@, mode).len()
            implies (#[trigger] poffs@[k + 1]) as int
                == poffs@[k] + tokens_of(plus_line@, mode)[k].len() by {
            assert(poffs@[k + 1] as int == poffs@[k] + ptok@[k]@.len());
            assert(token_views(ptok@)[k] == ptok@[k]@);
        }
    }
    PairHighlight { ops, minus_offsets: moffs, plus_offsets: poffs, minus_spans, plus_spans }
}

/// The offsets mark the byte boundary of every token.
pub open spec fn offsets_match(offs: Seq<usize>, tokens: Seq<Seq<u8>>) -> bool {
    offs.len() == tokens.len() + 1
    && offs[0] == 0
    && forall|k: int| 0 <= k < tokens.len()
        ==> (#[trigger] offs[k + 1]) as int == offs[k] + tokens[k].len()
}

/// Paints a line whose whole syntax layer is one base style.
fn overlay_line(
    len: usize, base: Style, diff: &Vec<(usize, usize)>, emph: Style,
) -> (out: Vec<StyledSpan>)
    ensures
        spans_cover(out@, 0, len as int),
        spans_minimal(out@),
        forall|b: int| 0 <= b < len
            ==> style_at(out@, b) == (if in_ranges(diff@, b) {
                merge_styles(base, emph)
            } else {
                base
            }),
{
    let mut syntax: Vec<StyledSpan> = Vec::new();
    if len > 0 {
        syntax.push(StyledSpan { start: 0, end: len, style: base });
        proof {
            assert(syntax@.skip(1) =~= Seq::<StyledSpan>::empty());
            assert(spans_cover(syntax@.skip(1), len as int, len as int));
        }
    } else {
        proof {
            assert(spans_cover(syntax@, 0, 0));
        }
    }
    let out = paint_line(len, &syntax, diff, emph);
    proof {
        assert forall|b: int| 0 <= b < len
            implies style_at(syntax@, b) == base by {
            assert(syntax@[0].start <= b < syntax@[0].end);
        }
    }
    out
}

} // verus!
