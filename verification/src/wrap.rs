//! Width-aware wrapping of styled lines.
//!
//! A styled line is a sequence of display clusters, each carrying its
//! text, its display width and its style.  Wrapping walks the clusters
//! accumulating display width and breaks before the first cluster that
//! would overflow the target width; a cluster is never split, and a wide
//! cluster arriving one column short of the edge moves to the next
//! physical line in full, leaving the last column unfilled.  Break
//! positions are a function of the cluster widths alone, so style never
//! affects where a line breaks.

use vstd::prelude::*;
use crate::style::Style;

verus! {

/// One display cluster: the smallest unit of text that must render as
/// one unbreakable visual character.  It spans one base character and
/// any combining marks that follow it.
#[derive(Clone, Debug)]
pub struct Cluster {
    pub text: Vec<char>,
    pub width: u8,
    pub style: Style,
}

/// Display width of a code point: 0 for combining and zero-width code
/// points, 2 for wide (East Asian) code points, 1 otherwise.  The wide
/// and combining ranges cover the common blocks.
pub open spec fn char_width(c: char) -> int {
    let u = c as u32;
    if (0x300 <= u && u <= 0x36F) || (0x1AB0 <= u && u <= 0x1AFF)
        || (0x20D0 <= u && u <= 0x20FF) || (0xFE20 <= u && u <= 0xFE2F)
        || (0x200B <= u && u <= 0x200D) || u == 0xFEFF {
        0
    } else if (0x1100 <= u && u <= 0x115F) || (0x2E80 <= u && u <= 0x303E)
        || (0x3041 <= u && u <= 0x33FF) || (0x3400 <= u && u <= 0x4DBF)
        || (0x4E00 <= u && u <= 0x9FFF) || (0xA000 <= u && u <= 0xA4CF)
        || (0xAC00 <= u && u <= 0xD7A3) || (0xF900 <= u && u <= 0xFAFF)
        || (0xFE30 <= u && u <= 0xFE4F) || (0xFF00 <= u && u <= 0xFF60)
        || (0xFFE0 <= u && u <= 0xFFE6) || (0x20000 <= u && u <= 0x2FFFD)
        || (0x30000 <= u && u <= 0x3FFFD) {
        2
    } else {
        1
    }
}

/// Returns the display width of a code point.
pub fn display_width(c: char) -> (r: u8)
    ensures
        r as int == char_width(c),
{
    let u = c as u32;
    if (0x300 <= u && u <= 0x36F) || (0x1AB0 <= u && u <= 0x1AFF)
        || (0x20D0 <= u && u <= 0x20FF) || (0xFE20 <= u && u <= 0xFE2F)
        || (0x200B <= u && u <= 0x200D) || u == 0xFEFF {
        0
    } else if (0x1100 <= u && u <= 0x115F) || (0x2E80 <= u && u <= 0x303E)
        || (0x3041 <= u && u <= 0x33FF) || (0x3400 <= u && u <= 0x4DBF)
        || (0x4E00 <= u && u <= 0x9FFF) || (0xA000 <= u && u <= 0xA4CF)
        || (0xAC00 <= u && u <= 0xD7A3) || (0xF900 <= u && u <= 0xFAFF)
        || (0xFE30 <= u && u <= 0xFE4F) || (0xFF00 <= u && u <= 0xFF60)
        || (0xFFE0 <= u && u <= 0xFFE6) || (0x20000 <= u && u <= 0x2FFFD)
        || (0x30000 <= u && u <= 0x3FFFD) {
        2
    } else {
        1
    }
}

/// The number of leading width-0 code points.
pub open spec fn mark_run(cs: Seq<char>) -> nat
    decreases cs.len(),
{
    if cs.len() == 0 || char_width(cs[0]) != 0 {
        0
    } else {
        1 + mark_run(cs.skip(1))
    }
}

/// The display clusters of a character sequence: each cluster is one
/// base code point together with the width-0 code points that follow it.
pub open spec fn cluster_split(cs: Seq<char>) -> Seq<Seq<char>>
    decreases cs.len(),
{
    if cs.len() == 0 {
        Seq::empty()
    } else {
        let r = 1 + mark_run(cs.skip(1)) as int;
        let l = if r <= cs.len() { r } else { cs.len() as int };
        seq![cs.take(l)] + cluster_split(cs.skip(l))
    }
}

/// A cluster's display width is its base code point's width; marks add
/// nothing.
pub open spec fn cluster_width_of(cl: Seq<char>) -> int {
    if cl.len() == 0 {
        0
    } else {
        char_width(cl[0])
    }
}

/// The (text, width, style) triples of a cluster sequence.
pub open spec fn cells_of(cs: Seq<Cluster>) -> Seq<(Seq<char>, int, Style)> {
    cs.map_values(|c: Cluster| (c.text@, c.width as int, c.style))
}

/// The widths of a cluster sequence.
pub open spec fn widths_of(cs: Seq<Cluster>) -> Seq<int> {
    cs.map_values(|c: Cluster| c.width as int)
}

/// Splits a uniformly styled character run into display clusters.
pub fn clusters_of(text: &Vec<char>, style: Style) -> (r: Vec<Cluster>)
    ensures
        r@.map_values(|c: Cluster| c.text@) == cluster_split(text@),
        forall|i: int| 0 <= i < r@.len()
            ==> (#[trigger] r@[i]).width as int == cluster_width_of(r@[i].text@)
                && r@[i].style == style,
{
    let mut r: Vec<Cluster> = Vec::new();
    let mut pos: usize = 0;
    proof {
        assert(text@.skip(0) =~= text@);
        assert(r@.map_values(|c: Cluster| c.text@) =~= Seq::<Seq<char>>::empty());
    }
    while pos < text.len()
        invariant
            pos <= text@.len(),
            cluster_split(text@) == r@.map_values(|c: Cluster| c.text@)
                + cluster_split(text@.skip(pos as int)),
            forall|i: int| 0 <= i < r@.len()
                ==> (#[trigger] r@[i]).width as int == cluster_width_of(r@[i].text@)
                    && r@[i].style == style,
        decreases text@.len() - pos,
    {
        let ghost rest = text@.skip(pos as int);
        let start = pos;
        let w = display_width(text[pos]);
        let mut end = pos + 1;
        while end < text.len() && display_width(text[end]) == 0
            invariant
                pos < end <= text@.len(),
                pos < text@.len(),
                forall|q: int| pos < q < end ==> char_width(#[trigger] text@[q]) == 0,
            decreases text@.len() - end,
        {
            end = end + 1;
        }
        let len = end - start;
        proof {
            assert(mark_run(text@.skip(pos as int + 1)) == len - 1) by {
                lemma_mark_run_value(text@, pos as int + 1, (pos + len) as int);
            }
            assert(rest.skip(1) =~= text@.skip(pos as int + 1));
        }
        let mut cltext: Vec<char> = Vec::new();
        let mut q: usize = start;
        while q < end
            invariant
                start <= q <= end,
                end <= text@.len(),
                cltext@ == text@.subrange(start as int, q as int),
            decreases end - q,
        {
            cltext.push(text[q]);
            proof {
                assert(cltext@ =~= text@.subrange(start as int, q as int + 1));
            }
            q = q + 1;
        }
        let ghost pre = r@;
        proof {
            assert(cltext@ =~= rest.take(len as int));
        }
        r.push(Cluster { text: cltext, width: w, style });
        pos = end;
        proof {
            assert(text@.skip(pos as int) =~= rest.skip(len as int));
            let tail = cluster_split(text@.skip(pos as int));
            assert(r@.map_values(|c: Cluster| c.text@)
                =~= pre.map_values(|c: Cluster| c.text@).push(rest.take(len as int)));
            assert(pre.map_values(|c: Cluster| c.text@).push(rest.take(len as int)) + tail
                =~= pre.map_values(|c: Cluster| c.text@)
                    + (seq![rest.take(len as int)] + tail));
        }
    }
    proof {
        assert(text@.skip(pos as int).len() == 0);
        assert(cluster_split(text@.skip(pos as int)) =~= Seq::<Seq<char>>::empty());
        assert(r@.map_values(|c: Cluster| c.text@) + Seq::<Seq<char>>::empty()
            =~= r@.map_values(|c: Cluster| c.text@));
    }
    r
}

/// The run of width-0 code points from `from` to `to` is maximal.
proof fn lemma_mark_run_value(cs: Seq<char>, from: int, to: int)
    requires
        0 < from <= to <= cs.len(),
        forall|q: int| from <= q < to ==> char_width(#[trigger] cs[q]) == 0,
        to < cs.len() ==> char_width(cs[to]) != 0,
    ensures
        mark_run(cs.skip(from)) == to - from,
    decreases to - from,
{
    let rest = cs.skip(from);
    if from < to {
        assert(rest[0] == cs[from]);
        lemma_mark_run_value(cs, from + 1, to);
        assert(rest.skip(1) =~= cs.skip(from + 1));
    } else {
        if to < cs.len() {
            assert(rest[0] == cs[to]);
        }
    }
}

/// How many leading clusters fit on one physical line that already holds
/// `col` columns: at least one cluster goes on an empty line, and then
/// clusters are taken while they fit within `w` columns.
pub open spec fn line_take(ws: Seq<int>, w: int, col: int) -> nat
    decreases ws.len(),
{
    if ws.len() == 0 {
        0
    } else if col == 0 || col + ws[0] <= w {
        1 + line_take(ws.skip(1), w, col + ws[0])
    } else {
        0
    }
}

/// The cluster counts of the physical lines that wrapping a line of the
/// given cluster widths at width `w` produces.  Break positions depend
/// on the widths alone.
pub open spec fn wrap_lens(ws: Seq<int>, w: int) -> Seq<int>
    decreases ws.len(),
{
    if ws.len() == 0 {
        Seq::empty()
    } else {
        let k0 = line_take(ws, w, 0) as int;
        let k = if 1 <= k0 && k0 <= ws.len() { k0 } else { 1 };
        seq![k] + wrap_lens(ws.skip(k), w)
    }
}

proof fn lemma_line_take_bounds(ws: Seq<int>, w: int, col: int)
    ensures
        line_take(ws, w, col) <= ws.len(),
    decreases ws.len(),
{
    if ws.len() > 0 && (col == 0 || col + ws[0] <= w) {
        lemma_line_take_bounds(ws.skip(1), w, col + ws[0]);
    }
}

/// Break positions are a function of the cluster widths alone: two
/// styled lines whose clusters have the same widths wrap at the same
/// cluster offsets, whatever their text or styles — in particular,
/// stripping all style never moves a break.
pub proof fn lemma_breaks_ignore_style(a: Seq<Cluster>, b: Seq<Cluster>, w: int)
    requires
        widths_of(a) == widths_of(b),
    ensures
        wrap_lens(widths_of(a), w) == wrap_lens(widths_of(b), w),
{
}

/// The clusters of the physical lines, flattened in order.
pub open spec fn flat_cells(ls: Seq<Vec<Cluster>>) -> Seq<(Seq<char>, int, Style)>
    decreases ls.len(),
{
    if ls.len() == 0 {
        Seq::empty()
    } else {
        cells_of(ls[0]@) + flat_cells(ls.skip(1))
    }
}

proof fn lemma_flat_cells_push(ls: Seq<Vec<Cluster>>, l: Vec<Cluster>)
    ensures
        flat_cells(ls.push(l)) == flat_cells(ls) + cells_of(l@),
    decreases ls.len(),
{
    if ls.len() == 0 {
        let s = ls.push(l);
        assert(s[0] == l);
        assert(s.skip(1) =~= Seq::<Vec<Cluster>>::empty());
        assert(flat_cells(s.skip(1)) =~= Seq::<(Seq<char>, int, Style)>::empty());
        assert(cells_of(l@) + Seq::<(Seq<char>, int, Style)>::empty() =~= cells_of(l@));
        assert(flat_cells(ls) =~= Seq::<(Seq<char>, int, Style)>::empty());
        assert(flat_cells(ls) + cells_of(l@) =~= cells_of(l@));
    } else {
        lemma_flat_cells_push(ls.skip(1), l);
        assert(ls.push(l)[0] == ls[0]);
        assert(ls.push(l).skip(1) =~= ls.skip(1).push(l));
        assert(cells_of(ls[0]@) + (flat_cells(ls.skip(1)) + cells_of(l@))
            =~= (cells_of(ls[0]@) + flat_cells(ls.skip(1))) + cells_of(l@));
    }
}

/// Wraps one styled line to the target display width.
///
/// Every display cluster of the input appears whole, in order and with
/// its style, on exactly one physical output line: no wrap ever splits a
/// cluster, and the style active at a break resumes on the next line.
/// The cluster count of each physical line equals the width-only wrap
/// computation, so styles never affect break positions.  A wide cluster
/// that would overflow moves to the next line in full, even when that
/// leaves a column unfilled.
pub fn wrap_line(clusters: Vec<Cluster>, width: usize) -> (out: Vec<Vec<Cluster>>)
    requires
        width <= 1000000,
    ensures
        flat_cells(out@) == cells_of(clusters@),
        out@.map_values(|l: Vec<Cluster>| l@.len() as int)
            == wrap_lens(widths_of(clusters@), width as int),
{
    let ghost orig = clusters@;
    let mut rest = clusters;
    let mut out: Vec<Vec<Cluster>> = Vec::new();
    proof {
        assert(flat_cells(out@) =~= Seq::<(Seq<char>, int, Style)>::empty());
        assert(flat_cells(out@) + cells_of(rest@) =~= cells_of(rest@));
        assert(out@.map_values(|l: Vec<Cluster>| l@.len() as int)
            =~= Seq::<int>::empty());
        assert(out@.map_values(|l: Vec<Cluster>| l@.len() as int)
            + wrap_lens(widths_of(rest@), width as int)
            =~= wrap_lens(widths_of(rest@), width as int));
    }
    while rest.len() > 0
        invariant
            width <= 1000000,
            cells_of(orig) == flat_cells(out@) + cells_of(rest@),
            wrap_lens(widths_of(orig), width as int)
                == out@.map_values(|l: Vec<Cluster>| l@.len() as int)
                    + wrap_lens(widths_of(rest@), width as int),
        decreases rest@.len(),
    {
        let ghost rest0 = rest@;
        let mut cur: Vec<Cluster> = Vec::new();
        let mut col: usize = 0;
        proof {
            assert(cells_of(cur@) =~= Seq::<(Seq<char>, int, Style)>::empty());
            assert(cells_of(cur@) + cells_of(rest@) =~= cells_of(rest@));
            assert(widths_of(rest@) =~= widths_of(rest0).skip(0));
        }
        while rest.len() > 0 && (col == 0 || col + rest[0].width as usize <= width)
            invariant
                width <= 1000000,
                col <= width + 255,
                cells_of(rest0) == cells_of(cur@) + cells_of(rest@),
                widths_of(rest@) == widths_of(rest0).skip(cur@.len() as int),
                cur@.len() <= rest0.len(),
                line_take(widths_of(rest0), width as int, 0)
                    == cur@.len() + line_take(widths_of(rest@), width as int, col as int),
            decreases rest@.len(),
        {
            let ghost rest_pre = rest@;
            let ghost cur_pre = cur@;
            let c = rest.remove(0);
            proof {
                assert(rest@ =~= rest_pre.skip(1));
                assert(widths_of(rest_pre)[0] == c.width as int);
                assert(widths_of(rest@) =~= widths_of(rest_pre).skip(1));
                assert(widths_of(rest0).skip(cur_pre.len() as int).skip(1)
                    =~= widths_of(rest0).skip(cur_pre.len() as int + 1));
            }
            let cw = c.width as usize;
            cur.push(c);
            col = col + cw;
            proof {
                assert(cells_of(rest_pre) =~= seq![cells_of(rest_pre)[0]] + cells_of(rest@));
                assert(cells_of(cur@) =~= cells_of(cur_pre).push(cells_of(rest_pre)[0]));
                assert(cells_of(cur_pre).push(cells_of(rest_pre)[0]) + cells_of(rest@)
                    =~= cells_of(cur_pre) + (seq![cells_of(rest_pre)[0]] + cells_of(rest@)));
            }
        }
        proof {
            assert(line_take(widths_of(rest@), width as int, col as int) == 0);
            assert(line_take(widths_of(rest0), width as int, 0) == cur@.len());
            lemma_line_take_bounds(widths_of(rest0), width as int, 0);
        }
        let ghost out_pre = out@;
        out.push(cur);
        proof {
            lemma_flat_cells_push(out_pre, out@.last());
            assert(out@ =~= out_pre.push(out@.last()));
            assert((flat_cells(out_pre) + cells_of(out@.last()@)) + cells_of(rest@)
                =~= flat_cells(out_pre) + (cells_of(out@.last()@) + cells_of(rest@)));
            let lens_pre = out_pre.map_values(|l: Vec<Cluster>| l@.len() as int);
            assert(out@.map_values(|l: Vec<Cluster>| l@.len() as int)
                =~= lens_pre.push(out@.last()@.len() as int));
            assert(lens_pre.push(out@.last()@.len() as int)
                + wrap_lens(widths_of(rest@), width as int)
                =~= lens_pre + (seq![out@.last()@.len() as int]
                    + wrap_lens(widths_of(rest@), width as int)));
        }
    }
    proof {
        assert(cells_of(rest@) =~= Seq::<(Seq<char>, int, Style)>::empty());
        assert(flat_cells(out@) + cells_of(rest@) =~= flat_cells(out@));
        assert(widths_of(rest@).len() == 0);
        assert(wrap_lens(widths_of(rest@), width as int) =~= Seq::<int>::empty());
        assert(out@.map_values(|l: Vec<Cluster>| l@.len() as int)
            + wrap_lens(widths_of(rest@), width as int)
            =~= out@.map_values(|l: Vec<Cluster>| l@.len() as int));
    }
    out
}

} // verus!
