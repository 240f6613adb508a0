//! Classification of incoming diff lines and hunk headers.
//!
//! Each raw line is classified by its leading marker; a malformed or
//! unrecognized line becomes `Other` and passes through unmodified,
//! never failing the run.  A hunk header of the usual form
//! `@@ -A,B +C,D @@` yields the old and new line-number ranges.

use vstd::prelude::*;
use crate::style::split_ws;
use crate::style::split_tokens;
use crate::style::is_digit;
use crate::style::all_digits;
use crate::style::dec_val;

verus! {

/// The classification of one incoming line.
#[derive(Clone, Copy, Debug, PartialEq, Eq, Structural)]
pub enum LineKind {
    Context,
    Minus,
    Plus,
    Header,
    Other,
}

/// The classification a raw line gets from its leading marker.  A hunk
/// header leads with two at signs; anything unrecognized is `Other`.
pub open spec fn kind_of(line: Seq<u8>) -> LineKind {
    if line.len() >= 2 && line[0] == 64 && line[1] == 64 {
        LineKind::Header
    } else if line.len() >= 1 && line[0] == 45 {
        LineKind::Minus
    } else if line.len() >= 1 && line[0] == 43 {
        LineKind::Plus
    } else if line.len() >= 1 && line[0] == 32 {
        LineKind::Context
    } else {
        LineKind::Other
    }
}

/// Classifies one raw line.
pub fn classify_line(line: &Vec<u8>) -> (k: LineKind)
    ensures
        k == kind_of(line@),
{
    if line.len() >= 2 && line[0] == 64 && line[1] == 64 {
        LineKind::Header
    } else if line.len() >= 1 && line[0] == 45 {
        LineKind::Minus
    } else if line.len() >= 1 && line[0] == 43 {
        LineKind::Plus
    } else if line.len() >= 1 && line[0] == 32 {
        LineKind::Context
    } else {
        LineKind::Other
    }
}

/// Ten to the `n`.
pub open spec fn pow10(n: nat) -> int
    decreases n,
{
    if n == 0 {
        1
    } else {
        10 * pow10((n - 1) as nat)
    }
}

proof fn lemma_dec_val_bound(t: Seq<u8>)
    requires
        all_digits(t),
    ensures
        0 <= dec_val(t) < pow10(t.len()),
    decreases t.len(),
{
    if t.len() == 0 {
    } else {
        assert(all_digits(t.drop_last())) by {
            assert forall|i: int| 0 <= i < t.drop_last().len()
                implies is_digit(#[trigger] t.drop_last()[i]) by {
                assert(t.drop_last()[i] == t[i]);
            }
        }
        lemma_dec_val_bound(t.drop_last());
        assert(is_digit(t[t.len() - 1]));
        assert(t.last() == t[t.len() - 1]);
    }
}

/// The value of a run of at most six digits, or `None` otherwise.
pub open spec fn number_of(t: Seq<u8>) -> Option<int> {
    if 1 <= t.len() <= 6 && all_digits(t) {
        Some(dec_val(t))
    } else {
        None
    }
}

/// Parses a run of at most six digits.
fn parse_number(t: &Vec<u8>) -> (r: Option<usize>)
    ensures
        r is Some <==> number_of(t@) is Some,
        r is Some ==> r->Some_0 as int == number_of(t@)->Some_0 && r->Some_0 <= 999999,
{
    if t.len() < 1 || t.len() > 6 {
        return None;
    }
    let mut k: usize = 0;
    let mut value: usize = 0;
    while k < t.len()
        invariant
            k <= t@.len(),
            t@.len() <= 6,
            forall|q: int| 0 <= q < k ==> is_digit(#[trigger] t@[q]),
            value == dec_val(t@.take(k as int)),
            value < pow10(k as nat),
        decreases t@.len() - k,
    {
        let b = t[k];
        if !(48 <= b && b <= 57) {
            return None;
        }
        proof {
            assert(t@.take(k as int + 1).drop_last() =~= t@.take(k as int));
            assert(t@.take(k as int + 1).last() == t@[k as int]);
            assert(pow10(0) == 1);
            assert(pow10(1) == 10);
            assert(pow10(2) == 100);
            assert(pow10(3) == 1000);
            assert(pow10(4) == 10000);
            assert(pow10(5) == 100000);
            assert(pow10(6) == 1000000);
        }
        value = value * 10 + (b - 48) as usize;
        k = k + 1;
    }
    proof {
        assert(t@.take(k as int) =~= t@);
        assert(pow10(0) == 1);
        assert(pow10(1) == 10);
        assert(pow10(2) == 100);
        assert(pow10(3) == 1000);
        assert(pow10(4) == 10000);
        assert(pow10(5) == 100000);
        assert(pow10(6) == 1000000);
    }
    Some(value)
}

/// The first comma of the token, or its length if it has none.
pub open spec fn comma_at(t: Seq<u8>) -> int
    decreases t.len(),
{
    if t.len() == 0 {
        0
    } else if t[0] == 44 {
        0
    } else {
        1 + comma_at(t.skip(1))
    }
}

/// The line range a token of the form `A` or `A,B` denotes: start `A`
/// and count `B`, with the count 1 when only `A` is given.
pub open spec fn range_of(t: Seq<u8>) -> Option<(int, int)> {
    let c = comma_at(t);
    if c == t.len() {
        match number_of(t) {
            Some(a) => Some((a, 1)),
            None => None,
        }
    } else {
        match (number_of(t.take(c)), number_of(t.skip(c + 1))) {
            (Some(a), Some(b)) => Some((a, b)),
            _ => None,
        }
    }
}

/// Parses a token of the form `A` or `A,B`.
fn parse_range(t: &Vec<u8>) -> (r: Option<(usize, usize)>)
    ensures
        r is Some <==> range_of(t@) is Some,
        r is Some ==> (r->Some_0).0 as int == (range_of(t@)->Some_0).0
            && (r->Some_0).1 as int == (range_of(t@)->Some_0).1
            && (r->Some_0).0 <= 999999 && (r->Some_0).1 <= 999999,
{
    let mut c: usize = 0;
    proof {
        assert(t@.skip(0) =~= t@);
        assert(comma_at(t@) - 0 == comma_at(t@.skip(0)));
    }
    while c < t.len() && t[c] != 44
        invariant
            c <= t@.len(),
            comma_at(t@) == c + comma_at(t@.skip(c as int)),
            forall|q: int| 0 <= q < c ==> t@[q] != 44,
        decreases t@.len() - c,
    {
        proof {
            assert(t@.skip(c as int)[0] == t@[c as int]);
            assert(t@.skip(c as int).skip(1) =~= t@.skip(c as int + 1));
        }
        c = c + 1;
    }
    proof {
        if c < t@.len() {
            assert(t@.skip(c as int)[0] == t@[c as int]);
            assert(comma_at(t@.skip(c as int)) == 0);
        } else {
            assert(t@.skip(c as int).len() == 0);
            assert(comma_at(t@.skip(c as int)) == 0);
        }
        assert(comma_at(t@) == c);
    }
    if c == t.len() {
        match parse_number(t) {
            Some(a) => Some((a, 1)),
            None => None,
        }
    } else {
        let mut left: Vec<u8> = Vec::new();
        let mut q: usize = 0;
        while q < c
            invariant
                q <= c,
                c <= t@.len(),
                left@ == t@.subrange(0, q as int),
            decreases c - q,
        {
            left.push(t[q]);
            proof {
                assert(left@ =~= t@.subrange(0, q as int + 1));
            }
            q = q + 1;
        }
        let mut right: Vec<u8> = Vec::new();
        let mut w: usize = c + 1;
        while w < t.len()
            invariant
                c + 1 <= w <= t@.len(),
                right@ == t@.subrange(c as int + 1, w as int),
            decreases t@.len() - w,
        {
            right.push(t[w]);
            proof {
                assert(right@ =~= t@.subrange(c as int + 1, w as int + 1));
            }
            w = w + 1;
        }
        proof {
            assert(left@ =~= t@.take(c as int));
            assert(right@ =~= t@.skip(c as int + 1));
        }
        let a = parse_number(&left);
        let b = parse_number(&right);
        match (a, b) {
            (Some(x), Some(y)) => Some((x, y)),
            _ => None,
        }
    }
}

/// The old and new line-number ranges of a hunk header.
#[derive(Clone, Copy, Debug, PartialEq, Eq, Structural)]
pub struct HunkHeader {
    pub minus_start: usize,
    pub minus_count: usize,
    pub plus_start: usize,
    pub plus_count: usize,
}

/// The ranges a hunk header line carries, if it is well formed: its
/// second token is `-A[,B]` and its third is `+C[,D]`.
pub open spec fn header_of(line: Seq<u8>) -> Option<(int, int, int, int)> {
    let toks = split_ws(line);
    if toks.len() >= 3 && toks[1].len() >= 1 && toks[1][0] == 45
        && toks[2].len() >= 1 && toks[2][0] == 43 {
        match (range_of(toks[1].skip(1)), range_of(toks[2].skip(1))) {
            (Some(mr), Some(pr)) => Some((mr.0, mr.1, pr.0, pr.1)),
            _ => None,
        }
    } else {
        None
    }
}

/// Parses a hunk header line into its old and new line-number ranges.
pub fn parse_hunk_header(line: &Vec<u8>) -> (r: Option<HunkHeader>)
    ensures
        r is Some <==> header_of(line@) is Some,
        r is Some ==> {
            let h = header_of(line@)->Some_0;
            (r->Some_0).minus_start as int == h.0 && (r->Some_0).minus_count as int == h.1
                && (r->Some_0).plus_start as int == h.2 && (r->Some_0).plus_count as int == h.3
        },
{
    let toks = split_tokens(line);
    proof {
        assert(toks@.map_values(|t: Vec<u8>| t@).len() == toks@.len());
    }
    if toks.len() < 3 {
        return None;
    }
    proof {
        assert(split_ws(line@)[1] == toks@[1]@);
        assert(split_ws(line@)[2] == toks@[2]@);
    }
    if toks[1].len() < 1 || toks[1][0] != 45 || toks[2].len() < 1 || toks[2][0] != 43 {
        return None;
    }
    let m_src: &Vec<u8> = &toks[1];
    let p_src: &Vec<u8> = &toks[2];
    let mut mtok: Vec<u8> = Vec::new();
    let mut q: usize = 1;
    while q < m_src.len()
        invariant
            1 <= q <= m_src@.len(),
            mtok@ == m_src@.subrange(1, q as int),
        decreases m_src@.len() - q,
    {
        mtok.push(m_src[q]);
        proof {
            assert(mtok@ =~= m_src@.subrange(1, q as int + 1));
        }
        q = q + 1;
    }
    let mut ptok: Vec<u8> = Vec::new();
    let mut w: usize = 1;
    while w < p_src.len()
        invariant
            1 <= w <= p_src@.len(),
            ptok@ == p_src@.subrange(1, w as int),
        decreases p_src@.len() - w,
    {
        ptok.push(p_src[w]);
        proof {
            assert(ptok@ =~= p_src@.subrange(1, w as int + 1));
        }
        w = w + 1;
    }
    proof {
        assert(mtok@ =~= toks@[1]@.skip(1));
        assert(ptok@ =~= toks@[2]@.skip(1));
    }
    let mr = parse_range(&mtok);
    let pr = parse_range(&ptok);
    match (mr, pr) {
        (Some(m), Some(p)) => Some(HunkHeader {
            minus_start: m.0, minus_count: m.1, plus_start: p.0, plus_count: p.1,
        }),
        _ => None,
    }
}

} // verus!
