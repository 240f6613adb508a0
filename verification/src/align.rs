//! Order-preserving pairing of the minus and plus lines of a change block.
//!
//! A global alignment over the two line runs is solved by dynamic
//! programming with three move costs: pairing two lines costs their
//! distance, skipping a line on either side costs the fixed gap.  A pair
//! whose distance is not strictly better than two independent gaps is
//! rejected, so lines more dissimilar than a pure delete plus insert are
//! left unpaired.

use vstd::prelude::*;
use crate::edit::TokenMode;
use crate::edit::char_tokens;
use crate::edit::lcs_len;
use crate::edit::lcs_at;
use crate::edit::token_views;
use crate::edit::tokenize;
use crate::edit::word_tokens;

verus! {

/// An association between one minus line and one plus line of a change
/// block; `distance` is their token distance in thousandths.
#[derive(Clone, Copy, Debug, PartialEq, Eq, Structural)]
pub struct LinePair {
    pub minus_index: usize,
    pub plus_index: usize,
    pub distance: usize,
}

/// Thresholds of the aligner, supplied by configuration.
#[derive(Clone, Copy, Debug, PartialEq, Eq, Structural)]
pub struct AlignConfig {
    /// Cost of leaving one line unpaired, in thousandths.
    pub gap_cost: usize,
    /// Blocks with more distance-matrix cells than this skip alignment
    /// entirely and report every line unpaired.
    pub max_cells: usize,
}

/// The tokens of a line at the chosen granularity.
pub open spec fn tokens_of(line: Seq<u8>, mode: TokenMode) -> Seq<Seq<u8>> {
    if mode is Word {
        word_tokens(line)
    } else {
        char_tokens(line)
    }
}

/// Normalized token distance of two token sequences, in thousandths:
/// 0 for identical sequences, 1000 for sequences with nothing in common.
pub open spec fn token_distance(a: Seq<Seq<u8>>, b: Seq<Seq<u8>>) -> int {
    let total = a.len() + b.len();
    if total == 0 {
        0
    } else {
        1000 * (total - 2 * lcs_len(a, b)) / (total as int)
    }
}

/// The distance matrix of a change block: one entry per minus/plus line
/// pair, at the chosen token granularity.
pub open spec fn block_distances(
    minus: Seq<Seq<u8>>, plus: Seq<Seq<u8>>, mode: TokenMode,
) -> Seq<Seq<int>> {
    Seq::new(minus.len(), |i: int|
        Seq::new(plus.len(), |j: int|
            token_distance(tokens_of(minus[i], mode), tokens_of(plus[j], mode))))
}

/// Every entry of the `m` by `n` matrix lies in `[0, 1000]`.
pub open spec fn matrix_ok(d: Seq<Seq<int>>, m: int, n: int) -> bool {
    d.len() == m
    && (forall|i: int| 0 <= i < m ==> (#[trigger] d[i]).len() == n)
    && (forall|i: int, j: int| 0 <= i < m && 0 <= j < n ==> 0 <= #[trigger] d[i][j] <= 1000)
}

/// Minimal total cost of aligning the first `i` minus lines with the
/// first `j` plus lines: a matched pair costs its distance, a skipped
/// line costs the gap `g`.
pub open spec fn align_cost(d: Seq<Seq<int>>, i: int, j: int, g: int) -> int
    decreases i + j,
    when i >= 0 && j >= 0
{
    if i <= 0 && j <= 0 {
        0
    } else if j <= 0 {
        align_cost(d, i - 1, 0, g) + g
    } else if i <= 0 {
        align_cost(d, 0, j - 1, g) + g
    } else {
        let mc = align_cost(d, i - 1, j - 1, g) + d[i - 1][j - 1];
        let uc = align_cost(d, i - 1, j, g) + g;
        let lc = align_cost(d, i, j - 1, g) + g;
        if mc <= uc && mc <= lc {
            mc
        } else if uc <= lc {
            uc
        } else {
            lc
        }
    }
}

/// Total distance of the pairs.
pub open spec fn pairs_cost(ps: Seq<LinePair>, d: Seq<Seq<int>>) -> int
    decreases ps.len(),
{
    if ps.len() == 0 {
        0
    } else {
        d[ps[0].minus_index as int][ps[0].plus_index as int] + pairs_cost(ps.skip(1), d)
    }
}

/// Pairs are strictly increasing in both coordinates: if `(i1, j1)` comes
/// before `(i2, j2)` then `i1 < i2` and `j1 < j2`, so pairs never cross
/// and a line appears in at most one pair.
pub open spec fn pairs_sorted(ps: Seq<LinePair>) -> bool {
    forall|x: int, y: int| #![trigger ps[x], ps[y]] 0 <= x < y < ps.len()
        ==> ps[x].minus_index < ps[y].minus_index && ps[x].plus_index < ps[y].plus_index
}

proof fn lemma_align_cost_bounds(d: Seq<Seq<int>>, m: int, n: int, i: int, j: int, g: int)
    requires
        matrix_ok(d, m, n),
        0 <= i <= m,
        0 <= j <= n,
        0 <= g <= 1000,
    ensures
        0 <= align_cost(d, i, j, g) <= 1000 * (i + j),
    decreases i + j,
{
    if i <= 0 && j <= 0 {
    } else if j <= 0 {
        lemma_align_cost_bounds(d, m, n, i - 1, 0, g);
    } else if i <= 0 {
        lemma_align_cost_bounds(d, m, n, 0, j - 1, g);
    } else {
        lemma_align_cost_bounds(d, m, n, i - 1, j - 1, g);
        lemma_align_cost_bounds(d, m, n, i - 1, j, g);
        lemma_align_cost_bounds(d, m, n, i, j - 1, g);
    }
}

proof fn lemma_mul_dist(g: int, a: int, b: int)
    by (nonlinear_arith)
    ensures
        g * (a + b) == g * a + g * b,
{
}

proof fn lemma_pairs_cost_prepend(p: LinePair, ps: Seq<LinePair>, d: Seq<Seq<int>>)
    ensures
        pairs_cost(seq![p] + ps, d)
            == d[p.minus_index as int][p.plus_index as int] + pairs_cost(ps, d),
{
    let s = seq![p] + ps;
    assert(s[0] == p);
    assert(s.skip(1) =~= ps);
}

/// Solves the global alignment over a distance matrix and returns the
/// accepted pairs, in increasing order of both indices.
///
/// The result is optimal: its total cost, counting the gap `g` for every
/// line left unpaired, equals the minimal alignment cost.  Every returned
/// pair is strictly better than two gaps.
pub fn align_pairs(d: &Vec<Vec<usize>>, m: usize, n: usize, g: usize) -> (r: Vec<LinePair>)
    requires
        m <= 4096,
        n <= 4096,
        g <= 1000,
        d@.len() == m,
        forall|i: int| 0 <= i < m ==> (#[trigger] d@[i])@.len() == n,
        forall|i: int, j: int| 0 <= i < m && 0 <= j < n ==> #[trigger] d@[i]@[j] <= 1000,
    ensures
        pairs_sorted(r@),
        forall|q: int| 0 <= q < r@.len() ==> (#[trigger] r@[q]).minus_index < m
            && r@[q].plus_index < n
            && r@[q].distance == d@[r@[q].minus_index as int]@[r@[q].plus_index as int]
            && r@[q].distance + 1 <= 2 * g,
        pairs_cost(r@, dview(d@))
            + (g as int) * ((m as int + n as int) - 2 * (r@.len() as int))
            == align_cost(dview(d@), m as int, n as int, g as int),
{
    let ghost dv = dview(d@);
    proof {
        assert(matrix_ok(dv, m as int, n as int)) by {
            assert forall|i: int| 0 <= i < m implies (#[trigger] dv[i]).len() == n by {
                assert(dv[i] == d@[i]@.map_values(|x: usize| x as int));
            }
            assert forall|i: int, j: int| 0 <= i < m && 0 <= j < n
                implies 0 <= #[trigger] dv[i][j] <= 1000 by {
                assert(dv[i] == d@[i]@.map_values(|x: usize| x as int));
                assert(dv[i][j] == d@[i]@[j] as int);
            }
        }
    }
    // Fill the cost table.
    let mut t: Vec<Vec<usize>> = Vec::new();
    let mut i: usize = 0;
    while i <= m
        invariant
            i <= m + 1,
            m <= 4096,
            n <= 4096,
            g <= 1000,
            dv == dview(d@),
            matrix_ok(dv, m as int, n as int),
            d@.len() == m,
            forall|p: int| 0 <= p < m ==> (#[trigger] d@[p])@.len() == n,
            t@.len() == i,
            forall|p: int| 0 <= p < i ==> (#[trigger] t@[p])@.len() == n + 1,
            forall|p: int, q: int| 0 <= p < i && 0 <= q <= n
                ==> #[trigger] t@[p]@[q] == align_cost(dv, p, q, g as int),
        decreases m + 1 - i,
    {
        let mut row: Vec<usize> = Vec::new();
        let mut j: usize = 0;
        while j <= n
            invariant
                j <= n + 1,
                i <= m,
                m <= 4096,
                n <= 4096,
                g <= 1000,
                dv == dview(d@),
                matrix_ok(dv, m as int, n as int),
                d@.len() == m,
                forall|p: int| 0 <= p < m ==> (#[trigger] d@[p])@.len() == n,
                t@.len() == i,
                forall|p: int| 0 <= p < i ==> (#[trigger] t@[p])@.len() == n + 1,
                forall|p: int, q: int| 0 <= p < i && 0 <= q <= n
                    ==> #[trigger] t@[p]@[q] == align_cost(dv, p, q, g as int),
                row@.len() == j,
                forall|q: int| 0 <= q < j ==> #[trigger] row@[q] == align_cost(dv, i as int, q, g as int),
            decreases n + 1 - j,
        {
            proof {
                lemma_align_cost_bounds(dv, m as int, n as int, i as int, j as int, g as int);
                if i > 0 {
                    lemma_align_cost_bounds(dv, m as int, n as int, i - 1, j as int, g as int);
                    if j > 0 {
                        lemma_align_cost_bounds(dv, m as int, n as int, i - 1, j - 1, g as int);
                    }
                }
                if j > 0 {
                    lemma_align_cost_bounds(dv, m as int, n as int, i as int, j - 1, g as int);
                }
            }
            let v: usize;
            if i == 0 && j == 0 {
                v = 0;
            } else if j == 0 {
                v = t[i - 1][0] + g;
            } else if i == 0 {
                v = row[j - 1] + g;
            } else {
                proof {
                    assert(dv[i - 1] == d@[i - 1]@.map_values(|x: usize| x as int));
                    assert(dv[i - 1][j - 1] == d@[i - 1]@[j - 1] as int);
                }
                let mc = t[i - 1][j - 1] + d[i - 1][j - 1];
                let uc = t[i - 1][j] + g;
                let lc = row[j - 1] + g;
                if mc <= uc && mc <= lc {
                    v = mc;
                } else if uc <= lc {
                    v = uc;
                } else {
                    v = lc;
                }
            }
            assert(v == align_cost(dv, i as int, j as int, g as int));
            row.push(v);
            j = j + 1;
        }
        t.push(row);
        i = i + 1;
    }
    // Walk the optimal path back from the far corner.
    let mut pi: usize = m;
    let mut pj: usize = n;
    let mut pairs: Vec<LinePair> = Vec::new();
    proof {
        assert(pairs_cost(pairs@, dv) == 0);
        assert((m as int - pi as int) + (n as int - pj as int)
            - 2 * (pairs@.len() as int) == 0);
        assert((g as int) * ((m as int - pi as int) + (n as int - pj as int)
            - 2 * (pairs@.len() as int)) == 0) by (nonlinear_arith)
            requires (m as int - pi as int) + (n as int - pj as int)
                - 2 * (pairs@.len() as int) == 0;
    }
    while pi > 0 || pj > 0
        invariant
            pi <= m,
            pj <= n,
            m <= 4096,
            n <= 4096,
            g <= 1000,
            dv == dview(d@),
            matrix_ok(dv, m as int, n as int),
            d@.len() == m,
            forall|p: int| 0 <= p < m ==> (#[trigger] d@[p])@.len() == n,
            t@.len() == m + 1,
            forall|p: int| 0 <= p < t@.len() ==> (#[trigger] t@[p])@.len() == n + 1,
            forall|p: int, q: int| 0 <= p <= m && 0 <= q <= n
                ==> #[trigger] t@[p]@[q] == align_cost(dv, p, q, g as int),
            pairs_sorted(pairs@),
            forall|q: int| 0 <= q < pairs@.len() ==> (#[trigger] pairs@[q]).minus_index < m
                && pairs@[q].plus_index < n
                && pairs@[q].minus_index >= pi
                && pairs@[q].plus_index >= pj
                && pairs@[q].distance
                    == d@[pairs@[q].minus_index as int]@[pairs@[q].plus_index as int]
                && pairs@[q].distance + 1 <= 2 * g,
            pairs_cost(pairs@, dv)
                + (g as int) * ((m as int - pi as int) + (n as int - pj as int)
                    - 2 * (pairs@.len() as int))
                == align_cost(dv, m as int, n as int, g as int)
                    - align_cost(dv, pi as int, pj as int, g as int),
        decreases pi + pj,
    {
        let ghost pre = pairs@;
        let ghost gap0: int = (m as int - pi as int) + (n as int - pj as int)
            - 2 * (pairs@.len() as int);
        proof {
            lemma_align_cost_bounds(dv, m as int, n as int, pi as int, pj as int, g as int);
            if pi > 0 {
                lemma_align_cost_bounds(dv, m as int, n as int, pi - 1, pj as int, g as int);
                if pj > 0 {
                    lemma_align_cost_bounds(dv, m as int, n as int, pi - 1, pj - 1, g as int);
                }
            }
            if pj > 0 {
                lemma_align_cost_bounds(dv, m as int, n as int, pi as int, pj - 1, g as int);
            }
            if pi > 0 && pj > 0 {
                assert(dv[pi - 1] == d@[pi - 1]@.map_values(|x: usize| x as int));
                assert(dv[pi - 1][pj - 1] == d@[pi - 1]@[pj - 1] as int);
            }
        }
        if pi > 0 && pj > 0 && t[pi][pj] == t[pi - 1][pj - 1] + d[pi - 1][pj - 1] {
            proof {
                assert(align_cost(dv, pi as int, pj as int, g as int)
                    == align_cost(dv, pi - 1, pj - 1, g as int) + dv[pi - 1][pj - 1]);
                // A chosen diagonal never costs more than two gaps.
                assert(align_cost(dv, pi as int, pj as int, g as int)
                    <= align_cost(dv, pi - 1, pj as int, g as int) + g);
                assert(align_cost(dv, pi - 1, pj as int, g as int)
                    <= align_cost(dv, pi - 1, pj - 1, g as int) + g);
            }
            let dist = d[pi - 1][pj - 1];
            if dist + 1 <= 2 * g {
                let p = LinePair {
                    minus_index: pi - 1, plus_index: pj - 1, distance: dist,
                };
                pairs.insert(0, p);
                proof {
                    assert(pairs@ =~= seq![p] + pre);
                    lemma_pairs_cost_prepend(p, pre, dv);
                    assert forall|x: int, y: int| #![trigger pairs@[x], pairs@[y]]
                        0 <= x < y < pairs@.len()
                        implies pairs@[x].minus_index < pairs@[y].minus_index
                            && pairs@[x].plus_index < pairs@[y].plus_index by {
                        if x == 0 {
                            assert(pairs@[y] == pre[y - 1]);
                        } else {
                            assert(pairs@[x] == pre[x - 1] && pairs@[y] == pre[y - 1]);
                        }
                    }
                }
            }
            pi = pi - 1;
            pj = pj - 1;
        } else if pi > 0 && (pj == 0 || t[pi][pj] == t[pi - 1][pj] + g) {
            proof {
                assert(align_cost(dv, pi as int, pj as int, g as int)
                    == align_cost(dv, pi - 1, pj as int, g as int) + g);
            }
            pi = pi - 1;
        } else {
            proof {
                assert(pj > 0);
                assert(align_cost(dv, pi as int, pj as int, g as int)
                    == align_cost(dv, pi as int, pj - 1, g as int) + g);
            }
            pj = pj - 1;
        }
        proof {
            lemma_mul_dist(g as int, gap0, 1);
            lemma_mul_dist(g as int, gap0, 2);
        }
    }
    pairs
}

/// The matrix's entries as mathematical integers.
pub open spec fn dview(d: Seq<Vec<usize>>) -> Seq<Seq<int>> {
    d.map_values(|row: Vec<usize>| row@.map_values(|x: usize| x as int))
}

/// Computes the normalized token distance of two token sequences.
pub fn line_distance(minus_tokens: &Vec<Vec<u8>>, plus_tokens: &Vec<Vec<u8>>) -> (r: usize)
    requires
        minus_tokens@.len() + plus_tokens@.len() <= 100000,
    ensures
        r == token_distance(token_views(minus_tokens@), token_views(plus_tokens@)),
        r <= 1000,
{
    let m = minus_tokens.len();
    let n = plus_tokens.len();
    if m == 0 && n == 0 {
        return 0;
    }
    let t = crate::edit::lcs_table(minus_tokens, plus_tokens);
    let l = t[m][n];
    proof {
        crate::edit::lemma_lcs_at_bounds(
            token_views(minus_tokens@), token_views(plus_tokens@), m as int, n as int,
        );
    }
    let total = m + n;
    let num = 1000 * (total - 2 * l);
    let r = num / total;
    proof {
        assert(num <= 1000 * total);
        assert(r <= 1000) by (nonlinear_arith)
            requires
                0 <= num <= 1000 * total,
                total >= 1,
                r == num / total;
    }
    r
}

/// Tokenizes every line of the run at the chosen granularity.
fn tokenize_lines(lines: &Vec<Vec<u8>>, mode: TokenMode) -> (ts: Vec<Vec<Vec<u8>>>)
    ensures
        ts@.len() == lines@.len(),
        forall|i: int| 0 <= i < lines@.len()
            ==> token_views((#[trigger] ts@[i])@) == tokens_of(lines@[i]@, mode),
{
    let mut ts: Vec<Vec<Vec<u8>>> = Vec::new();
    let mut i: usize = 0;
    while i < lines.len()
        invariant
            i <= lines@.len(),
            ts@.len() == i,
            forall|q: int| 0 <= q < i
                ==> token_views((#[trigger] ts@[q])@) == tokens_of(lines@[q]@, mode),
        decreases lines@.len() - i,
    {
        let toks = tokenize(&lines[i], mode);
        ts.push(toks);
        i = i + 1;
    }
    ts
}

/// Computes the distance matrix of a change block.
fn distance_matrix(
    minus_lines: &Vec<Vec<u8>>, plus_lines: &Vec<Vec<u8>>, mode: TokenMode,
) -> (d: Vec<Vec<usize>>)
    requires
        forall|i: int| 0 <= i < minus_lines@.len()
            ==> (#[trigger] minus_lines@[i])@.len() <= 50000,
        forall|j: int| 0 <= j < plus_lines@.len()
            ==> (#[trigger] plus_lines@[j])@.len() <= 50000,
    ensures
        d@.len() == minus_lines@.len(),
        forall|i: int| 0 <= i < d@.len() ==> (#[trigger] d@[i])@.len() == plus_lines@.len(),
        forall|i: int, j: int| 0 <= i < minus_lines@.len() && 0 <= j < plus_lines@.len()
            ==> #[trigger] d@[i]@[j] == token_distance(
                    tokens_of(minus_lines@[i]@, mode), tokens_of(plus_lines@[j]@, mode))
                && d@[i]@[j] <= 1000,
{
    let mt = tokenize_lines(minus_lines, mode);
    let pt = tokenize_lines(plus_lines, mode);
    let mut d: Vec<Vec<usize>> = Vec::new();
    let mut i: usize = 0;
    while i < mt.len()
        invariant
            mt@.len() == minus_lines@.len(),
            pt@.len() == plus_lines@.len(),
            i <= mt@.len(),
            forall|q: int| 0 <= q < mt@.len()
                ==> token_views((#[trigger] mt@[q])@) == tokens_of(minus_lines@[q]@, mode),
            forall|q: int| 0 <= q < pt@.len()
                ==> token_views((#[trigger] pt@[q])@) == tokens_of(plus_lines@[q]@, mode),
            forall|q: int| 0 <= q < minus_lines@.len()
                ==> (#[trigger] minus_lines@[q])@.len() <= 50000,
            forall|q: int| 0 <= q < plus_lines@.len()
                ==> (#[trigger] plus_lines@[q])@.len() <= 50000,
            d@.len() == i,
            forall|q: int| 0 <= q < i ==> (#[trigger] d@[q])@.len() == plus_lines@.len(),
            forall|q: int, w: int| 0 <= q < i && 0 <= w < plus_lines@.len()
                ==> #[trigger] d@[q]@[w] == token_distance(
                        tokens_of(minus_lines@[q]@, mode), tokens_of(plus_lines@[w]@, mode))
                    && d@[q]@[w] <= 1000,
        decreases mt@.len() - i,
    {
        let mut row: Vec<usize> = Vec::new();
        let mut j: usize = 0;
        while j < pt.len()
            invariant
                mt@.len() == minus_lines@.len(),
                pt@.len() == plus_lines@.len(),
                i < mt@.len(),
                j <= pt@.len(),
                forall|q: int| 0 <= q < mt@.len()
                    ==> token_views((#[trigger] mt@[q])@) == tokens_of(minus_lines@[q]@, mode),
                forall|q: int| 0 <= q < pt@.len()
                    ==> token_views((#[trigger] pt@[q])@) == tokens_of(plus_lines@[q]@, mode),
                forall|q: int| 0 <= q < minus_lines@.len()
                    ==> (#[trigger] minus_lines@[q])@.len() <= 50000,
                forall|q: int| 0 <= q < plus_lines@.len()
                    ==> (#[trigger] plus_lines@[q])@.len() <= 50000,
                row@.len() == j,
                forall|w: int| 0 <= w < j
                    ==> #[trigger] row@[w] == token_distance(
                            tokens_of(minus_lines@[i as int]@, mode),
                            tokens_of(plus_lines@[w]@, mode))
                        && row@[w] <= 1000,
            decreases pt@.len() - j,
        {
            proof {
                crate::edit::lemma_tokens_count(minus_lines@[i as int]@, mode);
                crate::edit::lemma_tokens_count(plus_lines@[j as int]@, mode);
                assert(mt@[i as int]@.len() == tokens_of(minus_lines@[i as int]@, mode).len());
                assert(pt@[j as int]@.len() == tokens_of(plus_lines@[j as int]@, mode).len());
            }
            let dist = line_distance(&mt[i], &pt[j]);
            row.push(dist);
            j = j + 1;
        }
        d.push(row);
        i = i + 1;
    }
    d
}

/// Some pair claims the minus line `idx`.
pub open spec fn uses_minus(ps: Seq<LinePair>, idx: int) -> bool {
    exists|q: int| 0 <= q < ps.len() && (#[trigger] ps[q]).minus_index == idx
}

/// Some pair claims the plus line `idx`.
pub open spec fn uses_plus(ps: Seq<LinePair>, idx: int) -> bool {
    exists|q: int| 0 <= q < ps.len() && (#[trigger] ps[q]).plus_index == idx
}

fn minus_used(pairs: &Vec<LinePair>, idx: usize) -> (r: bool)
    ensures
        r == uses_minus(pairs@, idx as int),
{
    let mut k: usize = 0;
    while k < pairs.len()
        invariant
            k <= pairs@.len(),
            forall|q: int| 0 <= q < k ==> (#[trigger] pairs@[q]).minus_index != idx,
        decreases pairs@.len() - k,
    {
        if pairs[k].minus_index == idx {
            return true;
        }
        k = k + 1;
    }
    false
}

fn plus_used(pairs: &Vec<LinePair>, idx: usize) -> (r: bool)
    ensures
        r == uses_plus(pairs@, idx as int),
{
    let mut k: usize = 0;
    while k < pairs.len()
        invariant
            k <= pairs@.len(),
            forall|q: int| 0 <= q < k ==> (#[trigger] pairs@[q]).plus_index != idx,
        decreases pairs@.len() - k,
    {
        if pairs[k].plus_index == idx {
            return true;
        }
        k = k + 1;
    }
    false
}

/// The indices below `count`, in increasing order, that `ps` leaves
/// unpaired on the chosen side.
pub open spec fn complement_ok(
    out: Seq<usize>, ps: Seq<LinePair>, count: int, minus_side: bool,
) -> bool {
    (forall|v: int| 0 <= v < out.len() ==> (#[trigger] out[v]) < count
        && (if minus_side { !uses_minus(ps, out[v] as int) } else { !uses_plus(ps, out[v] as int) }))
    && (forall|v1: int, v2: int| #![trigger out[v1], out[v2]] 0 <= v1 < v2 < out.len()
        ==> out[v1] < out[v2])
    && (forall|x: int| 0 <= x < count
        && (if minus_side { !uses_minus(ps, x) } else { !uses_plus(ps, x) })
        ==> out.contains(x as usize))
}

fn unpaired_minus_of(pairs: &Vec<LinePair>, count: usize) -> (out: Vec<usize>)
    ensures
        complement_ok(out@, pairs@, count as int, true),
{
    let mut out: Vec<usize> = Vec::new();
    let mut idx: usize = 0;
    while idx < count
        invariant
            idx <= count,
            forall|v: int| 0 <= v < out@.len() ==> (#[trigger] out@[v]) < idx
                && !uses_minus(pairs@, out@[v] as int),
            forall|v1: int, v2: int| #![trigger out@[v1], out@[v2]] 0 <= v1 < v2 < out@.len()
                ==> out@[v1] < out@[v2],
            forall|x: int| 0 <= x < idx && !uses_minus(pairs@, x) ==> out@.contains(x as usize),
        decreases count - idx,
    {
        let ghost pre = out@;
        if !minus_used(pairs, idx) {
            out.push(idx);
            proof {
                assert(out@[out@.len() - 1] == idx);
                assert forall|x: int| 0 <= x < idx + 1 && !uses_minus(pairs@, x)
                    implies out@.contains(x as usize) by {
                    if x < idx {
                        let v = choose|v: int| 0 <= v < pre.len() && pre[v] == x as usize;
                        assert(out@[v] == x as usize);
                    } else {
                        assert(out@[out@.len() - 1] == x as usize);
                    }
                }
            }
        } else {
            proof {
                assert forall|x: int| 0 <= x < idx + 1 && !uses_minus(pairs@, x)
                    implies out@.contains(x as usize) by {
                    assert(x < idx);
                }
            }
        }
        idx = idx + 1;
    }
    out
}

fn unpaired_plus_of(pairs: &Vec<LinePair>, count: usize) -> (out: Vec<usize>)
    ensures
        complement_ok(out@, pairs@, count as int, false),
{
    let mut out: Vec<usize> = Vec::new();
    let mut idx: usize = 0;
    while idx < count
        invariant
            idx <= count,
            forall|v: int| 0 <= v < out@.len() ==> (#[trigger] out@[v]) < idx
                && !uses_plus(pairs@, out@[v] as int),
            forall|v1: int, v2: int| #![trigger out@[v1], out@[v2]] 0 <= v1 < v2 < out@.len()
                ==> out@[v1] < out@[v2],
            forall|x: int| 0 <= x < idx && !uses_plus(pairs@, x) ==> out@.contains(x as usize),
        decreases count - idx,
    {
        let ghost pre = out@;
        if !plus_used(pairs, idx) {
            out.push(idx);
            proof {
                assert(out@[out@.len() - 1] == idx);
                assert forall|x: int| 0 <= x < idx + 1 && !uses_plus(pairs@, x)
                    implies out@.contains(x as usize) by {
                    if x < idx {
                        let v = choose|v: int| 0 <= v < pre.len() && pre[v] == x as usize;
                        assert(out@[v] == x as usize);
                    } else {
                        assert(out@[out@.len() - 1] == x as usize);
                    }
                }
            }
        } else {
            proof {
                assert forall|x: int| 0 <= x < idx + 1 && !uses_plus(pairs@, x)
                    implies out@.contains(x as usize) by {
                    assert(x < idx);
                }
            }
        }
        idx = idx + 1;
    }
    out
}

/// The pairing of one change block: the accepted pairs, in order, and the
/// minus and plus lines left unpaired, each in increasing order.
#[derive(Clone, Debug)]
pub struct BlockPairing {
    pub pairs: Vec<LinePair>,
    pub unpaired_minus: Vec<usize>,
    pub unpaired_plus: Vec<usize>,
}

/// Pairs the minus lines of a change block with its plus lines.
///
/// When the block is within the configured size ceiling, the returned
/// pairing is an optimal non-crossing alignment under the configured gap
/// cost, and every accepted pair is strictly more similar than a pure
/// delete plus insert.  A block over the ceiling degrades to "all lines
/// unpaired".  Either way, the unpaired indices are exactly the lines
/// that no pair claims.
pub fn pair_lines(
    minus_lines: &Vec<Vec<u8>>, plus_lines: &Vec<Vec<u8>>, mode: TokenMode, cfg: AlignConfig,
) -> (r: BlockPairing)
    requires
        minus_lines@.len() <= 4096,
        plus_lines@.len() <= 4096,
        cfg.gap_cost <= 1000,
        forall|i: int| 0 <= i < minus_lines@.len()
            ==> (#[trigger] minus_lines@[i])@.len() <= 50000,
        forall|j: int| 0 <= j < plus_lines@.len()
            ==> (#[trigger] plus_lines@[j])@.len() <= 50000,
    ensures
        pairs_sorted(r.pairs@),
        minus_lines@.len() * plus_lines@.len() > cfg.max_cells ==> r.pairs@.len() == 0,
        forall|q: int| 0 <= q < r.pairs@.len()
            ==> (#[trigger] r.pairs@[q]).minus_index < minus_lines@.len()
                && r.pairs@[q].plus_index < plus_lines@.len()
                && r.pairs@[q].distance == token_distance(
                    tokens_of(minus_lines@[r.pairs@[q].minus_index as int]@, mode),
                    tokens_of(plus_lines@[r.pairs@[q].plus_index as int]@, mode))
                && r.pairs@[q].distance + 1 <= 2 * cfg.gap_cost,
        minus_lines@.len() * plus_lines@.len() <= cfg.max_cells
            ==> pairs_cost(r.pairs@, block_distances(
                    minus_lines@.map_values(|l: Vec<u8>| l@),
                    plus_lines@.map_values(|l: Vec<u8>| l@), mode))
                + (cfg.gap_cost as int) * ((minus_lines@.len() + plus_lines@.len())
                    - 2 * (r.pairs@.len() as int))
                == align_cost(block_distances(
                    minus_lines@.map_values(|l: Vec<u8>| l@),
                    plus_lines@.map_values(|l: Vec<u8>| l@), mode),
                    minus_lines@.len() as int, plus_lines@.len() as int, cfg.gap_cost as int),
        complement_ok(r.unpaired_minus@, r.pairs@, minus_lines@.len() as int, true),
        complement_ok(r.unpaired_plus@, r.pairs@, plus_lines@.len() as int, false),
{
    let m = minus_lines.len();
    let n = plus_lines.len();
    proof {
        assert(m * n <= 4096 * 4096) by (nonlinear_arith)
            requires m <= 4096, n <= 4096;
    }
    let pairs: Vec<LinePair>;
    if m * n > cfg.max_cells {
        pairs = Vec::new();
    } else {
        let d = distance_matrix(minus_lines, plus_lines, mode);
        let got = align_pairs(&d, m, n, cfg.gap_cost);
        proof {
            let mv = minus_lines@.map_values(|l: Vec<u8>| l@);
            let pv = plus_lines@.map_values(|l: Vec<u8>| l@);
            let bd = block_distances(mv, pv, mode);
            assert forall|i: int| 0 <= i < m implies #[trigger] dview(d@)[i] =~= bd[i] by {
                assert(dview(d@)[i] == d@[i]@.map_values(|x: usize| x as int));
                assert forall|j: int| 0 <= j < n
                    implies #[trigger] dview(d@)[i][j] == bd[i][j] by {
                    assert(dview(d@)[i][j] == d@[i]@[j] as int);
                    assert(mv[i] == minus_lines@[i]@ && pv[j] == plus_lines@[j]@);
                }
            }
            assert(dview(d@) =~~= bd);
        }
        pairs = got;
    }
    let unpaired_minus = unpaired_minus_of(&pairs, m);
    let unpaired_plus = unpaired_plus_of(&pairs, n);
    BlockPairing { pairs, unpaired_minus, unpaired_plus }
}

} // verus!
