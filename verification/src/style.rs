//! Styles, the style-specification mini-language, and layered merging.
//!
//! A style specification is a sequence of whitespace-separated tokens; a
//! token is either a recognized attribute keyword or a `fg:`/`bg:` pair
//! selecting a color.  Later tokens override earlier ones for the same
//! field.  Resolution is layered: a base style overridden field by field
//! by a feature style, overridden again by a theme style; fields left
//! unspecified never overwrite.

use vstd::prelude::*;

verus! {

/// The recoverable failure of parsing a malformed style specification.
///
/// The caller downgrades it to a default style plus a warning; the
/// pipeline never aborts because of a cosmetic misconfiguration.
#[derive(Clone, Copy, Debug, PartialEq, Eq, Structural)]
pub enum StyleParseError {
    /// A token of the specification is not a recognized attribute
    /// keyword, color role, or color value.
    UnrecognizedToken,
}

/// One color field of a style.  `Missing` is "not specified" (inherits on
/// merge); `Cleared` is explicitly unset; `Auto` is the terminal default.
#[derive(Clone, Copy, Debug, PartialEq, Eq, Structural)]
pub enum ColorSpec {
    Missing,
    Cleared,
    Auto,
    Indexed { index: u8 },
    Rgb { red: u8, green: u8, blue: u8 },
}

/// The attribute flags of a style; an unset flag inherits on merge.
#[derive(Clone, Copy, Debug, PartialEq, Eq, Structural, Default)]
pub struct AttrFlags {
    pub bold: bool,
    pub dim: bool,
    pub italic: bool,
    pub underline: bool,
    pub blink: bool,
    pub reverse: bool,
    pub strikethrough: bool,
}

/// A resolved style: two color fields and a set of attributes.
#[derive(Clone, Copy, Debug, PartialEq, Eq, Structural)]
pub struct Style {
    pub foreground: ColorSpec,
    pub background: ColorSpec,
    pub attrs: AttrFlags,
}

/// The style that specifies nothing.
pub open spec fn default_style() -> Style {
    Style {
        foreground: ColorSpec::Missing,
        background: ColorSpec::Missing,
        attrs: AttrFlags {
            bold: false, dim: false, italic: false, underline: false,
            blink: false, reverse: false, strikethrough: false,
        },
    }
}

/// Returns the style that specifies nothing.
pub fn style_default() -> (s: Style)
    ensures
        s == default_style(),
{
    Style {
        foreground: ColorSpec::Missing,
        background: ColorSpec::Missing,
        attrs: AttrFlags {
            bold: false, dim: false, italic: false, underline: false,
            blink: false, reverse: false, strikethrough: false,
        },
    }
}

/// Field merge: the overriding field wins unless it is unspecified.
pub open spec fn merge_color(base: ColorSpec, over: ColorSpec) -> ColorSpec {
    if over is Missing {
        base
    } else {
        over
    }
}

/// Attribute merge: a flag is set if either layer sets it.
pub open spec fn merge_attrs(base: AttrFlags, over: AttrFlags) -> AttrFlags {
    AttrFlags {
        bold: base.bold || over.bold,
        dim: base.dim || over.dim,
        italic: base.italic || over.italic,
        underline: base.underline || over.underline,
        blink: base.blink || over.blink,
        reverse: base.reverse || over.reverse,
        strikethrough: base.strikethrough || over.strikethrough,
    }
}

/// Style merge: last writer wins per field, only for fields the
/// overriding style explicitly sets.
pub open spec fn merge_styles(base: Style, over: Style) -> Style {
    Style {
        foreground: merge_color(base.foreground, over.foreground),
        background: merge_color(base.background, over.background),
        attrs: merge_attrs(base.attrs, over.attrs),
    }
}

/// Merges an overriding style onto a base style.
pub fn merge_style(base: Style, over: Style) -> (r: Style)
    ensures
        r == merge_styles(base, over),
{
    Style {
        foreground: if matches!(over.foreground, ColorSpec::Missing) {
            base.foreground
        } else {
            over.foreground
        },
        background: if matches!(over.background, ColorSpec::Missing) {
            base.background
        } else {
            over.background
        },
        attrs: AttrFlags {
            bold: base.attrs.bold || over.attrs.bold,
            dim: base.attrs.dim || over.attrs.dim,
            italic: base.attrs.italic || over.attrs.italic,
            underline: base.attrs.underline || over.attrs.underline,
            blink: base.attrs.blink || over.attrs.blink,
            reverse: base.attrs.reverse || over.attrs.reverse,
            strikethrough: base.attrs.strikethrough || over.attrs.strikethrough,
        },
    }
}

/// Resolves the three configuration layers: base, then the feature's
/// style, then the active theme's style.
pub fn resolve_style(base: Style, feature: Style, theme: Style) -> (r: Style)
    ensures
        r == merge_styles(merge_styles(base, feature), theme),
{
    let lower = merge_style(base, feature);
    merge_style(lower, theme)
}

/// The byte is an ASCII space or tab.
pub open spec fn is_space(b: u8) -> bool {
    b == 32 || b == 9
}

/// Length of the leading run whose space-ness is `spaces`.
pub open spec fn ws_run(s: Seq<u8>, spaces: bool) -> nat
    decreases s.len(),
{
    if s.len() == 0 || is_space(s[0]) != spaces {
        0
    } else {
        1 + ws_run(s.skip(1), spaces)
    }
}

/// The whitespace-separated tokens of the specification, in order.
pub open spec fn split_ws(s: Seq<u8>) -> Seq<Seq<u8>>
    decreases s.len(),
{
    if s.len() == 0 {
        Seq::empty()
    } else if is_space(s[0]) {
        let r = ws_run(s, true) as int;
        let l = if 1 <= r <= s.len() { r } else { 1 };
        split_ws(s.skip(l))
    } else {
        let r = ws_run(s, false) as int;
        let l = if 1 <= r <= s.len() { r } else { 1 };
        seq![s.take(l)] + split_ws(s.skip(l))
    }
}

pub open spec fn is_digit(b: u8) -> bool {
    48 <= b && b <= 57
}

pub open spec fn is_hex_digit(b: u8) -> bool {
    is_digit(b) || (97 <= b && b <= 102) || (65 <= b && b <= 70)
}

pub open spec fn hex_val(b: u8) -> int {
    if is_digit(b) { b - 48 } else if 97 <= b && b <= 102 { b - 87 } else { b - 55 }
}

/// The value of a decimal token of one to three digits.
pub open spec fn dec_val(t: Seq<u8>) -> int
    decreases t.len(),
{
    if t.len() == 0 {
        0
    } else {
        dec_val(t.drop_last()) * 10 + (t.last() - 48)
    }
}

pub open spec fn all_digits(t: Seq<u8>) -> bool {
    forall|i: int| 0 <= i < t.len() ==> is_digit(#[trigger] t[i])
}

/// The color a value token denotes, if it is recognized: `auto`, `none`,
/// a name, an ANSI 256 index of one to three digits, or `#RRGGBB`.
pub open spec fn color_of(t: Seq<u8>) -> Option<ColorSpec> {
    if t == seq![97u8, 117u8, 116u8, 111u8] {
        Some(ColorSpec::Auto)
    } else if t == seq![110u8, 111u8, 110u8, 101u8] {
        Some(ColorSpec::Cleared)
    } else if t.len() == 7 && t[0] == 35u8
        && (forall|i: int| 1 <= i < 7 ==> is_hex_digit(#[trigger] t[i])) {
        Some(ColorSpec::Rgb {
            red: (hex_val(t[1]) * 16 + hex_val(t[2])) as u8,
            green: (hex_val(t[3]) * 16 + hex_val(t[4])) as u8,
            blue: (hex_val(t[5]) * 16 + hex_val(t[6])) as u8,
        })
    } else if 1 <= t.len() <= 3 && all_digits(t) && dec_val(t) <= 255 {
        Some(ColorSpec::Indexed { index: dec_val(t) as u8 })
    } else if let Some(i) = named_color(t) {
        Some(ColorSpec::Indexed { index: i })
    } else {
        None
    }
}

/// The ANSI index of a named color.
pub open spec fn named_color(t: Seq<u8>) -> Option<u8> {
    if t == seq![98u8, 108u8, 97u8, 99u8, 107u8] { Some(0u8) }
    else if t == seq![114u8, 101u8, 100u8] { Some(1u8) }
    else if t == seq![103u8, 114u8, 101u8, 101u8, 110u8] { Some(2u8) }
    else if t == seq![121u8, 101u8, 108u8, 108u8, 111u8, 119u8] { Some(3u8) }
    else if t == seq![98u8, 108u8, 117u8, 101u8] { Some(4u8) }
    else if t == seq![109u8, 97u8, 103u8, 101u8, 110u8, 116u8, 97u8] { Some(5u8) }
    else if t == seq![99u8, 121u8, 97u8, 110u8] { Some(6u8) }
    else if t == seq![119u8, 104u8, 105u8, 116u8, 101u8] { Some(7u8) }
    else { None }
}

/// The effect of one token on a style, or `None` if it is unrecognized.
pub open spec fn apply_token(st: Style, tok: Seq<u8>) -> Option<Style> {
    if tok == seq![98u8, 111u8, 108u8, 100u8] {
        Some(Style { attrs: AttrFlags { bold: true, ..st.attrs }, ..st })
    } else if tok == seq![100u8, 105u8, 109u8] {
        Some(Style { attrs: AttrFlags { dim: true, ..st.attrs }, ..st })
    } else if tok == seq![105u8, 116u8, 97u8, 108u8, 105u8, 99u8] {
        Some(Style { attrs: AttrFlags { italic: true, ..st.attrs }, ..st })
    } else if tok == seq![117u8, 110u8, 100u8, 101u8, 114u8, 108u8, 105u8, 110u8, 101u8] {
        Some(Style { attrs: AttrFlags { underline: true, ..st.attrs }, ..st })
    } else if tok == seq![98u8, 108u8, 105u8, 110u8, 107u8] {
        Some(Style { attrs: AttrFlags { blink: true, ..st.attrs }, ..st })
    } else if tok == seq![114u8, 101u8, 118u8, 101u8, 114u8, 115u8, 101u8] {
        Some(Style { attrs: AttrFlags { reverse: true, ..st.attrs }, ..st })
    } else if tok == seq![115u8, 116u8, 114u8, 105u8, 107u8, 101u8] {
        Some(Style { attrs: AttrFlags { strikethrough: true, ..st.attrs }, ..st })
    } else if tok.len() >= 3 && tok.take(3) == seq![102u8, 103u8, 58u8] {
        match color_of(tok.skip(3)) {
            Some(c) => Some(Style { foreground: c, ..st }),
            None => None,
        }
    } else if tok.len() >= 3 && tok.take(3) == seq![98u8, 103u8, 58u8] {
        match color_of(tok.skip(3)) {
            Some(c) => Some(Style { background: c, ..st }),
            None => None,
        }
    } else {
        None
    }
}

/// The effect of a token list, left to right; `None` as soon as one
/// token is unrecognized.
pub open spec fn apply_tokens(st: Style, toks: Seq<Seq<u8>>) -> Option<Style>
    decreases toks.len(),
{
    if toks.len() == 0 {
        Some(st)
    } else {
        match apply_token(st, toks[0]) {
            Some(st2) => apply_tokens(st2, toks.skip(1)),
            None => None,
        }
    }
}

/// The style a specification denotes, starting from the style that
/// specifies nothing, or `None` if some token is unrecognized.
pub open spec fn style_of_spec(s: Seq<u8>) -> Option<Style> {
    apply_tokens(default_style(), split_ws(s))
}

/// The run of bytes from `from` to `to` is maximal for space-ness `cls`.
proof fn lemma_ws_run_value(s: Seq<u8>, from: int, to: int, cls: bool)
    requires
        0 <= from < to <= s.len(),
        forall|q: int| from <= q < to ==> is_space(#[trigger] s[q]) == cls,
        to < s.len() ==> is_space(s[to]) != cls,
    ensures
        ws_run(s.skip(from), cls) == to - from,
    decreases to - from,
{
    let rest = s.skip(from);
    assert(rest[0] == s[from]);
    if from + 1 < to {
        lemma_ws_run_value(s, from + 1, to, cls);
        assert(rest.skip(1) =~= s.skip(from + 1));
    } else {
        assert(rest.skip(1) =~= s.skip(from + 1));
        if to < s.len() {
            assert(s.skip(from + 1)[0] == s[to]);
            assert(ws_run(s.skip(from + 1), cls) == 0);
        } else {
            assert(s.skip(from + 1).len() == 0);
            assert(ws_run(s.skip(from + 1), cls) == 0);
        }
    }
}

fn byte_is_space(b: u8) -> (r: bool)
    ensures
        r == is_space(b),
{
    b == 32 || b == 9
}

/// Splits a byte line at whitespace into its tokens.
pub(crate) fn split_tokens(s: &Vec<u8>) -> (toks: Vec<Vec<u8>>)
    ensures
        toks@.map_values(|t: Vec<u8>| t@) == split_ws(s@),
{
    let mut toks: Vec<Vec<u8>> = Vec::new();
    let mut pos: usize = 0;
    proof {
        assert(s@.skip(0) =~= s@);
        assert(toks@.map_values(|t: Vec<u8>| t@) =~= Seq::<Seq<u8>>::empty());
    }
    while pos < s.len()
        invariant
            pos <= s@.len(),
            split_ws(s@) == toks@.map_values(|t: Vec<u8>| t@) + split_ws(s@.skip(pos as int)),
        decreases s@.len() - pos,
    {
        let ghost rest = s@.skip(pos as int);
        let cls = byte_is_space(s[pos]);
        let start = pos;
        let mut end = pos + 1;
        while end < s.len() && byte_is_space(s[end]) == cls
            invariant
                pos < end <= s@.len(),
                pos < s@.len(),
                cls == is_space(s@[pos as int]),
                forall|q: int| pos <= q < end ==> is_space(#[trigger] s@[q]) == cls,
            decreases s@.len() - end,
        {
            end = end + 1;
        }
        let len = end - start;
        proof {
            lemma_ws_run_value(s@, pos as int, (pos + len) as int, cls);
            assert(ws_run(rest, cls) == len);
        }
        if cls {
            pos = end;
            proof {
                assert(s@.skip(pos as int) =~= rest.skip(len as int));
            }
        } else {
            let mut token: Vec<u8> = Vec::new();
            let mut q: usize = start;
            while q < end
                invariant
                    start <= q <= end,
                    end <= s@.len(),
                    token@ == s@.subrange(start as int, q as int),
                decreases end - q,
            {
                token.push(s[q]);
                proof {
                    assert(token@ =~= s@.subrange(start as int, q as int + 1));
                }
                q = q + 1;
            }
            let ghost pre = toks@;
            toks.push(token);
            pos = end;
            proof {
                assert(token@ =~= rest.take(len as int));
                assert(s@.skip(pos as int) =~= rest.skip(len as int));
                let tail = split_ws(s@.skip(pos as int));
                assert(toks@.map_values(|t: Vec<u8>| t@)
                    =~= pre.map_values(|t: Vec<u8>| t@).push(token@));
                assert(pre.map_values(|t: Vec<u8>| t@).push(token@) + tail
                    =~= pre.map_values(|t: Vec<u8>| t@) + (seq![token@] + tail));
            }
        }
    }
    proof {
        assert(s@.skip(pos as int).len() == 0);
        assert(split_ws(s@.skip(pos as int)) =~= Seq::<Seq<u8>>::empty());
        assert(toks@.map_values(|t: Vec<u8>| t@) + Seq::<Seq<u8>>::empty()
            =~= toks@.map_values(|t: Vec<u8>| t@));
    }
    toks
}

/// The color a value token denotes, if any.
fn color_value(t: &Vec<u8>) -> (r: Option<ColorSpec>)
    ensures
        r == color_of(t@),
{
    if t.len() == 4 && t[0] == 97u8 && t[1] == 117u8 && t[2] == 116u8 && t[3] == 111u8 {
        proof { assert(t@ =~= seq![97u8, 117u8, 116u8, 111u8]); }
        return Some(ColorSpec::Auto);
    }
    if t.len() == 4 && t[0] == 110u8 && t[1] == 111u8 && t[2] == 110u8 && t[3] == 101u8 {
        proof { assert(t@ =~= seq![110u8, 111u8, 110u8, 101u8]); }
        return Some(ColorSpec::Cleared);
    }
    if t.len() == 7 && t[0] == 35u8 {
        let mut ok = true;
        let mut i: usize = 1;
        while i < 7
            invariant
                1 <= i <= 7,
                t@.len() == 7,
                ok == (forall|q: int| 1 <= q < i ==> is_hex_digit(#[trigger] t@[q])),
            decreases 7 - i,
        {
            let b = t[i];
            let h = is_digit_exec(b) || (97 <= b && b <= 102) || (65 <= b && b <= 70);
            ok = ok && h;
            i = i + 1;
        }
        if ok {
            let red = hex_pair(t[1], t[2]);
            let green = hex_pair(t[3], t[4]);
            let blue = hex_pair(t[5], t[6]);
            return Some(ColorSpec::Rgb { red, green, blue });
        } else {
            return None;
        }
    }
    if t.len() >= 1 && t.len() <= 3 {
        let mut digits = true;
        let mut i: usize = 0;
        while i < t.len()
            invariant
                i <= t@.len(),
                digits == (forall|q: int| 0 <= q < i ==> is_digit(#[trigger] t@[q])),
            decreases t@.len() - i,
        {
            digits = digits && is_digit_exec(t[i]);
            i = i + 1;
        }
        if digits {
            let mut value: usize = 0;
            if t.len() == 1 {
                value = (t[0] - 48) as usize;
                proof {
                    assert(t@.drop_last() =~= Seq::<u8>::empty());
                    assert(dec_val(t@.drop_last()) == 0);
                    assert(t@.last() == t@[0]);
                }
            } else if t.len() == 2 {
                value = (t[0] - 48) as usize * 10 + (t[1] - 48) as usize;
                proof {
                    let p = t@.drop_last();
                    assert(p.drop_last() =~= Seq::<u8>::empty());
                    assert(dec_val(p.drop_last()) == 0);
                    assert(p.last() == t@[0]);
                    assert(dec_val(p) == t@[0] - 48);
                    assert(t@.last() == t@[1]);
                }
            } else {
                value = (t[0] - 48) as usize * 100 + (t[1] - 48) as usize * 10
                    + (t[2] - 48) as usize;
                proof {
                    let p = t@.drop_last();
                    let pp = p.drop_last();
                    assert(pp.drop_last() =~= Seq::<u8>::empty());
                    assert(dec_val(pp.drop_last()) == 0);
                    assert(pp.last() == t@[0]);
                    assert(dec_val(pp) == t@[0] - 48);
                    assert(p.last() == t@[1]);
                    assert(dec_val(p) == dec_val(pp) * 10 + (t@[1] - 48));
                    assert(t@.last() == t@[2]);
                }
            }
            assert(value == dec_val(t@));
            if value <= 255 {
                return Some(ColorSpec::Indexed { index: value as u8 });
            } else {
                return None;
            }
        }
    }
    let named: Option<u8> = named_value(t);
    match named {
        Some(i) => Some(ColorSpec::Indexed { index: i }),
        None => None,
    }
}

fn is_digit_exec(b: u8) -> (r: bool)
    ensures
        r == is_digit(b),
{
    48 <= b && b <= 57
}

fn hex_pair(hi: u8, lo: u8) -> (r: u8)
    requires
        is_hex_digit(hi),
        is_hex_digit(lo),
    ensures
        r == hex_val(hi) * 16 + hex_val(lo),
{
    let h: u8 = if 48 <= hi && hi <= 57 { hi - 48 } else if 97 <= hi { hi - 87 } else { hi - 55 };
    let l: u8 = if 48 <= lo && lo <= 57 { lo - 48 } else if 97 <= lo { lo - 87 } else { lo - 55 };
    h * 16 + l
}

fn named_value(t: &Vec<u8>) -> (r: Option<u8>)
    ensures
        r == named_color(t@),
{
    if t.len() == 5 && t[0] == 98u8 && t[1] == 108u8 && t[2] == 97u8 && t[3] == 99u8 && t[4] == 107u8 {
        proof { assert(t@ =~= seq![98u8, 108u8, 97u8, 99u8, 107u8]); }
        return Some(0);
    }
    if t.len() == 3 && t[0] == 114u8 && t[1] == 101u8 && t[2] == 100u8 {
        proof { assert(t@ =~= seq![114u8, 101u8, 100u8]); }
        return Some(1);
    }
    if t.len() == 5 && t[0] == 103u8 && t[1] == 114u8 && t[2] == 101u8 && t[3] == 101u8 && t[4] == 110u8 {
        proof { assert(t@ =~= seq![103u8, 114u8, 101u8, 101u8, 110u8]); }
        return Some(2);
    }
    if t.len() == 6 && t[0] == 121u8 && t[1] == 101u8 && t[2] == 108u8 && t[3] == 108u8 && t[4] == 111u8
        && t[5] == 119u8 {
        proof { assert(t@ =~= seq![121u8, 101u8, 108u8, 108u8, 111u8, 119u8]); }
        return Some(3);
    }
    if t.len() == 4 && t[0] == 98u8 && t[1] == 108u8 && t[2] == 117u8 && t[3] == 101u8 {
        proof { assert(t@ =~= seq![98u8, 108u8, 117u8, 101u8]); }
        return Some(4);
    }
    if t.len() == 7 && t[0] == 109u8 && t[1] == 97u8 && t[2] == 103u8 && t[3] == 101u8 && t[4] == 110u8
        && t[5] == 116u8 && t[6] == 97u8 {
        proof { assert(t@ =~= seq![109u8, 97u8, 103u8, 101u8, 110u8, 116u8, 97u8]); }
        return Some(5);
    }
    if t.len() == 4 && t[0] == 99u8 && t[1] == 121u8 && t[2] == 97u8 && t[3] == 110u8 {
        proof { assert(t@ =~= seq![99u8, 121u8, 97u8, 110u8]); }
        return Some(6);
    }
    if t.len() == 5 && t[0] == 119u8 && t[1] == 104u8 && t[2] == 105u8 && t[3] == 116u8 && t[4] == 101u8 {
        proof { assert(t@ =~= seq![119u8, 104u8, 105u8, 116u8, 101u8]); }
        return Some(7);
    }
    None
}

/// Applies one token of the mini-language to a style.
fn token_apply(st: Style, tok: &Vec<u8>) -> (r: Option<Style>)
    ensures
        r == apply_token(st, tok@),
{
    if tok.len() == 4 && tok[0] == 98u8 && tok[1] == 111u8 && tok[2] == 108u8 && tok[3] == 100u8 {
        proof { assert(tok@ =~= seq![98u8, 111u8, 108u8, 100u8]); }
        return Some(Style { attrs: AttrFlags { bold: true, ..st.attrs }, ..st });
    }
    if tok.len() == 3 && tok[0] == 100u8 && tok[1] == 105u8 && tok[2] == 109u8 {
        proof { assert(tok@ =~= seq![100u8, 105u8, 109u8]); }
        return Some(Style { attrs: AttrFlags { dim: true, ..st.attrs }, ..st });
    }
    if tok.len() == 6 && tok[0] == 105u8 && tok[1] == 116u8 && tok[2] == 97u8 && tok[3] == 108u8
        && tok[4] == 105u8 && tok[5] == 99u8 {
        proof { assert(tok@ =~= seq![105u8, 116u8, 97u8, 108u8, 105u8, 99u8]); }
        return Some(Style { attrs: AttrFlags { italic: true, ..st.attrs }, ..st });
    }
    if tok.len() == 9 && tok[0] == 117u8 && tok[1] == 110u8 && tok[2] == 100u8 && tok[3] == 101u8
        && tok[4] == 114u8 && tok[5] == 108u8 && tok[6] == 105u8 && tok[7] == 110u8 && tok[8] == 101u8 {
        proof {
            assert(tok@ =~= seq![117u8, 110u8, 100u8, 101u8, 114u8, 108u8, 105u8, 110u8, 101u8]);
        }
        return Some(Style { attrs: AttrFlags { underline: true, ..st.attrs }, ..st });
    }
    if tok.len() == 5 && tok[0] == 98u8 && tok[1] == 108u8 && tok[2] == 105u8 && tok[3] == 110u8
        && tok[4] == 107u8 {
        proof { assert(tok@ =~= seq![98u8, 108u8, 105u8, 110u8, 107u8]); }
        return Some(Style { attrs: AttrFlags { blink: true, ..st.attrs }, ..st });
    }
    if tok.len() == 7 && tok[0] == 114u8 && tok[1] == 101u8 && tok[2] == 118u8 && tok[3] == 101u8
        && tok[4] == 114u8 && tok[5] == 115u8 && tok[6] == 101u8 {
        proof { assert(tok@ =~= seq![114u8, 101u8, 118u8, 101u8, 114u8, 115u8, 101u8]); }
        return Some(Style { attrs: AttrFlags { reverse: true, ..st.attrs }, ..st });
    }
    if tok.len() == 6 && tok[0] == 115u8 && tok[1] == 116u8 && tok[2] == 114u8 && tok[3] == 105u8
        && tok[4] == 107u8 && tok[5] == 101u8 {
        proof { assert(tok@ =~= seq![115u8, 116u8, 114u8, 105u8, 107u8, 101u8]); }
        return Some(Style { attrs: AttrFlags { strikethrough: true, ..st.attrs }, ..st });
    }
    if tok.len() >= 3 && (tok[0] == 102u8 || tok[0] == 98u8) && tok[1] == 103u8 && tok[2] == 58u8 {
        let mut value: Vec<u8> = Vec::new();
        let mut q: usize = 3;
        while q < tok.len()
            invariant
                3 <= q <= tok@.len(),
                value@ == tok@.subrange(3, q as int),
            decreases tok@.len() - q,
        {
            value.push(tok[q]);
            proof {
                assert(value@ =~= tok@.subrange(3, q as int + 1));
            }
            q = q + 1;
        }
        proof {
            assert(value@ =~= tok@.skip(3));
            if tok@[0] == 102u8 {
                assert(tok@.take(3) =~= seq![102u8, 103u8, 58u8]);
            } else {
                assert(tok@.take(3) =~= seq![98u8, 103u8, 58u8]);
            }
        }
        let c = color_value(&value);
        match c {
            Some(color) => {
                if tok[0] == 102u8 {
                    return Some(Style { foreground: color, ..st });
                } else {
                    return Some(Style { background: color, ..st });
                }
            },
            None => {
                return None;
            },
        }
    }
    proof {
        if tok@.len() >= 3 {
            if tok@.take(3) == seq![102u8, 103u8, 58u8] {
                assert(tok@[0] == 102u8 && tok@[1] == 103u8 && tok@[2] == 58u8);
            }
            if tok@.take(3) == seq![98u8, 103u8, 58u8] {
                assert(tok@[0] == 98u8 && tok@[1] == 103u8 && tok@[2] == 58u8);
            }
        }
    }
    None
}

/// Parses a style specification into a style.
///
/// Returns `Ok` exactly when every token of the specification is
/// recognized, and then the denoted style; returns the parse error
/// exactly when some token is unrecognized.
pub fn parse_style_spec(s: &Vec<u8>) -> (r: Result<Style, StyleParseError>)
    ensures
        r is Ok <==> style_of_spec(s@) is Some,
        r is Ok ==> r->Ok_0 == style_of_spec(s@)->Some_0,
        r is Err ==> r->Err_0 == StyleParseError::UnrecognizedToken,
{
    let toks = split_tokens(s);
    let ghost all = toks@.map_values(|t: Vec<u8>| t@);
    let mut st = style_default();
    let mut k: usize = 0;
    proof {
        assert(all.skip(0) =~= all);
    }
    while k < toks.len()
        invariant
            k <= toks@.len(),
            all == toks@.map_values(|t: Vec<u8>| t@),
            all == split_ws(s@),
            apply_tokens(default_style(), all) == apply_tokens(st, all.skip(k as int)),
        decreases toks@.len() - k,
    {
        proof {
            assert(all.skip(k as int)[0] == all[k as int]);
            assert(all.skip(k as int).skip(1) =~= all.skip(k as int + 1));
            assert(all[k as int] == toks@[k as int]@);
        }
        let next = token_apply(st, &toks[k]);
        match next {
            Some(st2) => {
                st = st2;
            },
            None => {
                return Err(StyleParseError::UnrecognizedToken);
            },
        }
        k = k + 1;
    }
    proof {
        assert(all.skip(k as int).len() == 0);
        assert(apply_tokens(st, all.skip(k as int)) == Some(st));
    }
    Ok(st)
}

/// Parses a style specification, downgrading a malformed one to the
/// default style plus a warning flag; rendering never aborts because of
/// a cosmetic misconfiguration.
pub fn style_or_default(s: &Vec<u8>) -> (r: (Style, bool))
    ensures
        style_of_spec(s@) is Some ==> r.0 == style_of_spec(s@)->Some_0 && !r.1,
        style_of_spec(s@) is None ==> r.0 == default_style() && r.1,
{
    let parsed = parse_style_spec(s);
    match parsed {
        Ok(st) => (st, false),
        Err(_) => (style_default(), true),
    }
}

} // verus!
