use delta_core::paint::PairStyles;
use delta_core::paint::StyledSpan;
use delta_core::paint::highlight_pair;
use delta_core::edit::TokenMode;
use delta_core::paint::paint_line;
use delta_core::paint::token_offsets;
use delta_core::paint::diff_byte_ranges;
use delta_core::edit::EditOp;
use delta_core::style::AttrFlags;
use delta_core::style::ColorSpec;
use delta_core::style::Style;
use delta_core::style::merge_style;
use delta_core::style::parse_style_spec;
use delta_core::style::resolve_style;
use delta_core::style::style_default;
use delta_core::style::style_or_default;
use delta_core::wrap::Cluster;
use delta_core::wrap::clusters_of;
use delta_core::wrap::display_width;
use delta_core::wrap::wrap_line;

fn bold_style() -> Style {
    let mut s = style_default();
    s.attrs.bold = true;
    s
}

#[test]
fn style_spec_parses_attributes_and_colors() {
    let st = parse_style_spec(&b"bold fg:red bg:#102030".to_vec()).expect("recognized spec");
    assert!(st.attrs.bold);
    assert_eq!(st.foreground, ColorSpec::Indexed { index: 1 });
    assert_eq!(st.background, ColorSpec::Rgb { red: 0x10, green: 0x20, blue: 0x30 });
    let st2 = parse_style_spec(&b"fg:42 bg:none underline".to_vec()).expect("recognized spec");
    assert_eq!(st2.foreground, ColorSpec::Indexed { index: 42 });
    assert_eq!(st2.background, ColorSpec::Cleared);
    assert!(st2.attrs.underline);
    let st3 = parse_style_spec(&b"fg:auto".to_vec()).expect("recognized spec");
    assert_eq!(st3.foreground, ColorSpec::Auto);
}

#[test]
fn style_spec_later_token_wins() {
    let st = parse_style_spec(&b"fg:red fg:blue".to_vec()).expect("recognized spec");
    assert_eq!(st.foreground, ColorSpec::Indexed { index: 4 });
}

#[test]
fn malformed_style_spec_downgrades_to_default() {
    // "fg:not-a-color" is unrecognized: the engine falls back to the
    // default style and reports a warning; rendering proceeds.
    let (st, warned) = style_or_default(&b"fg:not-a-color".to_vec());
    assert!(warned);
    assert_eq!(st, style_default());
    let err = parse_style_spec(&b"fg:not-a-color".to_vec());
    assert!(err.is_err());
}

#[test]
fn layered_merge_respects_unset_fields() {
    let mut base = style_default();
    base.foreground = ColorSpec::Indexed { index: 1 };
    base.background = ColorSpec::Indexed { index: 2 };
    let mut feature = style_default();
    feature.foreground = ColorSpec::Indexed { index: 3 };
    let mut theme = style_default();
    theme.attrs.italic = true;
    let merged = resolve_style(base, feature, theme);
    assert_eq!(merged.foreground, ColorSpec::Indexed { index: 3 });
    assert_eq!(merged.background, ColorSpec::Indexed { index: 2 });
    assert!(merged.attrs.italic);
    let cleared = merge_style(base, Style {
        foreground: ColorSpec::Cleared,
        background: ColorSpec::Missing,
        attrs: AttrFlags::default(),
    });
    assert_eq!(cleared.foreground, ColorSpec::Cleared);
    assert_eq!(cleared.background, ColorSpec::Indexed { index: 2 });
}

#[test]
fn paint_merges_diff_overlay_and_coalesces() {
    // Syntax: one span over the whole line; diff range over bytes 4..7.
    let len = 10usize;
    let mut syn_style = style_default();
    syn_style.foreground = ColorSpec::Indexed { index: 2 };
    let syntax = vec![StyledSpan { start: 0, end: 10, style: syn_style }];
    let mut dstyle = style_default();
    dstyle.background = ColorSpec::Indexed { index: 52 };
    let out = paint_line(len, &syntax, &vec![(4, 7)], dstyle);
    assert_eq!(out.len(), 3);
    assert_eq!((out[0].start, out[0].end), (0, 4));
    assert_eq!((out[1].start, out[1].end), (4, 7));
    assert_eq!((out[2].start, out[2].end), (7, 10));
    // The overlay keeps the syntax foreground and adds the diff
    // background; neighbouring spans stay pure syntax.
    assert_eq!(out[1].style.foreground, ColorSpec::Indexed { index: 2 });
    assert_eq!(out[1].style.background, ColorSpec::Indexed { index: 52 });
    assert_eq!(out[0].style, syn_style);
    assert_eq!(out[2].style, syn_style);
    // Minimality: no two adjacent spans share a style.
    for w in out.windows(2) {
        assert_ne!(w[0].style, w[1].style);
    }
}

#[test]
fn paint_uniform_overlay_is_one_span() {
    let syntax = vec![StyledSpan { start: 0, end: 5, style: style_default() }];
    let out = paint_line(5, &syntax, &vec![(0, 5)], bold_style());
    assert_eq!(out.len(), 1);
    assert!(out[0].style.attrs.bold);
}

#[test]
fn token_ranges_map_ops_to_bytes() {
    let tokens = vec![b"foo".to_vec(), b" ".to_vec(), b"bar".to_vec()];
    let offs = token_offsets(&tokens);
    assert_eq!(offs, vec![0, 3, 4, 7]);
    let ops = vec![
        EditOp::Equal { minus_start: 0, minus_end: 2, plus_start: 0, plus_end: 2 },
        EditOp::Replace { minus_start: 2, minus_end: 3, plus_start: 2, plus_end: 3 },
    ];
    let rs = diff_byte_ranges(&ops, &offs, true);
    assert_eq!(rs, vec![(4, 7)]);
}

#[test]
fn widths_of_code_points() {
    assert_eq!(display_width('a'), 1);
    assert_eq!(display_width('世'), 2);
    assert_eq!(display_width('\u{0301}'), 0);
}

#[test]
fn clusters_keep_combining_marks_attached() {
    // "e" plus a combining acute accent is one cluster of width 1.
    let chars: Vec<char> = vec!['e', '\u{0301}', 'x'];
    let cl = clusters_of(&chars, style_default());
    assert_eq!(cl.len(), 2);
    assert_eq!(cl[0].text, vec!['e', '\u{0301}']);
    assert_eq!(cl[0].width, 1);
    assert_eq!(cl[1].text, vec!['x']);
}

#[test]
fn wrap_never_splits_a_cluster() {
    let chars: Vec<char> = vec!['a', '\u{0301}', 'b', 'c', 'd', 'e'];
    let cl = clusters_of(&chars, style_default());
    let lines = wrap_line(cl.clone(), 2);
    let mut flat: Vec<Vec<char>> = Vec::new();
    for line in &lines {
        for c in line {
            flat.push(c.text.clone());
        }
    }
    let original: Vec<Vec<char>> = cl.iter().map(|c| c.text.clone()).collect();
    assert_eq!(flat, original);
    let lens: Vec<usize> = lines.iter().map(|l| l.len()).collect();
    assert_eq!(lens, vec![2, 2, 1]);
}

#[test]
fn wrap_breaks_do_not_depend_on_style() {
    let chars: Vec<char> = "abcdefg".chars().collect::<Vec<char>>();
    let plain = clusters_of(&chars, style_default());
    let styled = clusters_of(&chars, bold_style());
    let plain_lines = wrap_line(plain, 3);
    let styled_lines = wrap_line(styled, 3);
    let plain_lens: Vec<usize> = plain_lines.iter().map(|l| l.len()).collect();
    let styled_lens: Vec<usize> = styled_lines.iter().map(|l| l.len()).collect();
    assert_eq!(plain_lens, styled_lens);
    assert_eq!(plain_lens, vec![3, 3, 1]);
}

#[test]
fn wide_cluster_at_the_edge_moves_whole() {
    // Width 4, columns 0..3 filled, then a width-2 cluster: it moves to
    // the next physical line in full, leaving the last column unfilled.
    let chars: Vec<char> = vec!['a', 'b', 'c', '世'];
    let cl = clusters_of(&chars, style_default());
    let lines = wrap_line(cl, 4);
    assert_eq!(lines.len(), 2);
    assert_eq!(lines[0].len(), 3);
    assert_eq!(lines[1].len(), 1);
    assert_eq!(lines[1][0].text, vec!['世']);
    assert_eq!(lines[1][0].width, 2);
}

#[test]
fn wrap_keeps_styles_across_breaks() {
    let ab: Vec<char> = "ab".chars().collect();
    let cd: Vec<char> = "cd".chars().collect();
    let a: Vec<Cluster> = clusters_of(&ab, bold_style());
    let b: Vec<Cluster> = clusters_of(&cd, style_default());
    let mut all = a;
    all.extend(b);
    let lines = wrap_line(all, 3);
    assert_eq!(lines.len(), 2);
    assert!(lines[0][0].style.attrs.bold);
    assert!(lines[0][1].style.attrs.bold);
    assert!(!lines[0][2].style.attrs.bold);
    assert!(!lines[1][0].style.attrs.bold);
}

#[test]
fn pair_highlight_end_to_end() {
    // "foo bar" against "foo baz": only the changed token's bytes get
    // the emphasis overlay, as one minimal span per region.
    let styles = PairStyles {
        minus_base: style_default(),
        minus_emph: bold_style(),
        plus_base: style_default(),
        plus_emph: bold_style(),
    };
    let r = highlight_pair(
        &b"foo bar".to_vec(), &b"foo baz".to_vec(), TokenMode::Word, 1, styles,
    );
    assert_eq!(r.minus_offsets, vec![0, 3, 4, 7]);
    assert_eq!(r.plus_offsets, vec![0, 3, 4, 7]);
    assert_eq!(r.minus_spans.len(), 2);
    assert!(!r.minus_spans[0].style.attrs.bold);
    assert!(r.minus_spans[1].style.attrs.bold);
    assert_eq!((r.minus_spans[1].start, r.minus_spans[1].end), (4, 7));
    assert_eq!(r.plus_spans.len(), 2);
    assert_eq!((r.plus_spans[1].start, r.plus_spans[1].end), (4, 7));
}
