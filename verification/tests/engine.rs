use delta_core::align::AlignConfig;
use delta_core::align::pair_lines;
use delta_core::align::line_distance;
use delta_core::edit::EditOp;
use delta_core::edit::TokenMode;
use delta_core::edit::compute_edit_ops;
use delta_core::edit::coalesce_edit_ops;
use delta_core::edit::tokenize;
use delta_core::hunk::HunkHeader;
use delta_core::hunk::LineKind;
use delta_core::hunk::classify_line;
use delta_core::hunk::parse_hunk_header;
use delta_core::run::Orchestrator;
use delta_core::run::RunDecision;
use delta_core::run::WriteOutcome;
use delta_core::run::on_write_outcome;

fn toks(words: &[&str]) -> Vec<Vec<u8>> {
    words.iter().map(|w| w.as_bytes().to_vec()).collect()
}

/// Walks an edit script checking that the covered ranges chain exactly
/// over both token sequences: no gap, no overlap.
fn assert_partition(ops: &[EditOp], minus_len: usize, plus_len: usize) {
    let mut mi = 0usize;
    let mut pi = 0usize;
    for op in ops {
        match *op {
            EditOp::Equal { minus_start, minus_end, plus_start, plus_end } => {
                assert_eq!(minus_start, mi);
                assert_eq!(plus_start, pi);
                assert!(minus_end > minus_start);
                assert_eq!(minus_end - minus_start, plus_end - plus_start);
                mi = minus_end;
                pi = plus_end;
            }
            EditOp::Delete { minus_start, minus_end } => {
                assert_eq!(minus_start, mi);
                assert!(minus_end > minus_start);
                mi = minus_end;
            }
            EditOp::Insert { plus_start, plus_end } => {
                assert_eq!(plus_start, pi);
                assert!(plus_end > plus_start);
                pi = plus_end;
            }
            EditOp::Replace { minus_start, minus_end, plus_start, plus_end } => {
                assert_eq!(minus_start, mi);
                assert_eq!(plus_start, pi);
                assert!(minus_end > minus_start);
                assert!(plus_end > plus_start);
                mi = minus_end;
                pi = plus_end;
            }
        }
    }
    assert_eq!(mi, minus_len);
    assert_eq!(pi, plus_len);
}

#[test]
fn edit_ops_word_replace() {
    // Minus tokens ["foo", "bar"], plus tokens ["foo", "baz"]: the
    // unchanged first token, then one replacement.
    let minus = toks(&["foo", "bar"]);
    let plus = toks(&["foo", "baz"]);
    let ops = compute_edit_ops(&minus, &plus);
    assert_eq!(
        ops,
        vec![
            EditOp::Equal { minus_start: 0, minus_end: 1, plus_start: 0, plus_end: 1 },
            EditOp::Replace { minus_start: 1, minus_end: 2, plus_start: 1, plus_end: 2 },
        ]
    );
}

#[test]
fn edit_ops_partition_both_sides() {
    let minus = toks(&["a", "b", "c", "d", "e"]);
    let plus = toks(&["a", "x", "c", "e", "f"]);
    let ops = compute_edit_ops(&minus, &plus);
    assert_partition(&ops, minus.len(), plus.len());
    let coalesced = coalesce_edit_ops(&ops, 2, minus.len(), plus.len());
    assert_partition(&coalesced, minus.len(), plus.len());
}

#[test]
fn edit_ops_pure_insert_and_delete() {
    let minus = toks(&[]);
    let plus = toks(&["x", "y"]);
    let ops = compute_edit_ops(&minus, &plus);
    assert_eq!(ops, vec![EditOp::Insert { plus_start: 0, plus_end: 2 }]);
    let ops2 = compute_edit_ops(&plus, &minus);
    assert_eq!(ops2, vec![EditOp::Delete { minus_start: 0, minus_end: 2 }]);
    let ops3 = compute_edit_ops(&minus, &minus);
    assert_eq!(ops3, vec![]);
}

#[test]
fn coalesce_is_idempotent() {
    // A short equal run between two changed runs folds into one
    // replacement, and coalescing again changes nothing.
    let minus = toks(&["aa", "k", "bb"]);
    let plus = toks(&["cc", "k", "dd"]);
    let ops = compute_edit_ops(&minus, &plus);
    let once = coalesce_edit_ops(&ops, 2, 3, 3);
    let twice = coalesce_edit_ops(&once, 2, 3, 3);
    assert_eq!(once, twice);
    assert_eq!(
        once,
        vec![EditOp::Replace { minus_start: 0, minus_end: 3, plus_start: 0, plus_end: 3 }]
    );
}

#[test]
fn coalesce_keeps_long_equal_runs() {
    let minus = toks(&["a", "b", "x"]);
    let plus = toks(&["a", "b", "y"]);
    let ops = compute_edit_ops(&minus, &plus);
    let once = coalesce_edit_ops(&ops, 2, 3, 3);
    assert_eq!(
        once,
        vec![
            EditOp::Equal { minus_start: 0, minus_end: 2, plus_start: 0, plus_end: 2 },
            EditOp::Replace { minus_start: 2, minus_end: 3, plus_start: 2, plus_end: 3 },
        ]
    );
    let twice = coalesce_edit_ops(&once, 2, 3, 3);
    assert_eq!(once, twice);
}

#[test]
fn tokenize_word_mode_partitions() {
    let line = b"let x = x + 1;".to_vec();
    let toks = tokenize(&line, TokenMode::Word);
    let mut rebuilt: Vec<u8> = Vec::new();
    for t in &toks {
        assert!(!t.is_empty());
        rebuilt.extend_from_slice(t);
    }
    assert_eq!(rebuilt, line);
    assert_eq!(toks[0], b"let".to_vec());
    assert_eq!(toks[1], b" ".to_vec());
    assert_eq!(toks[2], b"x".to_vec());
}

#[test]
fn tokenize_character_mode_keeps_multibyte_units() {
    let line = "aé".as_bytes().to_vec();
    let toks = tokenize(&line, TokenMode::Character);
    assert_eq!(toks.len(), 2);
    assert_eq!(toks[0], b"a".to_vec());
    assert_eq!(toks[1], "é".as_bytes().to_vec());
}

#[test]
fn distance_zero_for_identical_lines() {
    let a = toks(&["foo", "bar"]);
    assert_eq!(line_distance(&a, &a), 0);
}

#[test]
fn distance_full_for_disjoint_lines() {
    let a = toks(&["foo"]);
    let b = toks(&["bar"]);
    assert_eq!(line_distance(&a, &b), 1000);
}

#[test]
fn pairing_rejects_dissimilar_lines() {
    // Two minus lines and one plus line with nothing in common: the
    // pairer returns zero pairs; every line is reported unpaired.
    let minus = vec![
        b"completely unrelated text".to_vec(),
        b"nothing in common".to_vec(),
    ];
    let plus = vec![b"xyz123".to_vec()];
    let cfg = AlignConfig { gap_cost: 400, max_cells: 10000 };
    let r = pair_lines(&minus, &plus, TokenMode::Word, cfg);
    assert_eq!(r.pairs.len(), 0);
    assert_eq!(r.unpaired_minus, vec![0, 1]);
    assert_eq!(r.unpaired_plus, vec![0]);
}

#[test]
fn pairing_is_non_crossing() {
    let minus = vec![
        b"fn alpha() {".to_vec(),
        b"    let a = 1;".to_vec(),
        b"    let b = 2;".to_vec(),
    ];
    let plus = vec![
        b"fn alpha() {".to_vec(),
        b"    let a = 10;".to_vec(),
        b"    let b = 20;".to_vec(),
    ];
    let cfg = AlignConfig { gap_cost: 300, max_cells: 10000 };
    let r = pair_lines(&minus, &plus, TokenMode::Word, cfg);
    assert!(r.pairs.len() >= 2);
    for w in r.pairs.windows(2) {
        assert!(w[0].minus_index < w[1].minus_index);
        assert!(w[0].plus_index < w[1].plus_index);
    }
    for p in &r.pairs {
        assert!(p.distance < 600);
    }
}

#[test]
fn pairing_degrades_over_the_ceiling() {
    let minus = vec![b"-one line".to_vec(), b"-another".to_vec()];
    let plus = vec![b"+one line".to_vec()];
    let cfg = AlignConfig { gap_cost: 300, max_cells: 1 };
    let r = pair_lines(&minus, &plus, TokenMode::Word, cfg);
    assert_eq!(r.pairs.len(), 0);
    assert_eq!(r.unpaired_minus, vec![0, 1]);
    assert_eq!(r.unpaired_plus, vec![0]);
}

#[test]
fn classify_by_leading_marker() {
    assert_eq!(classify_line(&b"@@ -1,2 +3,4 @@".to_vec()), LineKind::Header);
    assert_eq!(classify_line(&b"-removed".to_vec()), LineKind::Minus);
    assert_eq!(classify_line(&b"+added".to_vec()), LineKind::Plus);
    assert_eq!(classify_line(&b" context".to_vec()), LineKind::Context);
    assert_eq!(classify_line(&b"diff --git a b".to_vec()), LineKind::Other);
    assert_eq!(classify_line(&b"".to_vec()), LineKind::Other);
}

#[test]
fn hunk_header_ranges() {
    let h = parse_hunk_header(&b"@@ -10,5 +20,7 @@ fn main() {".to_vec());
    assert_eq!(
        h,
        Some(HunkHeader { minus_start: 10, minus_count: 5, plus_start: 20, plus_count: 7 })
    );
    let short = parse_hunk_header(&b"@@ -3 +4 @@".to_vec());
    assert_eq!(
        short,
        Some(HunkHeader { minus_start: 3, minus_count: 1, plus_start: 4, plus_count: 1 })
    );
    assert_eq!(parse_hunk_header(&b"@@ garbage @@".to_vec()), None);
}

#[test]
fn orchestrator_groups_change_blocks() {
    let mut o = Orchestrator::new();
    let r = o.step(b"@@ -10,2 +20,2 @@".to_vec());
    assert!(r.flushed.is_none());
    assert_eq!(o.minus_line_no, 10);
    assert_eq!(o.plus_line_no, 20);
    let r = o.step(b"-old".to_vec());
    assert!(r.flushed.is_none());
    assert!(r.forward.is_none());
    let r = o.step(b"+new".to_vec());
    assert!(r.flushed.is_none());
    let r = o.step(b" ctx".to_vec());
    let block = r.flushed.expect("context completes the block");
    assert_eq!(block.minus, vec![b"-old".to_vec()]);
    assert_eq!(block.plus, vec![b"+new".to_vec()]);
    assert_eq!(r.forward, Some(b" ctx".to_vec()));
    assert_eq!(o.minus_line_no, 12);
    assert_eq!(o.plus_line_no, 22);
    assert!(o.finish().is_none());
}

#[test]
fn orchestrator_minus_after_plus_starts_new_block() {
    let mut o = Orchestrator::new();
    o.step(b"-a".to_vec());
    o.step(b"+b".to_vec());
    let r = o.step(b"-c".to_vec());
    let block = r.flushed.expect("a minus after plus completes the block");
    assert_eq!(block.minus, vec![b"-a".to_vec()]);
    assert_eq!(block.plus, vec![b"+b".to_vec()]);
    let last = o.finish().expect("the new block is still open");
    assert_eq!(last.minus, vec![b"-c".to_vec()]);
    assert!(last.plus.is_empty());
}

#[test]
fn closed_sink_stops_with_success() {
    // A closed output sink ends the run cleanly: the caller stops
    // reading input and reports success.
    assert_eq!(on_write_outcome(WriteOutcome::Closed), RunDecision::StopSuccess);
    assert_eq!(on_write_outcome(WriteOutcome::Written), RunDecision::Continue);
    assert_eq!(on_write_outcome(WriteOutcome::Failed), RunDecision::StopError);
}
