//! Driving the pipeline: grouping classified lines into change blocks,
//! the source line-number counters, and the decision taken on an output
//! failure.
//!
//! The orchestrator consumes one raw line at a time.  Minus and plus
//! lines gather into the open change block; a context line, a hunk
//! header, an unrecognized line, or a minus line arriving after plus
//! lines completes the block, which the caller then renders.  Only the
//! lines of the open block are ever buffered.

use vstd::prelude::*;
use crate::hunk::LineKind;
use crate::hunk::kind_of;
use crate::hunk::classify_line;
use crate::hunk::header_of;
use crate::hunk::parse_hunk_header;

verus! {

/// A change block: the maximal run of consecutive minus lines followed
/// by the consecutive plus lines of one contiguous change.
#[derive(Debug)]
pub struct ChangeBlock {
    pub minus: Vec<Vec<u8>>,
    pub plus: Vec<Vec<u8>>,
}

/// What one input line produced: a completed change block to render
/// first, and the line itself where it passes through unmodified.
#[derive(Debug)]
pub struct StepResult {
    pub flushed: Option<ChangeBlock>,
    pub forward: Option<Vec<u8>>,
}

/// The pipeline state that outlives a single line: the cumulative
/// source line-number counters and the open change block.
#[derive(Debug)]
pub struct Orchestrator {
    pub minus_line_no: usize,
    pub plus_line_no: usize,
    pub block_minus: Vec<Vec<u8>>,
    pub block_plus: Vec<Vec<u8>>,
}

impl Orchestrator {
    /// The open change block holds at least one line.
    pub open spec fn block_open(self) -> bool {
        self.block_minus@.len() > 0 || self.block_plus@.len() > 0
    }

    /// Starts a run: counters at one, no open block.
    pub fn new() -> (s: Self)
        ensures
            s.minus_line_no == 1,
            s.plus_line_no == 1,
            !s.block_open(),
    {
        Orchestrator {
            minus_line_no: 1,
            plus_line_no: 1,
            block_minus: Vec::new(),
            block_plus: Vec::new(),
        }
    }

    /// Takes the open change block out, leaving none open.
    fn take_block(&mut self) -> (r: ChangeBlock)
        ensures
            r.minus@ == old(self).block_minus@,
            r.plus@ == old(self).block_plus@,
            !final(self).block_open(),
            final(self).minus_line_no == old(self).minus_line_no,
            final(self).plus_line_no == old(self).plus_line_no,
    {
        let mut m: Vec<Vec<u8>> = Vec::new();
        let mut p: Vec<Vec<u8>> = Vec::new();
        core::mem::swap(&mut m, &mut self.block_minus);
        core::mem::swap(&mut p, &mut self.block_plus);
        ChangeBlock { minus: m, plus: p }
    }

    /// Consumes one raw input line.
    ///
    /// A minus line extends the open block, first completing it when
    /// plus lines have already gathered; a plus line extends it; a
    /// context line, a header or an unrecognized line completes the
    /// block and passes through.  The minus counter advances on minus
    /// and context lines, the plus counter on plus and context lines; a
    /// well-formed hunk header resets both counters to its ranges.
    pub fn step(&mut self, line: Vec<u8>) -> (r: StepResult)
        requires
            old(self).minus_line_no < usize::MAX,
            old(self).plus_line_no < usize::MAX,
        ensures
            (match kind_of(line@) {
                LineKind::Minus => {
                    &&& final(self).minus_line_no == old(self).minus_line_no + 1
                    &&& final(self).plus_line_no == old(self).plus_line_no
                    &&& r.forward is None
                    &&& final(self).block_plus@.len() == 0
                    &&& if old(self).block_plus@.len() > 0 {
                        &&& r.flushed is Some
                        &&& (r.flushed->Some_0).minus@ == old(self).block_minus@
                        &&& (r.flushed->Some_0).plus@ == old(self).block_plus@
                        &&& final(self).block_minus@ == seq![line]
                    } else {
                        &&& r.flushed is None
                        &&& final(self).block_minus@ == old(self).block_minus@.push(line)
                    }
                },
                LineKind::Plus => {
                    &&& final(self).minus_line_no == old(self).minus_line_no
                    &&& final(self).plus_line_no == old(self).plus_line_no + 1
                    &&& r.forward is None
                    &&& r.flushed is None
                    &&& final(self).block_minus@ == old(self).block_minus@
                    &&& final(self).block_plus@ == old(self).block_plus@.push(line)
                },
                LineKind::Context => {
                    &&& final(self).minus_line_no == old(self).minus_line_no + 1
                    &&& final(self).plus_line_no == old(self).plus_line_no + 1
                    &&& r.forward is Some && (r.forward->Some_0)@ == line@
                    &&& final(self).step_flush_ok(*old(self), r)
                },
                LineKind::Header => {
                    &&& (match header_of(line@) {
                        Some(h) => final(self).minus_line_no == h.0 && final(self).plus_line_no == h.2,
                        None => final(self).minus_line_no == old(self).minus_line_no
                            && final(self).plus_line_no == old(self).plus_line_no,
                    })
                    &&& r.forward is Some && (r.forward->Some_0)@ == line@
                    &&& final(self).step_flush_ok(*old(self), r)
                },
                LineKind::Other => {
                    &&& final(self).minus_line_no == old(self).minus_line_no
                    &&& final(self).plus_line_no == old(self).plus_line_no
                    &&& r.forward is Some && (r.forward->Some_0)@ == line@
                    &&& final(self).step_flush_ok(*old(self), r)
                },
            }),
    {
        let kind = classify_line(&line);
        match kind {
            LineKind::Minus => {
                let flushed: Option<ChangeBlock> = if self.block_plus.len() > 0 {
                    Some(self.take_block())
                } else {
                    None
                };
                self.block_minus.push(line);
                self.minus_line_no = self.minus_line_no + 1;
                StepResult { flushed, forward: None }
            },
            LineKind::Plus => {
                self.block_plus.push(line);
                self.plus_line_no = self.plus_line_no + 1;
                StepResult { flushed: None, forward: None }
            },
            LineKind::Context => {
                let flushed: Option<ChangeBlock> = if self.block_minus.len() > 0
                    || self.block_plus.len() > 0 {
                    Some(self.take_block())
                } else {
                    None
                };
                self.minus_line_no = self.minus_line_no + 1;
                self.plus_line_no = self.plus_line_no + 1;
                StepResult { flushed, forward: Some(line) }
            },
            LineKind::Header => {
                let flushed: Option<ChangeBlock> = if self.block_minus.len() > 0
                    || self.block_plus.len() > 0 {
                    Some(self.take_block())
                } else {
                    None
                };
                let header = parse_hunk_header(&line);
                match header {
                    Some(h) => {
                        self.minus_line_no = h.minus_start;
                        self.plus_line_no = h.plus_start;
                    },
                    None => {},
                }
                StepResult { flushed, forward: Some(line) }
            },
            LineKind::Other => {
                let flushed: Option<ChangeBlock> = if self.block_minus.len() > 0
                    || self.block_plus.len() > 0 {
                    Some(self.take_block())
                } else {
                    None
                };
                StepResult { flushed, forward: Some(line) }
            },
        }
    }

    /// A completing line flushed the open block exactly when one was
    /// open, carrying its lines, and left none open.
    pub open spec fn step_flush_ok(self, pre: Orchestrator, r: StepResult) -> bool {
        &&& !self.block_open()
        &&& if pre.block_open() {
            &&& r.flushed is Some
            &&& (r.flushed->Some_0).minus@ == pre.block_minus@
            &&& (r.flushed->Some_0).plus@ == pre.block_plus@
        } else {
            r.flushed is None
        }
    }

    /// Ends the run, returning the still-open change block if any.
    pub fn finish(&mut self) -> (r: Option<ChangeBlock>)
        ensures
            !final(self).block_open(),
            if old(self).block_open() {
                r is Some && (r->Some_0).minus@ == old(self).block_minus@
                    && (r->Some_0).plus@ == old(self).block_plus@
            } else {
                r is None
            },
    {
        if self.block_minus.len() > 0 || self.block_plus.len() > 0 {
            Some(self.take_block())
        } else {
            None
        }
    }
}

/// What one write to the output sink came to.
#[derive(Clone, Copy, Debug, PartialEq, Eq, Structural)]
pub enum WriteOutcome {
    /// The sink accepted the data.
    Written,
    /// The sink is closed (a broken pipe): not an error.
    Closed,
    /// Any other output failure.
    Failed,
}

/// What the run does next.
#[derive(Clone, Copy, Debug, PartialEq, Eq, Structural)]
pub enum RunDecision {
    /// Keep processing input.
    Continue,
    /// Stop cleanly with success status and read no further input.
    StopSuccess,
    /// Abort the run and report the failure to the caller.
    StopError,
}

/// Decides how the run proceeds after a write to the output sink: a
/// closed sink ends the run with success and no further input is read;
/// any other failure is fatal; otherwise processing continues.
pub fn on_write_outcome(outcome: WriteOutcome) -> (d: RunDecision)
    ensures
        d == (match outcome {
            WriteOutcome::Written => RunDecision::Continue,
            WriteOutcome::Closed => RunDecision::StopSuccess,
            WriteOutcome::Failed => RunDecision::StopError,
        }),
        outcome is Closed ==> d is StopSuccess,
{
    match outcome {
        WriteOutcome::Written => RunDecision::Continue,
        WriteOutcome::Closed => RunDecision::StopSuccess,
        WriteOutcome::Failed => RunDecision::StopError,
    }
}

} // verus!
