//! Core engine of a terminal diff re-renderer.
//!
//! The crate consumes an already-diffed stream of lines and re-derives finer
//! structure from it: it classifies lines into hunks and change blocks,
//! pairs removed lines with the added lines they became, computes a minimal
//! edit script between the tokens of a paired line, composes syntax and diff
//! style layers into coalesced styled spans, and wraps styled lines to a
//! terminal width without splitting display clusters or corrupting style
//! state.

pub mod align;
pub mod edit;
pub mod hunk;
pub mod paint;
pub mod run;
pub mod style;
pub mod wrap;
