//! A verified dense-matrix multiplication engine.
//!
//! Two row-major integer matrices are read from a count-prefixed text
//! format, multiplied — with the output rows dealt to a fixed number of
//! workers, each computing one contiguous range — and written back to the
//! same format. Every contract here is checked by Verus: the partition is
//! proved to cut the rows exactly once, the kernel to compute each
//! ascending-order dot product or report the first range that overflows,
//! and the result to be independent of the worker count.
//!
//! The modules, leaves first: [`numtext`] gives the character-level grammar
//! of decimal numerals with verified parsing and rendering; [`matrix`] the
//! container, its size invariant, and the text format; [`multiplication`]
//! the partitioner, the kernel, the `multiply` orchestrator, and the laws
//! that tie them together.

pub mod matrix;
pub mod multiplication;
pub mod numtext;
