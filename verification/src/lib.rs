//! Verified numeric kernels: decimal parsing of unsigned 64-bit integers
//! and in-place ascending sorts of 32-bit signed integers.
//!
//! Each kernel comes in two forms with a common mathematical model: a plain
//! scalar reference and a lane-level formulation of a wide, blocked
//! algorithm — a base ten-to-the-eighth digit combination for the parser,
//! and 16-lane bitonic networks with a two-ended blockwise partition for
//! the sort. Every function carries a contract proved against the model.

pub mod num_parse;
pub mod qsort;
