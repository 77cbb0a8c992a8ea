//! Line coverage from drcov traces.
//!
//! A drcov trace records which basic blocks of which loaded modules
//! executed. This library decodes such traces ([`drcov`]), finds out where
//! the debug information of a module is to be looked for ([`resolver`]),
//! maps the rows of a module's line-number programs to line records
//! ([`dwarf`]), merges the records of each source file ([`coalesce`]),
//! renders them as an LCOV report ([`lcov`]), and reduces a set of traces
//! to those that differ in coverage ([`reduce`]).
//!
//! The library reads no file. It takes the bytes of a trace, and the
//! segments, debug link and line rows of an image, as plain values, and
//! hands back plain values.

pub mod bitmap;
pub mod blocks;
pub mod cli;
pub mod coalesce;
pub mod drcov;
pub mod dwarf;
pub mod error;
pub mod filter;
pub mod grammar;
pub mod lcov;
pub mod line_table;
pub mod lines;
pub mod module;
pub mod pattern;
pub mod reduce;
pub mod resolver;
pub mod table;
pub mod util;
