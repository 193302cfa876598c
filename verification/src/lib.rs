//! Regular-expression based reduction of execution paths.
//!
//! A program's functions are described by regular expressions over basic
//! block identifiers; an execution path is parsed against them and the
//! repetitions of loops and recursive calls are cut down to a bounded number.

pub mod re;

pub mod path_reduction;
pub mod intern_cfg;
pub mod convert;
pub mod graph;
pub mod subseq;
pub mod laws;
pub mod language;
