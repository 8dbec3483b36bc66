//! Core library of a binary diff / compare tool for security analysis and firmware
//! reverse engineering: diff detection, alignment, patch generation and application,
//! the signed patch container and report generation.

pub mod hashing;
pub mod util;
pub mod diff_engine;
pub mod file_loader;
pub mod patch_engine;
pub mod patch_pack;
pub mod apply;
pub mod aligner;
pub mod disasm;
pub mod structural_matcher;
pub mod symbol_resolver;
pub mod report_generator;
pub mod byte_refine;
pub mod bench_gen;
pub mod bench_eval;
pub mod batch_comparator;
pub mod presentation;
pub mod signing;
pub mod viewer;

use vstd::prelude::*;

pub use diff_engine::DiffEntry;
pub use report_generator::{DiffReport, ReportSummary};
pub use file_loader::LoadedFile;
pub use symbol_resolver::SymbolMap;
pub use batch_comparator::{BatchComparator, BatchNode, BatchStatus, DefaultBatchComparator};

verus! {

#[verifier::external_type_specification]
#[verifier::external_body]
pub struct ExIoError(std::io::Error);

/// The library-wide error type.
#[derive(Debug)]
pub enum RvaError {
    Io(std::io::Error),
    Parse(String),
    UnsupportedFormat,
    Symbol(String),
    Patch(String),
    Other(String),
}

/// Convenience constructor for `Other` errors.
pub fn err(msg: String) -> (e: RvaError)
    ensures
        e == RvaError::Other(msg),
{
    RvaError::Other(msg)
}

} // verus!
