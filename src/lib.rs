//! Core of a static analysis engine for x86 and x86-64 PE modules: a paged
//! address space, flow metadata and cross-references, recursive disassembly
//! and basic-block recovery, and FLIRT function signatures.
use vstd::prelude::*;

pub mod analysis;
pub mod aspace;
pub mod builder;
pub mod flirt;
pub mod loader;
pub mod nfa;
pub mod pat;
pub mod pe;
pub mod util;
pub mod workspace;
pub mod xref;

