//! Core of SAM (Sparse API Monolith): workspace state, profile lookup,
//! git sparse-checkout commands and their output, Finder ghost-folder
//! decisions, MonoGraph responses and terminal output formatting.
use vstd::prelude::*;

pub mod commands;
pub mod error;
pub mod finder;
pub mod git;
pub mod monograph;
pub mod output;
pub mod profile;
pub mod text;
pub mod workspace;

verus! {

} // verus!
