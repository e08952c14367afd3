//! Verified core rules of the `distributed` framework: bounded read-model
//! keyset scans, the command ledger's reservation and completion rules, the
//! cell wait-path dispatch decisions, and the shared encoding of modeled
//! projection programs.
use vstd::prelude::*;

pub mod cell_host;
pub mod command_ledger;
pub mod json;
pub mod projection_contract;
pub mod read_model;
pub mod table;
pub mod text;

verus! {
} // verus!
