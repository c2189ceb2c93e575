//! Core of a continuous-integration server for a functional package manager.
//!
//! The library holds the data model of derivations and their builds, the rules of the
//! per-derivation build state machine, a store whose writes apply whole or not at all and
//! which keeps its invariants (edges between stored derivations, no cycles, dense attempt
//! numbers, sticky terminal states), the dependency-graph walker, and the decisions of the
//! dispatcher and of the control protocol.
use vstd::prelude::*;

pub mod attempt;
pub mod drv;
pub mod git;
pub mod store;
pub mod scheduler;
pub mod walker;
pub mod protocol;
pub mod config;
pub mod checkout;

verus! {

} // verus!
