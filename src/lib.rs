//! From an executed template instantiation to the dependency graph and to a
//! numbered, exportable template instance.
//!
//! - `signals`: expansion of array signals into scalars, in row-major order.
//! - `order`: the order of sub-component references (by name, then index).
//! - `executed_template`: the executed instantiation, the order in which its
//!   signals enter the graph, and the bookkeeping of its sub-component edges.
//! - `lattice`: the three-point lattice that tells uniformly wired arrays from
//!   mixed ones.
//! - `export`: clusters, triggers, arguments and signal numbering of the
//!   exported instance.
//! - `number`: the big integers that parameter values hold.

pub mod executed_template;
pub mod export;
pub mod lattice;
pub mod number;
pub mod order;
pub mod signals;

use vstd::prelude::*;

verus! {

/// Options of a circuit build, as handed over by the command line.
pub struct BuildConfig {
    pub no_rounds: usize,
    pub flag_json_sub: bool,
    pub flag_s: bool,
    pub flag_f: bool,
    pub flag_p: bool,
    pub inspect_constraints: bool,
}

} // verus!
