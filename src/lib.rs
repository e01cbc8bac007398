//! Risk attribution over a resolved package dependency graph: which packages each
//! analyzed workspace member pulls in, and which transitive dependencies a single
//! direct dependency alone brings in.
use vstd::prelude::*;

pub mod analysis;
pub mod graph;
pub mod laws;
pub mod reach;
pub mod roots;

verus! {

} // verus!
