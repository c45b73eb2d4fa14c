//! Reports the packages that a change newly pulls into a resolved dependency
//! graph, the feature sets newly enabled on packages already present, and the
//! directly declared packages that pull each of them in.
use vstd::prelude::*;

pub mod cli;
pub mod diff;
pub mod edges;
pub mod external;
pub mod features;
pub mod groups;
pub mod laws;
pub mod matcher;
pub mod order;
pub mod snapshot;
pub mod text;

verus! {

} // verus!
