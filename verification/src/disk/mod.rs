//! Where the bytes of the data volume went.
use vstd::prelude::*;

pub mod agent;
pub mod audit;
pub mod claims;
pub mod cleanup;
pub mod limits;
pub mod liveness;
pub mod overview;
pub mod platform;
pub mod progress;
pub mod projects;
pub mod refused;
pub mod report;
pub mod roots;
pub mod scan;
pub mod shares;
pub mod sweep;
pub mod util;

verus! {

} // verus!
