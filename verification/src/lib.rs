use vstd::prelude::*;

pub mod blsmr;
pub mod bullshark;
pub mod client;
pub mod cmd_map;
pub mod hotstuff;
pub mod ordering;
pub mod quorum;
pub mod random;
pub mod sims;

verus! {

}
