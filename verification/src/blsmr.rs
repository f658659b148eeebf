use vstd::prelude::*;

pub mod dds;
pub mod log;
pub mod pbft;
pub mod process;
pub mod quorum;

verus! {

/// The leaderless replication protocols that the BLSMR process can run.
#[derive(Clone, Copy, PartialEq, Eq, Debug, Structural)]
pub enum BLSMRProtocol {
    EPaxos,
    Wintermute,
    ThreeJane,
}

}
