use vstd::prelude::*;

pub mod id;
pub mod closest;
pub mod store;
pub mod node;
pub mod network;

verus! {

/// Kademlia's bucket size: the most peers a routing table holds, and the most
/// entries a lookup returns.
pub const K: usize = 8;

/// Concurrency factor: the most peers contacted per lookup round.
pub const ALPHA: usize = 3;

/// Hard bound on lookup rounds, guaranteeing termination even when the
/// shortlist never converges.
pub const MAX_STEPS: usize = 8;

} // verus!
