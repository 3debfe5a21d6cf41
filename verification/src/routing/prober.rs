//! What the routing table asks of the network: a liveness probe, and the
//! policy by which one probe is made of up to three attempts.

use super::entry::Endpoint;
use crate::network::errors::NetworkError;
use vstd::prelude::*;

verus! {

/// Measures whether a peer is alive. An implementation makes up to
/// `PING_MAX_RETRY` attempts of at most `T_MAX_MS` each, `PING_INTERVAL_MS`
/// apart, and answers with the latency in milliseconds of the first that
/// succeeded, or with the failure of the last.
pub trait Prober {
    fn probe(&mut self, addr: Endpoint) -> Result<u128, NetworkError>;
}

/// What to do after one attempt of a probe.
#[derive(Clone, Copy, Debug, PartialEq, Eq, Structural)]
pub enum ProbeStep {
    /// The peer answered: the probe succeeded with this latency.
    Succeeded(u128),
    /// The attempt failed and another is due after this many milliseconds.
    Retry(u64),
    /// Every attempt failed; this is the failure of the last.
    Failed(NetworkError),
}

/// What `next_probe_step` answers.
pub open spec fn probe_step(attempts_made: usize, last: Result<u128, NetworkError>) -> ProbeStep {
    match last {
        Ok(rtt) => ProbeStep::Succeeded(rtt),
        Err(kind) => if attempts_made < 3 {
            ProbeStep::Retry(200)
        } else {
            ProbeStep::Failed(kind)
        },
    }
}

/// Decides, after the attempt numbered `attempts_made` (counted from one)
/// returned `last`, whether the probe is over.
pub fn next_probe_step(attempts_made: usize, last: Result<u128, NetworkError>) -> (step: ProbeStep)
    ensures
        step == probe_step(attempts_made, last),
{
    match last {
        Ok(rtt) => ProbeStep::Succeeded(rtt),
        Err(kind) => {
            if attempts_made < crate::PING_MAX_RETRY {
                ProbeStep::Retry(crate::PING_INTERVAL_MS)
            } else {
                ProbeStep::Failed(kind)
            }
        },
    }
}

} // verus!
