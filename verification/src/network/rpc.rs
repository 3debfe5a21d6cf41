//! The remote calls and their one-byte tags.

use crate::math::u256::U256;
use crate::routing::entry::Endpoint;
use vstd::prelude::*;

verus! {

/// A remote call.
#[derive(Clone, Copy, Debug)]
pub enum Rpc {
    /// Are you alive?
    Ping,
    /// I am.
    Pong,
    /// A node announces itself: its identifier and where it listens.
    Connect((U256, Endpoint)),
    /// Who is closest to this identifier?
    Search(U256),
}

/// The tag of a call.
pub open spec fn tag_of(rpc: Rpc) -> u8 {
    match rpc {
        Rpc::Ping => 0,
        Rpc::Pong => 1,
        Rpc::Connect(_) => 2,
        Rpc::Search(_) => 3,
    }
}

/// What a frame must still deliver once its tag is known.
#[derive(Clone, Copy, Debug, PartialEq, Eq, Structural)]
pub enum FrameStep {
    /// The call is complete as it stands.
    Deliver,
    /// The frame carried a call that the listener does not serve.
    Discard,
}

/// How many bytes the identifier of an announcement takes on the wire.
pub const CONNECT_PAYLOAD_LEN: usize = 32;

/// How long the payload of an announcement may take to arrive, in milliseconds.
pub const CONNECT_PAYLOAD_MS: u64 = 400;

impl Rpc {
    /// The tag that stands for this call on the wire.
    pub fn as_byte(&self) -> (tag: u8)
        ensures
            tag == tag_of(*self),
    {
        match self {
            Rpc::Ping => 0,
            Rpc::Pong => 1,
            Rpc::Connect(_) => 2,
            Rpc::Search(_) => 3,
        }
    }

    /// The call that the first byte of a frame stands for; the payload of
    /// an announcement or of a search is left at zero.
    pub fn from_byte(byte: &[u8]) -> (rpc: Option<Rpc>)
        requires
            byte@.len() >= 1,
        ensures
            byte@[0] > 3 <==> rpc is None,
            rpc matches Some(call) ==> tag_of(call) == byte@[0] && match call {
                Rpc::Connect((id, addr)) => id.to_nat() == 0 && addr == Endpoint::V4(
                    [127u8, 0u8, 0u8, 1u8],
                    0,
                ),
                Rpc::Search(id) => id.to_nat() == 0,
                _ => true,
            },
    {
        match byte[0] {
            0 => Some(Rpc::Ping),
            1 => Some(Rpc::Pong),
            2 => Some(Rpc::Connect((U256::zero(), Endpoint::V4([127, 0, 0, 1], 0)))),
            3 => Some(Rpc::Search(U256::zero())),
            _ => None,
        }
    }

    /// Whether a call read from a frame is handed on: an announcement or a
    /// search is, a ping or its answer is not.
    pub fn frame_step(&self) -> (step: FrameStep)
        ensures
            step == (if tag_of(*self) >= 2 {
                FrameStep::Deliver
            } else {
                FrameStep::Discard
            }),
    {
        match self {
            Rpc::Ping => FrameStep::Discard,
            Rpc::Pong => FrameStep::Discard,
            _ => FrameStep::Deliver,
        }
    }

    /// The announcement that a payload of thirty-two bytes and the sender's
    /// endpoint make.
    pub fn connect_from(payload: &[u8], addr: Endpoint) -> (rpc: Option<Rpc>)
        ensures
            payload@.len() < 32 <==> rpc is None,
            rpc matches Some(call) ==> call matches Rpc::Connect((id, from)) && from == addr
                && id@ == payload@.subrange(0, 32),
    {
        if payload.len() < CONNECT_PAYLOAD_LEN {
            return None;
        }
        let mut number = [0u8; 32];
        let mut i: usize = 0;
        while i < 32
            invariant
                i <= 32 <= payload@.len(),
                forall|j: int| 0 <= j < i ==> number@[j] == payload@[j],
            decreases 32 - i,
        {
            number[i] = payload[i];
            i += 1;
        }
        let id = U256::from(number);
        assert(id@ =~= payload@.subrange(0, 32));
        Some(Rpc::Connect((id, addr)))
    }
}

} // verus!
