//! The per-address state machine. Every operation on a peer first claims a
//! state here; the table encoded in the `try_*` methods is the sole arbiter
//! of which claims may follow which.

use vstd::prelude::*;
use crate::addr::{Addr, AddrV};
use crate::{NetError, StateKind};

verus! {

/// Session bits carried by a channel, used to tell seed and refinery
/// connections apart from ordinary peers.
pub const SESSION_INBOUND: u32 = 1;

pub const SESSION_OUTBOUND: u32 = 2;

pub const SESSION_MANUAL: u32 = 4;

pub const SESSION_SEED: u32 = 8;

pub const SESSION_REFINE: u32 = 16;

/// An open channel to a peer: an identifier, the session bits it belongs to,
/// and the peer's address.
#[derive(Debug)]
pub struct Channel {
    pub id: u32,
    pub session_type_id: u32,
    pub address: Addr,
}

/// Mathematical image of `Channel`.
pub struct ChannelV {
    pub id: u32,
    pub session_type_id: u32,
    pub address: AddrV,
}

impl View for Channel {
    type V = ChannelV;

    open spec fn view(&self) -> ChannelV {
        ChannelV { id: self.id, session_type_id: self.session_type_id, address: self.address@ }
    }
}

impl Clone for Channel {
    fn clone(&self) -> (r: Self)
        ensures
            r@ == self@,
    {
        Channel { id: self.id, session_type_id: self.session_type_id, address: self.address.clone() }
    }
}

/// The state a registry slot can hold. `Connected` carries the channel so a
/// disconnect can find its way back; `Free` carries the age at which the slot
/// was released.
#[derive(Debug)]
pub enum HostState {
    /// The host is being inserted into a book.
    Insert,
    /// The host is being probed by the refinery.
    Refine,
    /// The host is being dialled.
    Connect,
    /// A dial failed; only the refinery may pick the host up again.
    Suspend,
    /// A connection to the host is open.
    Connected(Channel),
    /// The host is moving between books.
    Move,
    /// The slot is free for any future operation.
    Free(u64),
}

/// Mathematical image of `HostState`.
pub enum HostStateV {
    Insert,
    Refine,
    Connect,
    Suspend,
    Connected(ChannelV),
    Move,
    Free(u64),
}

impl View for HostState {
    type V = HostStateV;

    open spec fn view(&self) -> HostStateV {
        match self {
            HostState::Insert => HostStateV::Insert,
            HostState::Refine => HostStateV::Refine,
            HostState::Connect => HostStateV::Connect,
            HostState::Suspend => HostStateV::Suspend,
            HostState::Connected(c) => HostStateV::Connected(c@),
            HostState::Move => HostStateV::Move,
            HostState::Free(age) => HostStateV::Free(*age),
        }
    }
}

impl Clone for HostState {
    fn clone(&self) -> (r: Self)
        ensures
            r@ == self@,
    {
        match self {
            HostState::Insert => HostState::Insert,
            HostState::Refine => HostState::Refine,
            HostState::Connect => HostState::Connect,
            HostState::Suspend => HostState::Suspend,
            HostState::Connected(c) => HostState::Connected(c.clone()),
            HostState::Move => HostState::Move,
            HostState::Free(age) => HostState::Free(*age),
        }
    }
}

/// The bare kind of a state.
pub open spec fn kind_of(s: HostStateV) -> StateKind {
    match s {
        HostStateV::Insert => StateKind::Insert,
        HostStateV::Refine => StateKind::Refine,
        HostStateV::Connect => StateKind::Connect,
        HostStateV::Suspend => StateKind::Suspend,
        HostStateV::Connected(_) => StateKind::Connected,
        HostStateV::Move => StateKind::Move,
        HostStateV::Free(_) => StateKind::Free,
    }
}

/// The authoritative transition table: whether a slot in state `from` admits
/// a claim of kind `to`.
pub open spec fn transition_allowed(from: HostStateV, to: StateKind) -> bool {
    match to {
        StateKind::Insert => from is Free,
        StateKind::Refine => from is Free || from is Suspend,
        StateKind::Connect => from is Free,
        StateKind::Suspend => from is Move,
        StateKind::Connected => from is Free || from is Refine || from is Connect
            || from is Move,
        StateKind::Move => from is Free || from is Refine || from is Connect
            || from is Connected,
        StateKind::Free => true,
    }
}

impl HostState {
    /// The bare kind of this state.
    pub fn kind(&self) -> (r: StateKind)
        ensures
            r == kind_of(self@),
    {
        match self {
            HostState::Insert => StateKind::Insert,
            HostState::Refine => StateKind::Refine,
            HostState::Connect => StateKind::Connect,
            HostState::Suspend => StateKind::Suspend,
            HostState::Connected(_) => StateKind::Connected,
            HostState::Move => StateKind::Move,
            HostState::Free(_) => StateKind::Free,
        }
    }

    /// Claim `Insert`: only a free slot may be written to a book.
    pub fn try_insert(&self) -> (r: Result<HostState, NetError>)
        ensures
            transition_allowed(self@, StateKind::Insert) ==> (r matches Ok(s) && s@
                == HostStateV::Insert),
            !transition_allowed(self@, StateKind::Insert) ==> r == Err::<HostState, NetError>(
                NetError::HostStateBlocked(kind_of(self@), StateKind::Insert),
            ),
    {
        match self {
            HostState::Free(_) => Ok(HostState::Insert),
            _ => Err(NetError::HostStateBlocked(self.kind(), StateKind::Insert)),
        }
    }

    /// Claim `Refine`: a free or suspended peer may be probed.
    pub fn try_refine(&self) -> (r: Result<HostState, NetError>)
        ensures
            transition_allowed(self@, StateKind::Refine) ==> (r matches Ok(s) && s@
                == HostStateV::Refine),
            !transition_allowed(self@, StateKind::Refine) ==> r == Err::<HostState, NetError>(
                NetError::HostStateBlocked(kind_of(self@), StateKind::Refine),
            ),
    {
        match self {
            HostState::Free(_) => Ok(HostState::Refine),
            HostState::Suspend => Ok(HostState::Refine),
            _ => Err(NetError::HostStateBlocked(self.kind(), StateKind::Refine)),
        }
    }

    /// Claim `Connect`: only a free peer may be dialled.
    pub fn try_connect(&self) -> (r: Result<HostState, NetError>)
        ensures
            transition_allowed(self@, StateKind::Connect) ==> (r matches Ok(s) && s@
                == HostStateV::Connect),
            !transition_allowed(self@, StateKind::Connect) ==> r == Err::<HostState, NetError>(
                NetError::HostStateBlocked(kind_of(self@), StateKind::Connect),
            ),
    {
        match self {
            HostState::Free(_) => Ok(HostState::Connect),
            _ => Err(NetError::HostStateBlocked(self.kind(), StateKind::Connect)),
        }
    }

    /// Claim `Connected`: a dial, a probe, a move or a fresh inbound peer may
    /// end in an open channel.
    pub fn try_connected(&self, channel: Channel) -> (r: Result<HostState, NetError>)
        ensures
            transition_allowed(self@, StateKind::Connected) ==> (r matches Ok(s) && s@
                == HostStateV::Connected(channel@)),
            !transition_allowed(self@, StateKind::Connected) ==> r == Err::<HostState, NetError>(
                NetError::HostStateBlocked(kind_of(self@), StateKind::Connected),
            ),
    {
        match self {
            HostState::Refine => Ok(HostState::Connected(channel)),
            HostState::Connect => Ok(HostState::Connected(channel)),
            HostState::Move => Ok(HostState::Connected(channel)),
            HostState::Free(_) => Ok(HostState::Connected(channel)),
            _ => Err(NetError::HostStateBlocked(self.kind(), StateKind::Connected)),
        }
    }

    /// Claim `Move`: a peer being probed, dialled, connected or free may be
    /// moved between books.
    pub fn try_move(&self) -> (r: Result<HostState, NetError>)
        ensures
            transition_allowed(self@, StateKind::Move) ==> (r matches Ok(s) && s@
                == HostStateV::Move),
            !transition_allowed(self@, StateKind::Move) ==> r == Err::<HostState, NetError>(
                NetError::HostStateBlocked(kind_of(self@), StateKind::Move),
            ),
    {
        match self {
            HostState::Refine => Ok(HostState::Move),
            HostState::Connect => Ok(HostState::Move),
            HostState::Connected(_) => Ok(HostState::Move),
            HostState::Free(_) => Ok(HostState::Move),
            _ => Err(NetError::HostStateBlocked(self.kind(), StateKind::Move)),
        }
    }

    /// Claim `Suspend`: only a peer in transit may be suspended.
    pub fn try_suspend(&self) -> (r: Result<HostState, NetError>)
        ensures
            transition_allowed(self@, StateKind::Suspend) ==> (r matches Ok(s) && s@
                == HostStateV::Suspend),
            !transition_allowed(self@, StateKind::Suspend) ==> r == Err::<HostState, NetError>(
                NetError::HostStateBlocked(kind_of(self@), StateKind::Suspend),
            ),
    {
        match self {
            HostState::Move => Ok(HostState::Suspend),
            _ => Err(NetError::HostStateBlocked(self.kind(), StateKind::Suspend)),
        }
    }

    /// Claim `Free`: always allowed; releases the slot with an age stamp.
    pub fn try_free(&self, age: u64) -> (r: Result<HostState, NetError>)
        ensures
            r matches Ok(s) && s@ == HostStateV::Free(if self@ is Free {
                self@->Free_0
            } else {
                age
            }),
    {
        match self {
            HostState::Free(a) => Ok(HostState::Free(*a)),
            _ => Ok(HostState::Free(age)),
        }
    }
}

/// Law: a claim of fresh work on an address (an insert or a dial) is admitted
/// only from the `Free` state. Since the registry holds one state per address
/// and a successful claim writes the claimed state into the slot, at most one
/// worker can hold a non-`Free` state for an address at any time; a second
/// insert or dial is blocked until the holder frees the slot.
pub proof fn lemma_claims_are_exclusive(cur: HostStateV, k: StateKind)
    requires
        !(cur is Free),
        k == StateKind::Insert || k == StateKind::Connect,
    ensures
        !transition_allowed(cur, k),
{
}

} // verus!
