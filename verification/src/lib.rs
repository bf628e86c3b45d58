//! A peer-to-peer host manager: address books partitioned by colour
//! (Grey/White/Gold/Black/Dark) with promotion and demotion rules, a
//! per-address state machine that serialises concurrent operations,
//! gossip filtering, transport mixing and TSV persistence.

use vstd::prelude::*;

pub mod addr;
pub mod codec;
pub mod container;
pub mod hosts;
pub mod laws;
pub mod proposal;
pub mod state;
pub mod trusted;

verus! {

/// Errors surfaced by the host manager.
#[derive(Clone, Copy, Debug, PartialEq, Eq, Structural)]
pub enum NetError {
    /// A registry transition was forbidden; carries the (from, to) pair.
    HostStateBlocked(StateKind, StateKind),
    /// A host colour that the operation does not accept.
    InvalidHostColor,
}

/// The bare kind of a registry state, used to name transitions in errors.
#[derive(Clone, Copy, Debug, PartialEq, Eq, Structural)]
pub enum StateKind {
    Insert,
    Refine,
    Connect,
    Suspend,
    Connected,
    Move,
    Free,
}

} // verus!
