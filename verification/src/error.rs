//! Error model: the fatal conditions of startup validation, instruction
//! processing and the wire protocol.

use vstd::prelude::*;

verus! {

/// A fatal condition.  Configuration and invariant errors arise at startup;
/// `Decode` and `ChannelClosed` arise while the engine runs.
#[derive(Debug, Clone, Copy, PartialEq, Eq, Structural)]
pub enum AppError {
    /// An instruction names a transition that no net owns, or an immediate
    /// instruction names one this node does not own.
    MissingTransition(usize),
    /// An immediate instruction is marked external; only delayed effects may
    /// cross nodes.
    ImmediateExternal(usize),
    /// A delayed instruction's externality flag contradicts the owner map.
    ExternalityMismatch(usize),
    /// Two transitions carry the same global id.
    DuplicateTransition(usize),
    /// A received line is not a canonical wire message.
    Decode,
    /// A feeding node's inbox was closed while the engine still ran.
    ChannelClosed,
    /// No net files were found.
    NoNets,
    /// No nodes were given.
    NoNodes,
    /// The number of nets differs from the number of nodes.
    NetCountMismatch,
    /// This node's endpoint is not in the node list.
    SelfNotInNodes,
}

} // verus!
