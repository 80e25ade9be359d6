//! Errors of the coordination layer.

use vstd::prelude::*;

verus! {

/// Why a step of the coordination layer cannot go on. Every such error ends the
/// whole run: no party can recover its round once another has left it.
#[derive(Clone, Copy, Debug, PartialEq, Eq, Structural)]
pub enum NetError {
    /// The own party id is not below the number of parties of the host list.
    PartyIdOutOfRange,
    /// A collective call was made with the payload form of the other role:
    /// the master must hand one entry per party, a worker none.
    WrongRole,
    /// A sequence does not hold one entry per party.
    WrongLength,
    /// Bytes that should hold one length-prefixed message do not.
    BadFrame,
    /// A group or field element does not decode, or the shares of the parties
    /// do not have the same shape.
    BadShare,
}

} // verus!
