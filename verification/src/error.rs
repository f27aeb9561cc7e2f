use vstd::prelude::*;

verus! {

/// Why the protocol refused a packet or failed.
#[derive(Debug, Clone, Copy, PartialEq, Eq, Structural)]
pub enum Error {
    /// A packet that the current round does not expect, or a second one from the same peer.
    UnexpectedPacket,
    /// A peer reported that the candidates it received disagree.
    PeerReportedFailure,
}

impl Error {
    /// The human-readable description of the error.
    pub fn message(&self) -> (text: String)
        ensures
            text@ == Error::spec_message(*self)@,
    {
        match self {
            Error::UnexpectedPacket => "Unexpected Packet".to_string(),
            Error::PeerReportedFailure => "Peer Reported Failure".to_string(),
        }
    }

    /// The text of each error.
    pub open spec fn spec_message(self) -> &'static str {
        match self {
            Error::UnexpectedPacket => "Unexpected Packet",
            Error::PeerReportedFailure => "Peer Reported Failure",
        }
    }
}

} // verus!
