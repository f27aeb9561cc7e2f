use vstd::prelude::*;

verus! {

/// A packet to send: its recipient and what it carries.
#[derive(Debug, Clone, Copy)]
pub struct Outbound<V> {
    pub to: usize,
    pub payload: Payload<V>,
}

/// A received packet: its sender and what it carries.
#[derive(Debug, Clone, Copy)]
pub struct Inbound<V> {
    pub from: usize,
    pub payload: Payload<V>,
}

/// What a packet carries.
#[derive(Debug, Clone, Copy)]
pub enum Payload<V> {
    /// A share of the sender's secret (round 1).
    Share(V),
    /// The sender's candidate for the total of the secrets (round 3).
    Candidate(V),
    /// The wrapping sum of the shares the sender received (round 2).
    Sum(V),
    /// Whether the sender saw every candidate equal its own: SUCCESS or ABORT (round 3).
    Status(bool),
}

} // verus!
