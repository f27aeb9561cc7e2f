use vstd::prelude::*;
use crate::error::Error;
use crate::pdu::{Inbound, Outbound, Payload};
use crate::state::{all_present, empty_slots, filled_slots, present, slot_count, State, StateView};
use crate::value::{lemma_residue_sum_push, residue_sum, Value};

verus! {

// ---------------------------------------------------------------------------------------
// The model of one party
// ---------------------------------------------------------------------------------------

/// The first slot that holds a value, if any.
pub open spec fn first_present<T>(slots: Seq<Option<T>>) -> Option<int>
    decreases slots.len(),
{
    if slots.len() == 0 {
        None
    } else if slots[0] is Some {
        Some(0)
    } else {
        match first_present(slots.drop_first()) {
            Some(i) => Some(i + 1),
            None => None,
        }
    }
}

/// The wrapping sum of the values received.
pub open spec fn total<V: Value>(slots: Seq<Option<V>>) -> V {
    V::from_residue(residue_sum(present(slots)))
}

/// Whether every slot holds `value`.
pub open spec fn agree<V>(slots: Seq<Option<V>>, value: V) -> bool {
    forall|j: int| 0 <= j < slots.len() ==> slots[j] == Some(value)
}

/// The position of a round in the order of the protocol.
pub open spec fn round_index<V>(s: StateView<V>) -> int {
    match s {
        StateView::Round1Sending(_) => 0,
        StateView::Round2Receiving(_) => 1,
        StateView::Round2Sending(_) => 2,
        StateView::Round3Receiving(_) => 3,
        StateView::Round3Sending(..) => 4,
        StateView::Round3Checking(..) => 5,
        StateView::Round4Sending(..) => 6,
        StateView::Round4Receiving(..) => 7,
    }
}

/// A sending round asked for a packet: it hands out the packet for the first slot that
/// still holds a value, built by `packet`, and empties that slot (the round is rebuilt from
/// its slots by `stay`); with every slot empty it moves on to `done`.
pub open spec fn send_next<T, V>(
    slots: Seq<Option<T>>,
    stay: spec_fn(Seq<Option<T>>) -> StateView<V>,
    packet: spec_fn(T) -> Payload<V>,
    done: StateView<V>,
) -> (StateView<V>, Option<Option<Outbound<V>>>) {
    match first_present(slots) {
        Some(to) => (
            stay(slots.update(to, None)),
            Some(Some(Outbound { to: to as usize, payload: packet(slots[to]->0) })),
        ),
        None => (done, None),
    }
}

/// One step of a party with `n` peers that has nothing to receive: it sends the next
/// pending packet (`Some(Some(..))`), finds that it must wait for packets (`Some(None)`),
/// or moves on to the next round (`None`).
pub open spec fn step<V: Value>(n: nat, s: StateView<V>) -> (StateView<V>, Option<Option<Outbound<V>>>) {
    match s {
        StateView::Round1Sending(slots) => send_next(
            slots,
            |x: Seq<Option<V>>| StateView::Round1Sending(x),
            |v: V| Payload::Share(v),
            StateView::Round2Receiving(empty_slots(n)),
        ),
        StateView::Round2Receiving(slots) => if all_present(slots) {
            (StateView::Round2Sending(filled_slots(n, total(slots))), None)
        } else {
            (s, Some(None))
        },
        StateView::Round2Sending(slots) => send_next(
            slots,
            |x: Seq<Option<V>>| StateView::Round2Sending(x),
            |v: V| Payload::Sum(v),
            StateView::Round3Receiving(empty_slots(n)),
        ),
        StateView::Round3Receiving(slots) => if all_present(slots) {
            (StateView::Round3Sending(total(slots), filled_slots(n, total(slots))), None)
        } else {
            (s, Some(None))
        },
        StateView::Round3Sending(own, slots) => send_next(
            slots,
            |x: Seq<Option<V>>| StateView::Round3Sending(own, x),
            |v: V| Payload::Candidate(v),
            StateView::Round3Checking(own, empty_slots(n)),
        ),
        StateView::Round3Checking(own, slots) => if all_present(slots) {
            (StateView::Round4Sending(own, filled_slots(n, agree(slots, own))), None)
        } else {
            (s, Some(None))
        },
        StateView::Round4Sending(own, slots) => send_next(
            slots,
            |x: Seq<Option<bool>>| StateView::Round4Sending(own, x),
            |b: bool| Payload::Status(b),
            StateView::Round4Receiving(own, empty_slots(n)),
        ),
        StateView::Round4Receiving(..) => (s, Some(None)),
    }
}

/// Asking a party with `n` peers for its next packet: it steps until it sends a packet
/// or has to wait.
pub open spec fn next_outbound<V: Value>(n: nat, s: StateView<V>) -> (StateView<V>, Option<
    Outbound<V>,
>)
    decreases 7 - round_index(s),
{
    let (next, sent) = step(n, s);
    match sent {
        Some(outbound) => (next, outbound),
        None => next_outbound(n, next),
    }
}

/// Whether the round of `s` takes packets that carry `payload`.
pub open spec fn accepts<V>(s: StateView<V>, payload: Payload<V>) -> bool {
    match (s, payload) {
        (StateView::Round2Receiving(_), Payload::Share(_)) => true,
        (StateView::Round3Receiving(_), Payload::Sum(_)) => true,
        (StateView::Round3Checking(..), Payload::Candidate(_)) => true,
        (StateView::Round4Receiving(..), Payload::Status(_)) => true,
        _ => false,
    }
}

/// A receiving round given `value` from party `from`: stored in that party's slot, over
/// what was there; refused if the slot was already filled.
pub open spec fn store<T, V>(
    slots: Seq<Option<T>>,
    from: int,
    value: T,
    stay: spec_fn(Seq<Option<T>>) -> StateView<V>,
) -> (StateView<V>, Result<(), Error>) {
    (stay(slots.update(from, Some(value))), slot_answer(slots[from]))
}

/// The last receiving round given `status` from party `from`: stored in that party's slot
/// if the slot is empty; refused, with nothing changed, if it is already filled, so that a
/// repeated status never overwrites one received (an ABORT stays an ABORT).
pub open spec fn store_first<V>(
    slots: Seq<Option<bool>>,
    from: int,
    status: bool,
    stay: spec_fn(Seq<Option<bool>>) -> StateView<V>,
) -> (StateView<V>, Result<(), Error>) {
    if slots[from] is Some {
        (stay(slots), Err(Error::UnexpectedPacket))
    } else {
        (stay(slots.update(from, Some(status))), Ok(()))
    }
}

/// The answer to a packet for a slot: refused if the slot was already filled.
pub open spec fn slot_answer<T>(slot: Option<T>) -> Result<(), Error> {
    if slot is Some {
        Err(Error::UnexpectedPacket)
    } else {
        Ok(())
    }
}

/// Receiving a packet: a packet that the round takes is stored in its sender's slot and
/// refused if that slot was filled, where a share, sum or candidate replaces the one stored
/// but a status never replaces one; any other packet is refused and changes nothing.
pub open spec fn receive<V>(s: StateView<V>, inbound: Inbound<V>) -> (StateView<V>, Result<
    (),
    Error,
>) {
    let from = inbound.from as int;
    match (s, inbound.payload) {
        (StateView::Round2Receiving(slots), Payload::Share(share)) => store(
            slots,
            from,
            share,
            |x: Seq<Option<V>>| StateView::Round2Receiving(x),
        ),
        (StateView::Round3Receiving(slots), Payload::Sum(sum)) => store(
            slots,
            from,
            sum,
            |x: Seq<Option<V>>| StateView::Round3Receiving(x),
        ),
        (StateView::Round3Checking(own, slots), Payload::Candidate(candidate)) => store(
            slots,
            from,
            candidate,
            |x: Seq<Option<V>>| StateView::Round3Checking(own, x),
        ),
        (StateView::Round4Receiving(own, slots), Payload::Status(status)) => store_first(
            slots,
            from,
            status,
            |x: Seq<Option<bool>>| StateView::Round4Receiving(own, x),
        ),
        _ => (s, Err(Error::UnexpectedPacket)),
    }
}

/// The verdict of the statuses received, read in order: the first missing status means
/// "not yet", the first failure means failure, and all successes give the candidate.
pub open spec fn verdict<V>(statuses: Seq<Option<bool>>, candidate: V) -> Result<Option<V>, Error>
    decreases statuses.len(),
{
    if statuses.len() == 0 {
        Ok(Some(candidate))
    } else {
        match statuses[0] {
            None => Ok(None),
            Some(false) => Err(Error::PeerReportedFailure),
            Some(true) => verdict(statuses.drop_first(), candidate),
        }
    }
}

/// The outcome of a party: known only in the last round.
pub open spec fn outcome_of<V>(s: StateView<V>) -> Result<Option<V>, Error> {
    match s {
        StateView::Round4Receiving(candidate, statuses) => verdict(statuses, candidate),
        _ => Ok(None),
    }
}

/// The first present slot holds a value and every slot before it is empty; with none,
/// every slot is empty.
pub proof fn lemma_first_present<T>(slots: Seq<Option<T>>)
    ensures
        match first_present(slots) {
            Some(i) => 0 <= i < slots.len() && slots[i] is Some && forall|j: int|
                0 <= j < i ==> slots[j] is None,
            None => forall|j: int| 0 <= j < slots.len() ==> slots[j] is None,
        },
    decreases slots.len(),
{
    if slots.len() > 0 && slots[0] is None {
        lemma_first_present(slots.drop_first());
        assert forall|j: int| 0 < j < slots.len() implies slots[j] == slots.drop_first()[j - 1] by {
        }
    }
}

// ---------------------------------------------------------------------------------------
// The executable party
// ---------------------------------------------------------------------------------------

/// One party of the summing protocol among `N` parties.
#[derive(Debug)]
pub struct Protocol<const N: usize, V> {
    state: State<N, V>,
}

impl<const N: usize, V> View for Protocol<N, V> {
    type V = StateView<V>;

    closed spec fn view(&self) -> StateView<V> {
        self.state@
    }
}

/// The index of the first slot that holds a value.
fn first_present_index<T: Copy, const N: usize>(slots: &[Option<T>; N]) -> (index: Option<usize>)
    ensures
        match index {
            Some(i) => first_present(slots@) == Some(i as int),
            None => first_present(slots@) is None,
        },
{
    proof {
        lemma_first_present(slots@);
    }
    let mut i: usize = 0;
    while i < N
        invariant
            i <= N,
            forall|j: int| 0 <= j < i ==> slots@[j] is None,
        decreases N - i,
    {
        if slots[i].is_some() {
            proof {
                lemma_first_present(slots@);
                assert(slots@[i as int] is Some);
                if let Some(k) = first_present(slots@) {
                    if k < i {
                        assert(slots@[k] is None);
                    } else if k > i {
                        assert(slots@[i as int] is None);
                    }
                }
            }
            return Some(i);
        }
        i = i + 1;
    }
    None
}

impl<const N: usize, V: Value> Protocol<N, V> {
    /// A party that holds `secret`, split at random into `N` shares to send.
    pub fn new(secret: V) -> (protocol: Self)
        requires
            V::count_divides(N as nat),
        ensures
            protocol@ matches StateView::Round1Sending(slots) && all_present(slots) && residue_sum(
                present(slots),
            ) % V::modulus() == secret.residue(),
            slot_count(protocol@) == N as nat,
    {
        let state = State::init(secret);
        Self { state }
    }

    /// A party in the given state.
    pub fn from_state(state: State<N, V>) -> (protocol: Self)
        ensures
            protocol@ == state@,
    {
        Self { state }
    }

    /// The next packet to send, if the party has one before it must wait for packets.
    pub fn take_outbound(&mut self) -> (outbound: Option<Outbound<V>>)
        ensures
            (final(self)@, outbound) == next_outbound(N as nat, old(self)@),
    {
        let ghost start = self@;
        loop
            invariant
                start == old(self)@,
                next_outbound(N as nat, self@) == next_outbound(N as nat, start),
            decreases 7 - round_index(self@),
        {
            let ghost before = self@;
            let sent = self.take_outbound_inner();
            proof {
                reveal_with_fuel(next_outbound, 2);
                assert(next_outbound(N as nat, before) == match step(N as nat, before).1 {
                    Some(outbound) => (step(N as nat, before).0, outbound),
                    None => next_outbound(N as nat, step(N as nat, before).0),
                });
            }
            if let Some(outbound) = sent {
                return outbound;
            }
        }
    }

    /// One step: see `step`.
    fn take_outbound_inner(&mut self) -> (sent: Option<Option<Outbound<V>>>)
        ensures
            (final(self)@, sent) == step(N as nat, old(self)@),
    {
        match &self.state {
            State::Round1Sending(shares_to_send) => {
                proof {
                    lemma_first_present(shares_to_send@);
                }
                match first_present_index(shares_to_send) {
                    Some(to) => {
                        let share = shares_to_send[to].unwrap();
                        let mut rest = *shares_to_send;
                        rest[to] = None;
                        proof {
                            assert(rest@ =~= shares_to_send@.update(to as int, None));
                        }
                        self.state = State::Round1Sending(rest);
                        Some(Some(Outbound { to, payload: Payload::Share(share) }))
                    },
                    None => {
                        let received: [Option<V>; N] = [None; N];
                        proof {
                            assert(received@ =~= empty_slots(N as nat));
                        }
                        self.state = State::Round2Receiving(received);
                        None
                    },
                }
            },
            State::Round2Receiving(shares_received) => {
                if all_slots_present(shares_received) {
                    let sum = sum_present(shares_received);
                    let sums: [Option<V>; N] = [Some(sum); N];
                    proof {
                        assert(sums@ =~= filled_slots(N as nat, sum));
                    }
                    self.state = State::Round2Sending(sums);
                    None
                } else {
                    Some(None)
                }
            },
            State::Round2Sending(sums_to_send) => {
                proof {
                    lemma_first_present(sums_to_send@);
                }
                match first_present_index(sums_to_send) {
                    Some(to) => {
                        let sum = sums_to_send[to].unwrap();
                        let mut rest = *sums_to_send;
                        rest[to] = None;
                        proof {
                            assert(rest@ =~= sums_to_send@.update(to as int, None));
                        }
                        self.state = State::Round2Sending(rest);
                        Some(Some(Outbound { to, payload: Payload::Sum(sum) }))
                    },
                    None => {
                        let received: [Option<V>; N] = [None; N];
                        proof {
                            assert(received@ =~= empty_slots(N as nat));
                        }
                        self.state = State::Round3Receiving(received);
                        None
                    },
                }
            },
            State::Round3Receiving(sums_received) => {
                if all_slots_present(sums_received) {
                    let candidate = sum_present(sums_received);
                    let candidates: [Option<V>; N] = [Some(candidate); N];
                    proof {
                        assert(candidates@ =~= filled_slots(N as nat, candidate));
                    }
                    self.state = State::Round3Sending(candidate, candidates);
                    None
                } else {
                    Some(None)
                }
            },
            State::Round3Sending(own, candidates_to_send) => {
                let own = *own;
                proof {
                    lemma_first_present(candidates_to_send@);
                }
                match first_present_index(candidates_to_send) {
                    Some(to) => {
                        let candidate = candidates_to_send[to].unwrap();
                        let mut rest = *candidates_to_send;
                        rest[to] = None;
                        proof {
                            assert(rest@ =~= candidates_to_send@.update(to as int, None));
                        }
                        self.state = State::Round3Sending(own, rest);
                        Some(Some(Outbound { to, payload: Payload::Candidate(candidate) }))
                    },
                    None => {
                        let received: [Option<V>; N] = [None; N];
                        proof {
                            assert(received@ =~= empty_slots(N as nat));
                        }
                        self.state = State::Round3Checking(own, received);
                        None
                    },
                }
            },
            State::Round3Checking(own, candidates) => {
                let own = *own;
                if !all_slots_present(candidates) {
                    return Some(None);
                }
                let is_success = all_slots_hold(candidates, &own);
                let statuses: [Option<bool>; N] = [Some(is_success); N];
                proof {
                    assert(statuses@ =~= filled_slots(N as nat, is_success));
                }
                self.state = State::Round4Sending(own, statuses);
                None
            },
            State::Round4Sending(candidate, statuses_to_send) => {
                let candidate = *candidate;
                proof {
                    lemma_first_present(statuses_to_send@);
                }
                match first_present_index(statuses_to_send) {
                    Some(to) => {
                        let status = statuses_to_send[to].unwrap();
                        let mut rest = *statuses_to_send;
                        rest[to] = None;
                        proof {
                            assert(rest@ =~= statuses_to_send@.update(to as int, None));
                        }
                        self.state = State::Round4Sending(candidate, rest);
                        Some(Some(Outbound { to, payload: Payload::Status(status) }))
                    },
                    None => {
                        let received: [Option<bool>; N] = [None; N];
                        proof {
                            assert(received@ =~= empty_slots(N as nat));
                        }
                        self.state = State::Round4Receiving(candidate, received);
                        None
                    },
                }
            },
            State::Round4Receiving(..) => Some(None),
        }
    }

    /// Takes a received packet: see `receive`.
    pub fn process_inbound(&mut self, inbound: Inbound<V>) -> (result: Result<(), Error>)
        requires
            accepts(old(self)@, inbound.payload) ==> inbound.from < N,
        ensures
            (final(self)@, result) == receive(old(self)@, inbound),
    {
        let from = inbound.from;
        match (&self.state, inbound.payload) {
            (State::Round2Receiving(shares_received), Payload::Share(share)) => {
                let existing = shares_received[from];
                let mut updated = *shares_received;
                updated[from] = Some(share);
                proof {
                    assert(updated@ =~= shares_received@.update(from as int, Some(share)));
                }
                self.state = State::Round2Receiving(updated);
                if existing.is_some() {
                    return Err(Error::UnexpectedPacket);
                }
            },
            (State::Round3Receiving(sums_received), Payload::Sum(sum)) => {
                let existing = sums_received[from];
                let mut updated = *sums_received;
                updated[from] = Some(sum);
                proof {
                    assert(updated@ =~= sums_received@.update(from as int, Some(sum)));
                }
                self.state = State::Round3Receiving(updated);
                if existing.is_some() {
                    return Err(Error::UnexpectedPacket);
                }
            },
            (State::Round3Checking(own, candidates_received), Payload::Candidate(candidate)) => {
                let own = *own;
                let existing = candidates_received[from];
                let mut updated = *candidates_received;
                updated[from] = Some(candidate);
                proof {
                    assert(updated@ =~= candidates_received@.update(from as int, Some(candidate)));
                }
                self.state = State::Round3Checking(own, updated);
                if existing.is_some() {
                    return Err(Error::UnexpectedPacket);
                }
            },
            (State::Round4Receiving(kept, statuses_received), Payload::Status(status)) => {
                let kept = *kept;
                if statuses_received[from].is_some() {
                    return Err(Error::UnexpectedPacket);
                }
                let mut updated = *statuses_received;
                updated[from] = Some(status);
                proof {
                    assert(updated@ =~= statuses_received@.update(from as int, Some(status)));
                }
                self.state = State::Round4Receiving(kept, updated);
            },
            _ => return Err(Error::UnexpectedPacket),
        }
        Ok(())
    }

    /// The result of the protocol: `Ok(None)` while it runs, the candidate once every
    /// peer reported success, and an error once a peer reported failure.
    pub fn outcome(&self) -> (result: Result<Option<V>, Error>)
        ensures
            result == outcome_of(self@),
    {
        match &self.state {
            State::Round4Receiving(candidate, statuses) => {
                let mut i: usize = 0;
                assert(statuses@.skip(0) =~= statuses@);
                while i < N
                    invariant
                        i <= N,
                        self@ == StateView::Round4Receiving(*candidate, statuses@),
                        verdict(statuses@, *candidate) == verdict(
                            statuses@.skip(i as int),
                            *candidate,
                        ),
                    decreases N - i,
                {
                    proof {
                        assert(statuses@.skip(i as int).drop_first() =~= statuses@.skip(
                            i + 1,
                        ));
                        assert(statuses@.skip(i as int)[0] == statuses@[i as int]);
                    }
                    match statuses[i] {
                        None => return Ok(None),
                        Some(false) => return Err(Error::PeerReportedFailure),
                        Some(true) => {},
                    }
                    i = i + 1;
                }
                Ok(Some(*candidate))
            },
            _ => Ok(None),
        }
    }
}

/// Whether every slot holds a value.
fn all_slots_present<T: Copy, const N: usize>(slots: &[Option<T>; N]) -> (all: bool)
    ensures
        all == all_present(slots@),
{
    let mut i: usize = 0;
    while i < N
        invariant
            i <= N,
            forall|j: int| 0 <= j < i ==> slots[j] is Some,
        decreases N - i,
    {
        if slots[i].is_none() {
            return false;
        }
        i = i + 1;
    }
    true
}

/// Whether every slot holds `value`.
fn all_slots_hold<V: Value, const N: usize>(slots: &[Option<V>; N], value: &V) -> (all: bool)
    ensures
        all == agree(slots@, *value),
        all == (forall|j: int| 0 <= j < N ==> slots@[j] == Some(*value)),
{
    let mut i: usize = 0;
    while i < N
        invariant
            i <= N,
            forall|j: int| 0 <= j < i ==> slots[j] == Some(*value),
        decreases N - i,
    {
        match slots[i] {
            Some(v) => {
                if !v.same_as(value) {
                    return false;
                }
            },
            None => {
                return false;
            },
        }
        i = i + 1;
    }
    true
}

/// The wrapping sum of the values in the slots.
fn sum_present<V: Value, const N: usize>(slots: &[Option<V>; N]) -> (sum: V)
    ensures
        sum == total(slots@),
{
    let ghost m = V::modulus();
    let mut sum = V::zero();
    proof {
        V::lemma_ring(sum, sum, 0);
        assert(slots@.take(0) =~= Seq::<Option<V>>::empty());
    }
    let mut i: usize = 0;
    while i < N
        invariant
            i <= N,
            m == V::modulus(),
            m > 1,
            sum.residue() == residue_sum(present(slots@.take(i as int))) % m,
        decreases N - i,
    {
        let ghost before = present(slots@.take(i as int));
        assert(slots@.take(i + 1).drop_last() =~= slots@.take(i as int));
        assert(slots@.take(i + 1).last() == slots@[i as int]);
        match slots[i] {
            Some(v) => {
                proof {
                    lemma_residue_sum_push(before, v);
                    V::lemma_ring(sum, v, residue_sum(before));
                    V::lemma_ring(v, v, 0);
                    vstd::arithmetic::div_mod::lemma_add_mod_noop(
                        residue_sum(before),
                        v.residue(),
                        m,
                    );
                    vstd::arithmetic::div_mod::lemma_small_mod(v.residue() as nat, m as nat);
                }
                sum.wrapping_add_assign(&v);
            },
            None => {},
        }
        i = i + 1;
    }
    proof {
        assert(slots@.take(N as int) =~= slots@);
        V::lemma_ring(sum, total(slots@), residue_sum(present(slots@)));
    }
    sum
}

} // verus!
