use vstd::prelude::*;
use crate::error::Error;
use crate::pdu::{Inbound, Outbound, Payload};
use crate::protocol::{
    accepts, agree, first_present, lemma_first_present, next_outbound, outcome_of, receive,
    round_index, send_next, step, total, verdict,
};
use crate::state::{
    all_present, empty_slots, filled_slots, lemma_present_all, lemma_present_of_full, present,
    slot_count, StateView,
};
use crate::sums::{lemma_partial_sums_add_up_to_secrets, partial_sums_of, received_by};
use crate::value::{residue_sum, Value};

verus! {

/// Rounds only move forward: asking a party for packets never takes it back to an earlier
/// round, and receiving a packet never changes its round.
pub proof fn lemma_rounds_only_move_forward<V: Value>(n: nat, s: StateView<V>, inbound: Inbound<V>)
    ensures
        round_index(next_outbound(n, s).0) >= round_index(s),
        round_index(receive(s, inbound).0) == round_index(s),
    decreases 7 - round_index(s),
{
    if step(n, s).1 is None {
        lemma_rounds_only_move_forward(n, step(n, s).0, inbound);
    }
}

/// A party that has nothing to send keeps having nothing to send, and stays in the same
/// state, until it receives a packet.
pub proof fn lemma_waiting_is_stable<V: Value>(n: nat, s: StateView<V>)
    requires
        next_outbound(n, s).1 is None,
    ensures
        next_outbound(n, next_outbound(n, s).0) == (next_outbound(n, s).0, None::<Outbound<V>>),
    decreases 7 - round_index(s),
{
    if step(n, s).1 is None {
        lemma_waiting_is_stable(n, step(n, s).0);
    }
}

/// A second packet that a round takes from the same sender is refused.
pub proof fn lemma_second_packet_refused<V>(s: StateView<V>, first: Inbound<V>, second: Inbound<V>)
    requires
        accepts(s, first.payload),
        accepts(s, second.payload),
        first.from == second.from,
        first.from < slot_count(s),
    ensures
        receive(receive(s, first).0, second).1 == Err::<(), Error>(Error::UnexpectedPacket),
{
}

/// A packet that the round does not take changes nothing, and in the last round a refused
/// status changes nothing either: a repeated status cannot overwrite one received, so an
/// ABORT stays an ABORT.
pub proof fn lemma_refused_packet_changes_nothing<V>(s: StateView<V>, inbound: Inbound<V>)
    requires
        receive(s, inbound).1 is Err,
        !accepts(s, inbound.payload) || s is Round4Receiving,
    ensures
        receive(s, inbound).0 == s,
{
}

/// In rounds 2 and 3 a repeated share, sum or candidate is refused, yet it replaces the one
/// stored for its sender.
pub proof fn lemma_repeated_value_replaces<V>(s: StateView<V>, first: Inbound<V>, second: Inbound<V>)
    requires
        accepts(s, first.payload),
        accepts(s, second.payload),
        !(s is Round4Receiving),
        first.from == second.from,
        first.from < slot_count(s),
    ensures
        receive(receive(s, first).0, second) == (
            receive(s, second).0,
            Err::<(), Error>(Error::UnexpectedPacket),
        ),
{
    match (s, first.payload, second.payload) {
        (StateView::Round2Receiving(x), Payload::Share(a), Payload::Share(b)) => {
            assert(x.update(first.from as int, Some(a)).update(second.from as int, Some(b))
                =~= x.update(second.from as int, Some(b)));
        },
        (StateView::Round3Receiving(x), Payload::Sum(a), Payload::Sum(b)) => {
            assert(x.update(first.from as int, Some(a)).update(second.from as int, Some(b))
                =~= x.update(second.from as int, Some(b)));
        },
        (StateView::Round3Checking(_, x), Payload::Candidate(a), Payload::Candidate(b)) => {
            assert(x.update(first.from as int, Some(a)).update(second.from as int, Some(b))
                =~= x.update(second.from as int, Some(b)));
        },
        _ => {},
    }
}

/// Packets from different senders can be taken in either order, with the same answers and
/// the same state after both.
pub proof fn lemma_deliveries_commute<V>(s: StateView<V>, a: Inbound<V>, b: Inbound<V>)
    requires
        a.from != b.from,
        a.from < slot_count(s),
        b.from < slot_count(s),
    ensures
        receive(receive(s, a).0, b).0 == receive(receive(s, b).0, a).0,
        receive(receive(s, a).0, b).1 == receive(s, b).1,
        receive(receive(s, b).0, a).1 == receive(s, a).1,
{
    let (t, _) = receive(s, a);
    let (u, _) = receive(s, b);
    match (s, a.payload, b.payload) {
        (StateView::Round2Receiving(x), Payload::Share(va), Payload::Share(vb)) => {
            assert(x.update(a.from as int, Some(va)).update(b.from as int, Some(vb)) =~= x.update(
                b.from as int,
                Some(vb),
            ).update(a.from as int, Some(va)));
        },
        (StateView::Round3Receiving(x), Payload::Sum(va), Payload::Sum(vb)) => {
            assert(x.update(a.from as int, Some(va)).update(b.from as int, Some(vb)) =~= x.update(
                b.from as int,
                Some(vb),
            ).update(a.from as int, Some(va)));
        },
        (StateView::Round3Checking(_, x), Payload::Candidate(va), Payload::Candidate(vb)) => {
            assert(x.update(a.from as int, Some(va)).update(b.from as int, Some(vb)) =~= x.update(
                b.from as int,
                Some(vb),
            ).update(a.from as int, Some(va)));
        },
        (StateView::Round4Receiving(_, x), Payload::Status(va), Payload::Status(vb)) => {
            assert(x.update(a.from as int, Some(va)).update(b.from as int, Some(vb)) =~= x.update(
                b.from as int,
                Some(vb),
            ).update(a.from as int, Some(va)));
        },
        _ => {},
    }
}

/// Each step moves a party at most one round on: a step that moves on goes to the next
/// round, any other step stays in the round.
pub proof fn lemma_step_moves_at_most_one_round<V: Value>(n: nat, s: StateView<V>)
    ensures
        step(n, s).1 is None ==> round_index(step(n, s).0) == round_index(s) + 1,
        step(n, s).1 is Some ==> round_index(step(n, s).0) == round_index(s),
{
}

/// A party knows its outcome only in the last round; it is the candidate kept exactly when
/// every peer reported success, and a failure exactly when some peer reported failure and
/// every peer before it reported success.
pub proof fn lemma_outcome_needs_every_success<V>(s: StateView<V>)
    ensures
        !(s is Round4Receiving) ==> outcome_of(s) == Ok::<Option<V>, Error>(None),
        s matches StateView::Round4Receiving(candidate, statuses) ==> {
            &&& (outcome_of(s) == Ok::<Option<V>, Error>(Some(candidate))) == (forall|j: int|
                0 <= j < statuses.len() ==> statuses[j] == Some(true))
            &&& (outcome_of(s) == Err::<Option<V>, Error>(Error::PeerReportedFailure)) == (exists|
                i: int,
            |
                0 <= i < statuses.len() && statuses[i] == Some(false) && forall|j: int|
                    0 <= j < i ==> statuses[j] == Some(true))
            &&& outcome_of(s) is Ok && outcome_of(s)->Ok_0 is Some ==> outcome_of(s) == Ok::<
                Option<V>,
                Error,
            >(Some(candidate))
        },
{
    if let StateView::Round4Receiving(candidate, statuses) = s {
        lemma_verdict(statuses, candidate);
    }
}

/// The verdict read from statuses, stated without recursion.
proof fn lemma_verdict<V>(statuses: Seq<Option<bool>>, candidate: V)
    ensures
        (verdict(statuses, candidate) == Ok::<Option<V>, Error>(Some(candidate))) == (forall|j: int|
            0 <= j < statuses.len() ==> statuses[j] == Some(true)),
        (verdict(statuses, candidate) == Err::<Option<V>, Error>(Error::PeerReportedFailure)) == (
        exists|i: int|
            0 <= i < statuses.len() && statuses[i] == Some(false) && forall|j: int|
                0 <= j < i ==> statuses[j] == Some(true)),
        verdict(statuses, candidate) is Ok && verdict(statuses, candidate)->Ok_0 is Some
            ==> verdict(statuses, candidate) == Ok::<Option<V>, Error>(Some(candidate)),
        verdict(statuses, candidate) is Err ==> verdict(statuses, candidate) == Err::<
            Option<V>,
            Error,
        >(Error::PeerReportedFailure),
    decreases statuses.len(),
{
    if statuses.len() > 0 {
        let rest = statuses.drop_first();
        lemma_verdict(rest, candidate);
        if statuses[0] == Some(true) {
            assert forall|j: int| 0 < j < statuses.len() implies statuses[j] == rest[j - 1] by {}
            if exists|i: int|
                0 <= i < statuses.len() && statuses[i] == Some(false) && forall|j: int|
                    0 <= j < i ==> statuses[j] == Some(true) {
                let i = choose|i: int|
                    0 <= i < statuses.len() && statuses[i] == Some(false) && forall|j: int|
                        0 <= j < i ==> statuses[j] == Some(true);
                assert(rest[i - 1] == Some(false));
                assert forall|j: int| 0 <= j < i - 1 implies rest[j] == Some(true) by {
                    assert(statuses[j + 1] == Some(true));
                }
            }
            if exists|i: int|
                0 <= i < rest.len() && rest[i] == Some(false) && forall|j: int|
                    0 <= j < i ==> rest[j] == Some(true) {
                let i = choose|i: int|
                    0 <= i < rest.len() && rest[i] == Some(false) && forall|j: int|
                        0 <= j < i ==> rest[j] == Some(true);
                assert(statuses[i + 1] == Some(false));
                assert forall|j: int| 0 <= j < i + 1 implies statuses[j] == Some(true) by {
                    if j > 0 {
                        assert(rest[j - 1] == Some(true));
                    }
                }
            }
            if forall|j: int| 0 <= j < rest.len() ==> rest[j] == Some(true) {
                assert forall|j: int| 0 <= j < statuses.len() implies statuses[j] == Some(true) by {
                    if j > 0 {
                        assert(rest[j - 1] == Some(true));
                    }
                }
            }
        } else if statuses[0] == Some(false) {
            assert(0 <= 0 < statuses.len() && statuses[0] == Some(false) && forall|j: int|
                0 <= j < 0 ==> statuses[j] == Some(true));
        } else {
            if exists|i: int|
                0 <= i < statuses.len() && statuses[i] == Some(false) && forall|j: int|
                    0 <= j < i ==> statuses[j] == Some(true) {
                let i = choose|i: int|
                    0 <= i < statuses.len() && statuses[i] == Some(false) && forall|j: int|
                        0 <= j < i ==> statuses[j] == Some(true);
                if i > 0 {
                    assert(statuses[0] == Some(true));
                }
            }
        }
    }
}

/// The state reached and the packets handed out, in order, by `k` successive requests
/// for the next packet.
pub open spec fn outbounds_after<V: Value>(n: nat, s: StateView<V>, k: nat) -> (StateView<V>, Seq<
    Option<Outbound<V>>,
>)
    decreases k,
{
    if k == 0 {
        (s, Seq::empty())
    } else {
        let (next, first) = next_outbound(n, s);
        let (last, rest) = outbounds_after(n, next, (k - 1) as nat);
        (last, seq![first] + rest)
    }
}

/// The slots with the first `k` emptied.
pub open spec fn emptied_before<T>(slots: Seq<Option<T>>, k: int) -> Seq<Option<T>> {
    Seq::new(slots.len(), |i: int| if i < k { None } else { slots[i] })
}

/// The packets of a sending round from slot `k` on, in order: slot `j` to party `j`.
pub open spec fn packets_from<T, V>(slots: Seq<Option<T>>, packet: spec_fn(T) -> Payload<V>, k: int) -> Seq<
    Option<Outbound<V>>,
> {
    Seq::new(
        (slots.len() - k) as nat,
        |j: int| Some(Outbound { to: (k + j) as usize, payload: packet(slots[k + j]->0) }),
    )
}

/// A sending round whose slots all hold values hands the value of slot `j` to party `j`,
/// once each and in order, and then moves on to `done`, where it waits.
proof fn lemma_sending_round<T, V: Value>(
    n: nat,
    slots: Seq<Option<T>>,
    k: int,
    stay: spec_fn(Seq<Option<T>>) -> StateView<V>,
    packet: spec_fn(T) -> Payload<V>,
    done: StateView<V>,
)
    requires
        slots.len() == n,
        all_present(slots),
        0 <= k <= n,
        forall|x: Seq<Option<T>>| #[trigger] step(n, stay(x)) == send_next(x, stay, packet, done),
        next_outbound(n, done) == (done, None::<Outbound<V>>),
    ensures
        outbounds_after(n, stay(emptied_before(slots, k)), (n - k + 1) as nat) == (
            done,
            packets_from(slots, packet, k).push(None),
        ),
    decreases n - k,
{
    let x = emptied_before(slots, k);
    lemma_first_present(x);
    reveal_with_fuel(next_outbound, 2);
    reveal_with_fuel(outbounds_after, 2);
    assert(step(n, stay(x)) == send_next(x, stay, packet, done));
    if k == n {
        assert(first_present(x) is None) by {
            if let Some(i) = first_present(x) {
                assert(x[i] is None);
            }
        }
        assert(packets_from(slots, packet, k).push(None) =~= seq![None::<Outbound<V>>]);
        assert(seq![None::<Outbound<V>>] + Seq::<Option<Outbound<V>>>::empty() =~= seq![
            None::<Outbound<V>>,
        ]);
    } else {
        assert(x[k] is Some);
        assert(first_present(x) == Some(k)) by {
            if let Some(i) = first_present(x) {
                if i < k {
                    assert(x[i] is None);
                } else if i > k {
                    assert(x[k] is None);
                }
            }
        }
        assert(x.update(k, None) =~= emptied_before(slots, k + 1));
        lemma_sending_round(n, slots, k + 1, stay, packet, done);
        let first = Some(Outbound { to: k as usize, payload: packet(slots[k]->0) });
        assert(next_outbound(n, stay(x)) == (stay(emptied_before(slots, k + 1)), first));
        assert(seq![first] + packets_from(slots, packet, k + 1).push(None) =~= packets_from(
            slots,
            packet,
            k,
        ).push(None));
    }
}

/// A step that moves on changes nothing of what the following requests hand out.
proof fn lemma_moving_on<V: Value>(n: nat, s: StateView<V>, k: nat)
    requires
        step(n, s).1 is None,
        k > 0,
    ensures
        outbounds_after(n, s, k) == outbounds_after(n, step(n, s).0, k),
{
    reveal_with_fuel(next_outbound, 2);
    assert(next_outbound(n, s) == next_outbound(n, step(n, s).0));
}

/// Round 1 hands share `j` to party `j`, exactly once each and in order of the parties;
/// the request after the last share finds the party waiting for the shares of the others.
pub proof fn lemma_round1_sends_each_share_once<V: Value>(n: nat, shares: Seq<Option<V>>)
    requires
        n > 0,
        shares.len() == n,
        all_present(shares),
    ensures
        outbounds_after(n, StateView::Round1Sending(shares), n + 1) == (
            StateView::Round2Receiving(empty_slots::<V>(n)),
            Seq::new(
                n,
                |j: int| Some(Outbound { to: j as usize, payload: Payload::Share(shares[j]->0) }),
            ).push(None),
        ),
{
    let stay = |x: Seq<Option<V>>| StateView::Round1Sending(x);
    let packet = |v: V| Payload::Share(v);
    let done = StateView::Round2Receiving(empty_slots::<V>(n));
    lemma_waiting_round(n, done);
    assert forall|x: Seq<Option<V>>| #[trigger] step(n, stay(x)) == send_next(x, stay, packet, done) by {}
    lemma_sending_round(n, shares, 0, stay, packet, done);
    assert(emptied_before(shares, 0) =~= shares);
    assert(packets_from(shares, packet, 0).push(None) =~= Seq::new(
        n,
        |j: int| Some(Outbound { to: j as usize, payload: Payload::Share(shares[j]->0) }),
    ).push(None));
}

/// Once a share has arrived from every party, the party hands the wrapping sum of those
/// shares to every party, once each and in order, and then waits for their sums.
pub proof fn lemma_round2_sends_sum_to_everyone<V: Value>(n: nat, shares: Seq<Option<V>>)
    requires
        n > 0,
        shares.len() == n,
        all_present(shares),
    ensures
        outbounds_after(n, StateView::Round2Receiving(shares), n + 1) == (
            StateView::Round3Receiving(empty_slots::<V>(n)),
            Seq::new(
                n,
                |j: int| Some(Outbound { to: j as usize, payload: Payload::Sum(total(shares)) }),
            ).push(None),
        ),
{
    let slots = filled_slots(n, total(shares));
    let stay = |x: Seq<Option<V>>| StateView::Round2Sending(x);
    let packet = |v: V| Payload::Sum(v);
    let done = StateView::Round3Receiving(empty_slots::<V>(n));
    lemma_waiting_round(n, done);
    lemma_moving_on(n, StateView::Round2Receiving(shares), n + 1);
    assert forall|x: Seq<Option<V>>| #[trigger] step(n, stay(x)) == send_next(x, stay, packet, done) by {}
    lemma_sending_round(n, slots, 0, stay, packet, done);
    assert(emptied_before(slots, 0) =~= slots);
    assert(packets_from(slots, packet, 0).push(None) =~= Seq::new(
        n,
        |j: int| Some(Outbound { to: j as usize, payload: Payload::Sum(total(shares)) }),
    ).push(None));
}

/// Once a sum has arrived from every party, the party takes their wrapping total as its
/// candidate, hands it to every party, once each and in order, and then waits for theirs.
pub proof fn lemma_round3_sends_candidate_to_everyone<V: Value>(n: nat, sums: Seq<Option<V>>)
    requires
        n > 0,
        sums.len() == n,
        all_present(sums),
    ensures
        outbounds_after(n, StateView::Round3Receiving(sums), n + 1) == (
            StateView::Round3Checking(total(sums), empty_slots::<V>(n)),
            Seq::new(
                n,
                |j: int| Some(Outbound { to: j as usize, payload: Payload::Candidate(total(sums)) }),
            ).push(None),
        ),
{
    let own = total(sums);
    let slots = filled_slots(n, own);
    let stay = |x: Seq<Option<V>>| StateView::Round3Sending(own, x);
    let packet = |v: V| Payload::Candidate(v);
    let done = StateView::Round3Checking(own, empty_slots::<V>(n));
    lemma_waiting_round(n, done);
    lemma_moving_on(n, StateView::Round3Receiving(sums), n + 1);
    assert forall|x: Seq<Option<V>>| #[trigger] step(n, stay(x)) == send_next(x, stay, packet, done) by {}
    lemma_sending_round(n, slots, 0, stay, packet, done);
    assert(emptied_before(slots, 0) =~= slots);
    assert(packets_from(slots, packet, 0).push(None) =~= Seq::new(
        n,
        |j: int| Some(Outbound { to: j as usize, payload: Payload::Candidate(own) }),
    ).push(None));
}

/// The status a party sends in round 3 is SUCCESS exactly when every candidate it received
/// equals its own: a single candidate that differs makes it ABORT, to every party.
pub proof fn lemma_status_is_success_iff_all_candidates_equal_own<V: Value>(
    n: nat,
    own: V,
    candidates: Seq<Option<V>>,
    j: int,
)
    requires
        n > 0,
        candidates.len() == n,
        all_present(candidates),
        0 <= j < n,
    ensures
        outbounds_after(n, StateView::Round3Checking(own, candidates), n + 1).1[j] == Some(
            Outbound {
                to: j as usize,
                payload: Payload::<V>::Status(
                    forall|k: int| 0 <= k < n ==> candidates[k] == Some(own),
                ),
            },
        ),
        (exists|k: int| 0 <= k < n && candidates[k] != Some(own)) ==> outbounds_after(
            n,
            StateView::Round3Checking(own, candidates),
            n + 1,
        ).1[j] == Some(Outbound { to: j as usize, payload: Payload::<V>::Status(false) }),
        (forall|k: int| 0 <= k < n ==> candidates[k] == Some(own)) ==> outbounds_after(
            n,
            StateView::Round3Checking(own, candidates),
            n + 1,
        ).1[j] == Some(Outbound { to: j as usize, payload: Payload::<V>::Status(true) }),
{
    lemma_round3_reports_agreement(n, own, candidates);
}

/// A packet is taken only by the round it belongs to: a share in round 2, a sum or a
/// candidate in round 3, a status in round 4. Any other packet is refused and changes
/// nothing.
pub proof fn lemma_packet_of_another_round_refused<V>(s: StateView<V>, inbound: Inbound<V>)
    ensures
        receive(s, inbound).1 is Ok ==> {
            ||| (s is Round2Receiving && inbound.payload is Share)
            ||| (s is Round3Receiving && inbound.payload is Sum)
            ||| (s is Round3Checking && inbound.payload is Candidate)
            ||| (s is Round4Receiving && inbound.payload is Status)
        },
        !{
            ||| (s is Round2Receiving && inbound.payload is Share)
            ||| (s is Round3Receiving && inbound.payload is Sum)
            ||| (s is Round3Checking && inbound.payload is Candidate)
            ||| (s is Round4Receiving && inbound.payload is Status)
        } ==> receive(s, inbound) == (s, Err::<(), Error>(Error::UnexpectedPacket)),
{
}

/// Once a candidate has arrived from every party, the party tells every party, once each
/// and in order, whether all of them equal its own candidate (SUCCESS) or not (ABORT),
/// and then waits for their statuses.
pub proof fn lemma_round3_reports_agreement<V: Value>(n: nat, own: V, candidates: Seq<Option<V>>)
    requires
        n > 0,
        candidates.len() == n,
        all_present(candidates),
    ensures
        outbounds_after(n, StateView::Round3Checking(own, candidates), n + 1) == (
            StateView::Round4Receiving(own, empty_slots::<bool>(n)),
            Seq::new(
                n,
                |j: int|
                    Some(
                        Outbound {
                            to: j as usize,
                            payload: Payload::<V>::Status(agree(candidates, own)),
                        },
                    ),
            ).push(None),
        ),
{
    let agreed = agree(candidates, own);
    let slots = filled_slots(n, agreed);
    let stay = |x: Seq<Option<bool>>| StateView::Round4Sending(own, x);
    let packet = |b: bool| Payload::<V>::Status(b);
    let done = StateView::Round4Receiving(own, empty_slots::<bool>(n));
    lemma_waiting_round(n, done);
    lemma_moving_on(n, StateView::Round3Checking(own, candidates), n + 1);
    assert forall|x: Seq<Option<bool>>| #[trigger] step(n, stay(x)) == send_next(x, stay, packet, done) by {}
    lemma_sending_round(n, slots, 0, stay, packet, done);
    assert(emptied_before(slots, 0) =~= slots);
    assert(packets_from(slots, packet, 0).push(None) =~= Seq::new(
        n,
        |j: int| Some(Outbound { to: j as usize, payload: Payload::<V>::Status(agreed) }),
    ).push(None));
}

/// A party whose receiving round still lacks a packet waits: asked for a packet, it hands
/// out none and stays as it is.
pub proof fn lemma_incomplete_round_waits<V: Value>(n: nat, s: StateView<V>)
    requires
        match s {
            StateView::Round2Receiving(slots) => !all_present(slots),
            StateView::Round3Receiving(slots) => !all_present(slots),
            StateView::Round3Checking(_, slots) => !all_present(slots),
            StateView::Round4Receiving(..) => true,
            _ => false,
        },
    ensures
        next_outbound(n, s) == (s, None::<Outbound<V>>),
{
}

/// A receiving round with every slot empty waits.
proof fn lemma_waiting_round<V: Value>(n: nat, s: StateView<V>)
    requires
        n > 0,
        s matches StateView::Round2Receiving(x) ==> x == empty_slots::<V>(n),
        s matches StateView::Round3Receiving(x) ==> x == empty_slots::<V>(n),
        s matches StateView::Round3Checking(_, x) ==> x == empty_slots::<V>(n),
        s is Round2Receiving || s is Round3Receiving || s is Round3Checking || s is Round4Receiving,
    ensures
        next_outbound(n, s) == (s, None::<Outbound<V>>),
{
    assert(empty_slots::<V>(n)[0] is None);
}

/// Receiving packets one after the other: the state after them all, and the answer to each.
pub open spec fn deliver_all<V>(s: StateView<V>, inbounds: Seq<Inbound<V>>) -> (StateView<V>, Seq<
    Result<(), Error>,
>)
    decreases inbounds.len(),
{
    if inbounds.len() == 0 {
        (s, Seq::empty())
    } else {
        let (before, answers) = deliver_all(s, inbounds.drop_last());
        let (after, answer) = receive(before, inbounds.last());
        (after, answers.push(answer))
    }
}

/// `n` slots, slot `i` holding `values[i]` for `i < k` and the others empty.
pub open spec fn filled_before<T>(values: Seq<T>, n: nat, k: int) -> Seq<Option<T>> {
    Seq::new(n, |i: int| if i < k { Some(values[i]) } else { None })
}

/// The packets that carry `values[i]` from party `i`, for the first `k` parties, in order.
pub open spec fn packets_in<T, V>(values: Seq<T>, packet: spec_fn(T) -> Payload<V>, k: nat) -> Seq<
    Inbound<V>,
> {
    Seq::new(k, |i: int| Inbound { from: i as usize, payload: packet(values[i]) })
}

/// A receiving round with every slot empty takes one packet from each party in turn,
/// accepting each, and ends with slot `i` holding what party `i` sent.
proof fn lemma_receiving_round<T, V>(
    n: nat,
    values: Seq<T>,
    k: nat,
    stay: spec_fn(Seq<Option<T>>) -> StateView<V>,
    packet: spec_fn(T) -> Payload<V>,
)
    requires
        n <= usize::MAX,
        values.len() == n,
        k <= n,
        forall|x: Seq<Option<T>>, from: usize, v: T|
            from < n && x.len() == n && x[from as int] is None ==> #[trigger] receive(
                stay(x),
                Inbound { from, payload: packet(v) },
            ) == (stay(x.update(from as int, Some(v))), Ok::<(), Error>(())),
    ensures
        deliver_all(stay(empty_slots(n)), packets_in(values, packet, k)) == (
            stay(filled_before(values, n, k as int)),
            Seq::new(k, |i: int| Ok::<(), Error>(())),
        ),
    decreases k,
{
    if k == 0 {
        assert(filled_before(values, n, 0) =~= empty_slots::<T>(n));
        assert(Seq::new(0, |i: int| Ok::<(), Error>(())) =~= Seq::<Result<(), Error>>::empty());
    } else {
        let before = (k - 1) as nat;
        lemma_receiving_round(n, values, before, stay, packet);
        assert(packets_in(values, packet, k).drop_last() =~= packets_in(values, packet, before));
        let last = Inbound { from: (k - 1) as usize, payload: packet(values[k - 1]) };
        assert(packets_in(values, packet, k).last() == last);
        assert(receive(stay(filled_before(values, n, before as int)), last) == (
            stay(filled_before(values, n, before as int).update(k - 1, Some(values[k - 1]))),
            Ok::<(), Error>(()),
        ));
        assert(filled_before(values, n, before as int).update(k - 1, Some(values[k - 1]))
            =~= filled_before(values, n, k as int));
        assert(Seq::new(before, |i: int| Ok::<(), Error>(())).push(Ok(())) =~= Seq::new(
            k,
            |i: int| Ok::<(), Error>(()),
        ));
    }
}

/// What a party hands out when asked `n + 1` times, and its state after.
pub open spec fn send_phase<V: Value>(n: nat, s: StateView<V>) -> (StateView<V>, Seq<
    Option<Outbound<V>>,
>) {
    outbounds_after(n, s, n + 1)
}

/// What party `j` takes in an exchange: packet `j` of each party, in order of senders.
pub open spec fn inbox<V: Value>(n: nat, parties: Seq<StateView<V>>, j: int) -> Seq<Inbound<V>> {
    Seq::new(
        n,
        |i: int| Inbound { from: i as usize, payload: send_phase(n, parties[i]).1[j]->0.payload },
    )
}

/// One exchange among `n` parties: each party is asked for packets `n + 1` times, then
/// each party `j` takes packet `j` of every party, in order of senders.
pub open spec fn exchange<V: Value>(n: nat, parties: Seq<StateView<V>>) -> Seq<StateView<V>> {
    Seq::new(n, |j: int| deliver_all(send_phase(n, parties[j]).0, inbox(n, parties, j)).0)
}

/// An exchange goes as the protocol means it to: packet `j` of every party is addressed to
/// party `j`, the last request to each party finds it waiting, and every packet is taken.
pub open spec fn exchange_is_clean<V: Value>(n: nat, parties: Seq<StateView<V>>) -> bool {
    &&& forall|i: int, j: int|
        0 <= i < n && 0 <= j < n ==> (#[trigger] send_phase(n, parties[i]).1[j] matches Some(o)
            && o.to == j)
    &&& forall|i: int| 0 <= i < n ==> #[trigger] send_phase(n, parties[i]).1[n as int] is None
    &&& forall|j: int, t: int|
        0 <= j < n && 0 <= t < n ==> #[trigger] deliver_all(
            send_phase(n, parties[j]).0,
            inbox(n, parties, j),
        ).1[t] == Ok::<(), Error>(())
}

/// An exchange in which every party is in the same sending round, with every slot full:
/// party `j` ends in the next receiving round holding, in slot `i`, what party `i` had for it.
proof fn lemma_uniform_exchange<T, V: Value>(
    n: nat,
    parties: Seq<StateView<V>>,
    rows: Seq<Seq<Option<T>>>,
    stay: spec_fn(Seq<Option<T>>) -> StateView<V>,
    packet: spec_fn(T) -> Payload<V>,
    receiving: spec_fn(Seq<Option<T>>) -> StateView<V>,
)
    requires
        0 < n <= usize::MAX,
        parties.len() == n,
        rows.len() == n,
        forall|i: int| 0 <= i < n ==> (#[trigger] rows[i]).len() == n && all_present(rows[i]),
        forall|i: int|
            0 <= i < n ==> #[trigger] send_phase(n, parties[i]) == send_phase(n, stay(rows[i])),
        forall|x: Seq<Option<T>>|
            #[trigger] step(n, stay(x)) == send_next(x, stay, packet, receiving(empty_slots(n))),
        next_outbound(n, receiving(empty_slots(n))) == (
            receiving(empty_slots(n)),
            None::<Outbound<V>>,
        ),
        forall|x: Seq<Option<T>>, from: usize, v: T|
            from < n && x.len() == n && x[from as int] is None ==> #[trigger] receive(
                receiving(x),
                Inbound { from, payload: packet(v) },
            ) == (receiving(x.update(from as int, Some(v))), Ok::<(), Error>(())),
    ensures
        exchange_is_clean(n, parties),
        forall|j: int|
            0 <= j < n ==> #[trigger] exchange(n, parties)[j] == receiving(
                Seq::new(n, |i: int| rows[i][j]),
            ),
{
    let done = receiving(empty_slots(n));
    assert forall|i: int| 0 <= i < n implies #[trigger] send_phase(n, parties[i]) == (
        done,
        packets_from(rows[i], packet, 0).push(None),
    ) by {
        lemma_sending_round(n, rows[i], 0, stay, packet, done);
        assert(emptied_before(rows[i], 0) =~= rows[i]);
    }
    assert forall|i: int, j: int| 0 <= i < n && 0 <= j < n implies #[trigger] send_phase(
        n,
        parties[i],
    ).1[j] == Some(Outbound { to: j as usize, payload: packet(rows[i][j]->0) }) by {
        assert(send_phase(n, parties[i]).1 == packets_from(rows[i], packet, 0).push(None));
    }
    assert forall|j: int| 0 <= j < n implies #[trigger] deliver_all(
        send_phase(n, parties[j]).0,
        inbox(n, parties, j),
    ) == (receiving(Seq::new(n, |i: int| rows[i][j])), Seq::new(n, |t: int| Ok::<(), Error>(())))
        by {
        let column = Seq::new(n, |i: int| rows[i][j]->0);
        assert forall|i: int| 0 <= i < n implies #[trigger] inbox(n, parties, j)[i] == packets_in(
            column,
            packet,
            n,
        )[i] by {
            assert(send_phase(n, parties[i]).1[j] == Some(
                Outbound { to: j as usize, payload: packet(rows[i][j]->0) },
            ));
        }
        assert(inbox(n, parties, j) =~= packets_in(column, packet, n));
        assert(send_phase(n, parties[j]).0 == done);
        lemma_receiving_round(n, column, n, receiving, packet);
        assert forall|i: int| 0 <= i < n implies #[trigger] filled_before(column, n, n as int)[i]
            == rows[i][j] by {
            assert(rows[i][j] is Some);
        }
        assert(filled_before(column, n, n as int) =~= Seq::new(n, |i: int| rows[i][j]));
    }
    assert forall|i: int| 0 <= i < n implies #[trigger] send_phase(n, parties[i]).1[n as int]
        is None by {
        assert(send_phase(n, parties[i]).1 == packets_from(rows[i], packet, 0).push(None));
    }
}

/// The slots of a party in round 1.
pub open spec fn round1_slots<V>(s: StateView<V>) -> Seq<Option<V>> {
    match s {
        StateView::Round1Sending(slots) => slots,
        _ => Seq::empty(),
    }
}

/// Slot `j` of every row, as a column.
pub open spec fn column_slots<T>(rows: Seq<Seq<Option<T>>>, j: int) -> Seq<Option<T>> {
    Seq::new(rows.len(), |i: int| rows[i][j])
}

/// An honest run of `n` parties, each starting as `Protocol::new` leaves it (its secret split
/// into `n` shares that add up to it): over four exchanges every packet goes to the party it
/// is addressed to and is accepted, and every party ends with the wrapping sum of all the
/// secrets as its outcome.
pub proof fn lemma_honest_run_returns_sum_of_secrets<V: Value>(
    n: nat,
    parties: Seq<StateView<V>>,
    secrets: Seq<V>,
)
    requires
        0 < n <= usize::MAX,
        parties.len() == n,
        secrets.len() == n,
        forall|i: int|
            0 <= i < n ==> (#[trigger] parties[i] matches StateView::Round1Sending(slots)
                && slots.len() == n && all_present(slots) && residue_sum(present(slots))
                % V::modulus() == secrets[i].residue()),
    ensures
        exchange_is_clean(n, parties),
        exchange_is_clean(n, exchange(n, parties)),
        exchange_is_clean(n, exchange(n, exchange(n, parties))),
        exchange_is_clean(n, exchange(n, exchange(n, exchange(n, parties)))),
        forall|j: int|
            0 <= j < n ==> #[trigger] outcome_of(
                exchange(n, exchange(n, exchange(n, exchange(n, parties))))[j],
            ) == Ok::<Option<V>, Error>(Some(V::from_residue(residue_sum(secrets)))),
{
    let m = V::modulus();
    let rows = Seq::new(n, |i: int| round1_slots(parties[i]));
    let splits = Seq::new(n, |i: int| present(rows[i]));
    assert forall|i: int| 0 <= i < n implies (#[trigger] rows[i]).len() == n && all_present(
        rows[i],
    ) && parties[i] == StateView::Round1Sending(rows[i]) by {}
    assert forall|i: int, j: int| 0 <= i < n && 0 <= j < n implies #[trigger] rows[i][j] == Some(
        splits[i][j],
    ) by {
        lemma_present_of_full(rows[i]);
    }
    // Exchange 1: the shares.
    let stay1 = |x: Seq<Option<V>>| StateView::Round1Sending(x);
    let packet1 = |v: V| Payload::Share(v);
    let receiving1 = |x: Seq<Option<V>>| StateView::Round2Receiving(x);
    lemma_waiting_round(n, receiving1(empty_slots(n)));
    assert forall|x: Seq<Option<V>>| #[trigger] step(n, stay1(x)) == send_next(
        x,
        stay1,
        packet1,
        receiving1(empty_slots(n)),
    ) by {}
    assert forall|x: Seq<Option<V>>, from: usize, v: V| from < n && x.len() == n && x[from as int] is None implies #[trigger] receive(
        receiving1(x),
        Inbound { from, payload: packet1(v) },
    ) == (receiving1(x.update(from as int, Some(v))), Ok::<(), Error>(())) by {}
    lemma_uniform_exchange(n, parties, rows, stay1, packet1, receiving1);
    let second = exchange(n, parties);
    // Exchange 2: the partial sums.
    let partial = |j: int| total(column_slots(rows, j));
    let rows2 = Seq::new(n, |j: int| filled_slots(n, partial(j)));
    let stay2 = |x: Seq<Option<V>>| StateView::Round2Sending(x);
    let packet2 = |v: V| Payload::Sum(v);
    let receiving2 = |x: Seq<Option<V>>| StateView::Round3Receiving(x);
    assert forall|j: int| 0 <= j < n implies #[trigger] send_phase(n, second[j]) == send_phase(
        n,
        stay2(rows2[j]),
    ) by {
        assert(second[j] == StateView::Round2Receiving(column_slots(rows, j))) by {
            assert(Seq::new(n, |i: int| rows[i][j]) =~= column_slots(rows, j));
        }
        assert(all_present(column_slots(rows, j)));
        lemma_moving_on(n, second[j], n + 1);
    }
    lemma_waiting_round(n, receiving2(empty_slots(n)));
    assert forall|x: Seq<Option<V>>| #[trigger] step(n, stay2(x)) == send_next(
        x,
        stay2,
        packet2,
        receiving2(empty_slots(n)),
    ) by {}
    assert forall|x: Seq<Option<V>>, from: usize, v: V| from < n && x.len() == n && x[from as int] is None implies #[trigger] receive(
        receiving2(x),
        Inbound { from, payload: packet2(v) },
    ) == (receiving2(x.update(from as int, Some(v))), Ok::<(), Error>(())) by {}
    assert forall|j: int| 0 <= j < n implies (#[trigger] rows2[j]).len() == n && all_present(
        rows2[j],
    ) by {}
    lemma_uniform_exchange(n, second, rows2, stay2, packet2, receiving2);
    let third = exchange(n, second);
    let sums = Seq::new(n, |i: int| Some(partial(i)));
    assert forall|j: int| 0 <= j < n implies #[trigger] third[j] == StateView::Round3Receiving(
        sums,
    ) by {
        assert(Seq::new(n, |i: int| rows2[i][j]) =~= sums);
    }
    // Exchange 3: the candidates.
    let x = total(sums);
    let rows3 = Seq::new(n, |j: int| filled_slots(n, x));
    let stay3 = |y: Seq<Option<V>>| StateView::Round3Sending(x, y);
    let packet3 = |v: V| Payload::Candidate(v);
    let receiving3 = |y: Seq<Option<V>>| StateView::Round3Checking(x, y);
    assert(all_present(sums));
    assert forall|j: int| 0 <= j < n implies #[trigger] send_phase(n, third[j]) == send_phase(
        n,
        stay3(rows3[j]),
    ) by {
        lemma_moving_on(n, third[j], n + 1);
    }
    lemma_waiting_round(n, receiving3(empty_slots(n)));
    assert forall|y: Seq<Option<V>>| #[trigger] step(n, stay3(y)) == send_next(
        y,
        stay3,
        packet3,
        receiving3(empty_slots(n)),
    ) by {}
    assert forall|y: Seq<Option<V>>, from: usize, v: V| from < n && y.len() == n && y[from as int] is None implies #[trigger] receive(
        receiving3(y),
        Inbound { from, payload: packet3(v) },
    ) == (receiving3(y.update(from as int, Some(v))), Ok::<(), Error>(())) by {}
    assert forall|j: int| 0 <= j < n implies (#[trigger] rows3[j]).len() == n && all_present(
        rows3[j],
    ) by {}
    lemma_uniform_exchange(n, third, rows3, stay3, packet3, receiving3);
    let fourth = exchange(n, third);
    assert forall|j: int| 0 <= j < n implies #[trigger] fourth[j] == StateView::Round3Checking(
        x,
        filled_slots(n, x),
    ) by {
        assert(Seq::new(n, |i: int| rows3[i][j]) =~= filled_slots(n, x));
    }
    // Exchange 4: the statuses, all SUCCESS.
    let rows4 = Seq::new(n, |j: int| filled_slots(n, true));
    let stay4 = |y: Seq<Option<bool>>| StateView::Round4Sending(x, y);
    let packet4 = |b: bool| Payload::<V>::Status(b);
    let receiving4 = |y: Seq<Option<bool>>| StateView::Round4Receiving(x, y);
    assert(all_present(filled_slots(n, x)));
    assert(agree(filled_slots(n, x), x));
    assert forall|j: int| 0 <= j < n implies #[trigger] send_phase(n, fourth[j]) == send_phase(
        n,
        stay4(rows4[j]),
    ) by {
        lemma_moving_on(n, fourth[j], n + 1);
    }
    lemma_waiting_round(n, receiving4(empty_slots(n)));
    assert forall|y: Seq<Option<bool>>| #[trigger] step(n, stay4(y)) == send_next(
        y,
        stay4,
        packet4,
        receiving4(empty_slots(n)),
    ) by {}
    assert forall|y: Seq<Option<bool>>, from: usize, b: bool| from < n && y.len() == n && y[from as int] is None implies #[trigger] receive(
        receiving4(y),
        Inbound { from, payload: packet4(b) },
    ) == (receiving4(y.update(from as int, Some(b))), Ok::<(), Error>(())) by {}
    assert forall|j: int| 0 <= j < n implies (#[trigger] rows4[j]).len() == n && all_present(
        rows4[j],
    ) by {}
    lemma_uniform_exchange(n, fourth, rows4, stay4, packet4, receiving4);
    let last = exchange(n, fourth);
    // The candidate is the sum of the secrets.
    let target = V::from_residue(residue_sum(secrets));
    assert(x == target) by {
        lemma_present_all(sums, Seq::new(n, |i: int| partial(i)));
        assert forall|i: int| 0 <= i < n implies #[trigger] column_slots(rows, i) == received_by(
            splits,
            i,
        ) by {
            assert(column_slots(rows, i) =~= received_by(splits, i));
        }
        assert(Seq::new(n, |i: int| partial(i)) =~= partial_sums_of(splits));
        assert forall|i: int| 0 <= i < n implies (#[trigger] splits[i]).len() == n && residue_sum(
            splits[i],
        ) % m == secrets[i].residue() by {
            lemma_present_of_full(rows[i]);
        }
        lemma_partial_sums_add_up_to_secrets(splits, secrets);
        V::lemma_ring(x, target, residue_sum(present(sums)));
        V::lemma_ring(target, x, residue_sum(secrets));
    }
    assert forall|j: int| 0 <= j < n implies #[trigger] outcome_of(last[j]) == Ok::<
        Option<V>,
        Error,
    >(Some(target)) by {
        assert(last[j] == StateView::Round4Receiving(x, filled_slots(n, true))) by {
            assert(Seq::new(n, |i: int| rows4[i][j]) =~= filled_slots(n, true));
        }
        lemma_verdict(filled_slots(n, true), x);
    }
}

/// A call made on a party: asking it for its next packet, or handing it a packet.
pub enum PartyCall<V> {
    Ask,
    Deliver(Inbound<V>),
}

/// A party with `n` peers after a sequence of calls: its state, and the packets it handed
/// out, in order.
pub open spec fn after_calls<V: Value>(n: nat, s: StateView<V>, calls: Seq<PartyCall<V>>) -> (
    StateView<V>,
    Seq<Outbound<V>>,
)
    decreases calls.len(),
{
    if calls.len() == 0 {
        (s, Seq::empty())
    } else {
        let (before, sent) = after_calls(n, s, calls.drop_last());
        match calls.last() {
            PartyCall::Ask => {
                let (after, out) = next_outbound(n, before);
                (
                    after,
                    match out {
                        Some(o) => sent.push(o),
                        None => sent,
                    },
                )
            },
            PartyCall::Deliver(inbound) => (receive(before, inbound).0, sent),
        }
    }
}

/// The round order of the kinds of packets: shares, sums, candidates, statuses.
pub open spec fn packet_kind<V>(payload: Payload<V>) -> int {
    match payload {
        Payload::Share(_) => 0,
        Payload::Sum(_) => 1,
        Payload::Candidate(_) => 2,
        Payload::Status(_) => 3,
    }
}

/// The kind of packet a state sends, or sent last.
spec fn kind_of_state<V>(s: StateView<V>) -> int {
    match s {
        StateView::Round1Sending(_) => 0,
        StateView::Round2Receiving(_) => 0,
        StateView::Round2Sending(_) => 1,
        StateView::Round3Receiving(_) => 1,
        StateView::Round3Sending(..) => 2,
        StateView::Round3Checking(..) => 2,
        StateView::Round4Sending(..) => 3,
        StateView::Round4Receiving(..) => 3,
    }
}

/// In a sending round, slot `j` is empty.
spec fn sent_slot_empty<V>(s: StateView<V>, j: int) -> bool {
    match s {
        StateView::Round1Sending(x) => x[j] is None,
        StateView::Round2Sending(x) => x[j] is None,
        StateView::Round3Sending(_, x) => x[j] is None,
        StateView::Round4Sending(_, x) => x[j] is None,
        _ => true,
    }
}

/// The packets handed out so far fit the state: addressed to the `n` parties, of kinds in
/// round order up to the state's, no party twice of one kind, and each party sent the
/// state's kind has its slot emptied.
spec fn sent_fits<V>(n: nat, s: StateView<V>, sent: Seq<Outbound<V>>) -> bool {
    &&& slot_count(s) == n
    &&& forall|t: int|
        0 <= t < sent.len() ==> (#[trigger] sent[t]).to < n && packet_kind(sent[t].payload)
            <= kind_of_state(s)
    &&& forall|t1: int, t2: int|
        #![trigger sent[t1], sent[t2]]
        0 <= t1 < t2 < sent.len() ==> packet_kind(sent[t1].payload) <= packet_kind(
            sent[t2].payload,
        ) && (sent[t1].to == sent[t2].to ==> packet_kind(sent[t1].payload) != packet_kind(
            sent[t2].payload,
        ))
    &&& forall|t: int|
        0 <= t < sent.len() && packet_kind((#[trigger] sent[t]).payload) == kind_of_state(s)
            ==> sent_slot_empty(s, sent[t].to as int)
}

/// One step keeps the packets handed out fitting the state.
proof fn lemma_step_fits<V: Value>(n: nat, s: StateView<V>, sent: Seq<Outbound<V>>)
    requires
        n <= usize::MAX,
        sent_fits(n, s, sent),
    ensures
        match step(n, s) {
            (t, Some(Some(o))) => sent_fits(n, t, sent.push(o)),
            (t, _) => sent_fits(n, t, sent),
        },
{
    let (t, r) = step(n, s);
    match s {
        StateView::Round1Sending(x) => lemma_first_present(x),
        StateView::Round2Sending(x) => lemma_first_present(x),
        StateView::Round3Sending(_, x) => lemma_first_present(x),
        StateView::Round4Sending(_, x) => lemma_first_present(x),
        _ => {},
    }
    if let Some(Some(o)) = r {
        let sent2 = sent.push(o);
        assert(kind_of_state(t) == kind_of_state(s));
        assert(packet_kind(o.payload) == kind_of_state(s));
        assert(!sent_slot_empty(s, o.to as int));
        assert(sent_slot_empty(t, o.to as int));
        assert forall|t1: int| 0 <= t1 < sent.len() && packet_kind(sent[t1].payload)
            == kind_of_state(s) implies sent[t1].to != o.to && sent_slot_empty(
            t,
            sent[t1].to as int,
        ) by {
            assert(sent_slot_empty(s, sent[t1].to as int));
        }
        assert forall|t1: int| 0 <= t1 < sent2.len() implies (#[trigger] sent2[t1]).to < n
            && packet_kind(sent2[t1].payload) <= kind_of_state(t) by {
            if t1 < sent.len() {
                assert(sent2[t1] == sent[t1]);
            }
        }
        assert forall|t1: int, t2: int|
            #![trigger sent2[t1], sent2[t2]]
            0 <= t1 < t2 < sent2.len() implies packet_kind(sent2[t1].payload) <= packet_kind(
                sent2[t2].payload,
            ) && (sent2[t1].to == sent2[t2].to ==> packet_kind(sent2[t1].payload) != packet_kind(
                sent2[t2].payload,
            )) by {
            assert(sent2[t1] == sent[t1]);
            if t2 < sent.len() {
                assert(sent2[t2] == sent[t2]);
            } else {
                assert(sent2[t2] == o);
                assert(sent[t1].to < n && packet_kind(sent[t1].payload) <= kind_of_state(s));
            }
        }
        assert forall|t1: int|
            0 <= t1 < sent2.len() && packet_kind((#[trigger] sent2[t1]).payload) == kind_of_state(
                t,
            ) implies sent_slot_empty(t, sent2[t1].to as int) by {
            if t1 < sent.len() {
                assert(sent2[t1] == sent[t1]);
            }
        }
    } else if r is None {
        assert(kind_of_state(t) >= kind_of_state(s));
        assert forall|t1: int|
            0 <= t1 < sent.len() && packet_kind((#[trigger] sent[t1]).payload) == kind_of_state(t)
                implies sent_slot_empty(t, sent[t1].to as int) by {
            assert(sent[t1].to < n && packet_kind(sent[t1].payload) <= kind_of_state(s));
        }
    }
}

/// Asking for a packet keeps the packets handed out fitting the state.
proof fn lemma_next_outbound_fits<V: Value>(n: nat, s: StateView<V>, sent: Seq<Outbound<V>>)
    requires
        n <= usize::MAX,
        sent_fits(n, s, sent),
    ensures
        match next_outbound(n, s) {
            (t, Some(o)) => sent_fits(n, t, sent.push(o)),
            (t, None) => sent_fits(n, t, sent),
        },
    decreases 7 - round_index(s),
{
    lemma_step_fits(n, s, sent);
    if step(n, s).1 is None {
        lemma_next_outbound_fits(n, step(n, s).0, sent);
    }
}

/// Receiving a packet keeps the packets handed out fitting the state.
proof fn lemma_receive_fits<V>(n: nat, s: StateView<V>, sent: Seq<Outbound<V>>, inbound: Inbound<
    V,
>)
    requires
        sent_fits(n, s, sent),
        inbound.from < n,
    ensures
        sent_fits(n, receive(s, inbound).0, sent),
{
}

/// Over any sequence of calls on a party that starts in round 1 with `n` slots, as
/// `Protocol::new` leaves it, the packets it hands out are addressed to its `n` parties,
/// come in round order (shares, then sums, then candidates, then statuses), and no party is
/// handed two packets of one kind.
pub proof fn lemma_packets_come_in_round_order<V: Value>(
    n: nat,
    slots: Seq<Option<V>>,
    calls: Seq<PartyCall<V>>,
)
    requires
        n <= usize::MAX,
        slots.len() == n,
        forall|t: int|
            0 <= t < calls.len() ==> (#[trigger] calls[t] matches PartyCall::Deliver(inbound)
                ==> inbound.from < n),
    ensures
        ({
            let sent = after_calls(n, StateView::Round1Sending(slots), calls).1;
            &&& forall|t: int| 0 <= t < sent.len() ==> (#[trigger] sent[t]).to < n
            &&& forall|t1: int, t2: int|
                #![trigger sent[t1], sent[t2]]
                0 <= t1 < t2 < sent.len() ==> packet_kind(sent[t1].payload) <= packet_kind(
                    sent[t2].payload,
                )
            &&& forall|t1: int, t2: int|
                #![trigger sent[t1], sent[t2]]
                0 <= t1 < t2 < sent.len() && sent[t1].to == sent[t2].to ==> packet_kind(
                    sent[t1].payload,
                ) != packet_kind(sent[t2].payload)
        }),
{
    lemma_calls_fit(n, StateView::Round1Sending(slots), calls);
}

/// Any sequence of calls keeps the packets handed out fitting the state.
proof fn lemma_calls_fit<V: Value>(n: nat, s: StateView<V>, calls: Seq<PartyCall<V>>)
    requires
        n <= usize::MAX,
        sent_fits(n, s, Seq::empty()),
        forall|t: int|
            0 <= t < calls.len() ==> (#[trigger] calls[t] matches PartyCall::Deliver(inbound)
                ==> inbound.from < n),
    ensures
        sent_fits(n, after_calls(n, s, calls).0, after_calls(n, s, calls).1),
    decreases calls.len(),
{
    if calls.len() > 0 {
        let front = calls.drop_last();
        assert forall|t: int| 0 <= t < front.len() implies (#[trigger] front[t] matches PartyCall::Deliver(inbound)
            ==> inbound.from < n) by {
            assert(front[t] == calls[t]);
        }
        lemma_calls_fit(n, s, front);
        let (before, sent) = after_calls(n, s, front);
        match calls.last() {
            PartyCall::Ask => lemma_next_outbound_fits(n, before, sent),
            PartyCall::Deliver(inbound) => {
                assert(calls[calls.len() - 1] == calls.last());
                lemma_receive_fits(n, before, sent, inbound);
            },
        }
    }
}

} // verus!
