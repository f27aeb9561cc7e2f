use playground::error::Error;
use playground::pdu::{Inbound, Outbound, Payload};
use playground::protocol::Protocol;
use playground::state::State;
use playground::value::Value;

/// Runs `N` parties to the end, delivering every packet at once, and returns their outcomes.
fn run_all<const N: usize, V: Value>(mut parties: Vec<Protocol<N, V>>) -> Vec<Result<Option<V>, Error>> {
    for _ in 0..10 {
        let mut in_flight: Vec<(usize, Outbound<V>)> = Vec::new();
        for (id, party) in parties.iter_mut().enumerate() {
            while let Some(out) = party.take_outbound() {
                in_flight.push((id, out));
            }
        }
        for (from, out) in in_flight {
            let result = parties[out.to].process_inbound(Inbound { from, payload: out.payload });
            assert_eq!(result, Ok(()));
        }
    }
    parties.iter().map(|p| p.outcome()).collect()
}

fn run_random<const N: usize, V: Value + PartialEq>(random: impl Fn() -> V) {
    let secrets: Vec<V> = (0..N).map(|_| random()).collect();
    let mut expected = V::zero();
    for s in &secrets {
        expected.wrapping_add_assign(s);
    }
    let parties: Vec<Protocol<N, V>> = secrets.iter().map(|s| Protocol::new(*s)).collect();
    let outcomes = run_all(parties);
    assert!(outcomes.iter().all(|o| *o == Ok(Some(expected))));
}

#[test]
fn test_all() {
    run_random::<1, u8>(rand::random::<u8>);
    run_random::<2, u8>(rand::random::<u8>);
    run_random::<10, i128>(rand::random::<i128>);
    run_random::<10, u128>(rand::random::<u128>);
}

#[test]
fn test_manual() {
    // The secrets are 44 + 100 = 144 and 3 + 19 = 22: every party learns 166.
    let protocol_0 = Protocol::<2, u16>::from_state(State::Round1Sending([Some(44), Some(100)]));
    let protocol_1 = Protocol::<2, u16>::from_state(State::Round1Sending([Some(3), Some(19)]));
    let outcomes = run_all(vec![protocol_0, protocol_1]);
    assert_eq!(outcomes, vec![Ok(Some(166)), Ok(Some(166))]);
}

#[test]
fn two_parties_sum_wraps_around() {
    let protocol_0 = Protocol::<2, u8>::from_state(State::Round1Sending([Some(200), Some(20)]));
    let protocol_1 = Protocol::<2, u8>::from_state(State::Round1Sending([Some(20), Some(100)]));
    let outcomes = run_all(vec![protocol_0, protocol_1]);
    // 220 + 120 = 340, which wraps to 84.
    assert_eq!(outcomes, vec![Ok(Some(84)), Ok(Some(84))]);
}

#[test]
fn single_party_learns_its_secret() {
    for _ in 0..20 {
        let secret: u16 = rand::random();
        let outcomes = run_all(vec![Protocol::<1, u16>::new(secret)]);
        assert_eq!(outcomes, vec![Ok(Some(secret))]);
    }
}

#[test]
fn single_party_step_by_step() {
    let mut p = Protocol::<1, u32>::new(77);
    assert_eq!(p.outcome(), Ok(None));
    let out = p.take_outbound().unwrap();
    assert_eq!(out.to, 0);
    assert!(matches!(out.payload, Payload::Share(77)));
    // Nothing more to send until the share comes back.
    assert!(p.take_outbound().is_none());
    assert!(p.take_outbound().is_none());
    assert_eq!(p.process_inbound(Inbound { from: 0, payload: Payload::Share(77) }), Ok(()));
    let out = p.take_outbound().unwrap();
    assert!(matches!(out, Outbound { to: 0, payload: Payload::Sum(77) }));
    assert!(p.take_outbound().is_none());
    assert_eq!(p.process_inbound(Inbound { from: 0, payload: Payload::Sum(77) }), Ok(()));
    let out = p.take_outbound().unwrap();
    assert!(matches!(out, Outbound { to: 0, payload: Payload::Candidate(77) }));
    assert!(p.take_outbound().is_none());
    assert_eq!(p.process_inbound(Inbound { from: 0, payload: Payload::Candidate(77) }), Ok(()));
    let out = p.take_outbound().unwrap();
    assert!(matches!(out, Outbound { to: 0, payload: Payload::Status(true) }));
    assert!(p.take_outbound().is_none());
    assert_eq!(p.outcome(), Ok(None));
    assert_eq!(p.process_inbound(Inbound { from: 0, payload: Payload::Status(true) }), Ok(()));
    assert_eq!(p.outcome(), Ok(Some(77)));
}

#[test]
fn round1_sends_each_share_once_in_order() {
    let mut p = Protocol::<3, i8>::from_state(State::Round1Sending([Some(-1), Some(5), Some(9)]));
    let sent: Vec<Outbound<i8>> = std::iter::from_fn(|| p.take_outbound()).collect();
    assert_eq!(sent.len(), 3);
    assert!(matches!(sent[0], Outbound { to: 0, payload: Payload::Share(-1) }));
    assert!(matches!(sent[1], Outbound { to: 1, payload: Payload::Share(5) }));
    assert!(matches!(sent[2], Outbound { to: 2, payload: Payload::Share(9) }));
    assert!(p.take_outbound().is_none());
}

#[test]
fn round1_skips_empty_slots() {
    let mut p = Protocol::<3, u8>::from_state(State::Round1Sending([None, Some(5), None]));
    assert!(matches!(p.take_outbound(), Some(Outbound { to: 1, payload: Payload::Share(5) })));
    assert!(p.take_outbound().is_none());
    // Now waiting for shares.
    assert_eq!(p.process_inbound(Inbound { from: 2, payload: Payload::Share(1) }), Ok(()));
}

#[test]
fn sum_is_wrapping_sum_of_shares() {
    let mut p = Protocol::<3, u8>::from_state(State::Round2Receiving([Some(200), None, Some(50)]));
    assert!(p.take_outbound().is_none());
    assert_eq!(p.process_inbound(Inbound { from: 1, payload: Payload::Share(10) }), Ok(()));
    // 200 + 10 + 50 = 260, which wraps to 4.
    assert!(matches!(p.take_outbound(), Some(Outbound { to: 0, payload: Payload::Sum(4) })));
    assert!(matches!(p.take_outbound(), Some(Outbound { to: 1, payload: Payload::Sum(4) })));
    assert!(matches!(p.take_outbound(), Some(Outbound { to: 2, payload: Payload::Sum(4) })));
    assert!(p.take_outbound().is_none());
}

#[test]
fn candidate_is_wrapping_total_of_sums() {
    let mut p = Protocol::<2, i8>::from_state(State::Round3Receiving([Some(100), Some(100)]));
    // 100 + 100 = 200, which wraps to -56.
    assert!(matches!(p.take_outbound(), Some(Outbound { to: 0, payload: Payload::Candidate(-56) })));
    assert!(matches!(p.take_outbound(), Some(Outbound { to: 1, payload: Payload::Candidate(-56) })));
    assert!(p.take_outbound().is_none());
    assert_eq!(p.process_inbound(Inbound { from: 1, payload: Payload::Candidate(-56) }), Ok(()));
    assert_eq!(p.process_inbound(Inbound { from: 0, payload: Payload::Candidate(-56) }), Ok(()));
    assert!(matches!(p.take_outbound(), Some(Outbound { to: 0, payload: Payload::Status(true) })));
}

#[test]
fn status_reports_agreement_and_disagreement() {
    let mut agreeing = Protocol::<2, i32>::from_state(State::Round3Checking(-5, [Some(-5), Some(-5)]));
    assert!(matches!(agreeing.take_outbound(), Some(Outbound { to: 0, payload: Payload::Status(true) })));
    let mut disagreeing = Protocol::<2, i32>::from_state(State::Round3Checking(-5, [Some(-5), Some(5)]));
    assert!(matches!(disagreeing.take_outbound(), Some(Outbound { to: 0, payload: Payload::Status(false) })));
    assert!(matches!(disagreeing.take_outbound(), Some(Outbound { to: 1, payload: Payload::Status(false) })));
    assert!(disagreeing.take_outbound().is_none());
    assert_eq!(disagreeing.process_inbound(Inbound { from: 0, payload: Payload::Status(false) }), Ok(()));
    assert_eq!(disagreeing.process_inbound(Inbound { from: 1, payload: Payload::Status(true) }), Ok(()));
    assert_eq!(disagreeing.outcome(), Err(Error::PeerReportedFailure));
}

#[test]
fn second_packet_from_same_peer_is_refused() {
    let mut p = Protocol::<2, u8>::from_state(State::Round2Receiving([None, None]));
    assert_eq!(p.process_inbound(Inbound { from: 1, payload: Payload::Share(3) }), Ok(()));
    assert_eq!(
        p.process_inbound(Inbound { from: 1, payload: Payload::Share(4) }),
        Err(Error::UnexpectedPacket)
    );
    // The second share replaced the first one.
    assert_eq!(p.process_inbound(Inbound { from: 0, payload: Payload::Share(1) }), Ok(()));
    assert!(matches!(p.take_outbound(), Some(Outbound { to: 0, payload: Payload::Sum(5) })));
}

#[test]
fn repeated_candidate_replaces_the_stored_one() {
    let mut p = Protocol::<2, u8>::from_state(State::Round3Checking(9, [Some(1), None]));
    assert_eq!(
        p.process_inbound(Inbound { from: 0, payload: Payload::Candidate(9) }),
        Err(Error::UnexpectedPacket)
    );
    assert_eq!(p.process_inbound(Inbound { from: 1, payload: Payload::Candidate(9) }), Ok(()));
    assert!(matches!(p.take_outbound(), Some(Outbound { to: 0, payload: Payload::Status(true) })));
}

#[test]
fn repeated_status_cannot_erase_abort() {
    let mut p = Protocol::<1, u8>::from_state(State::Round4Receiving(5, [Some(false)]));
    assert_eq!(
        p.process_inbound(Inbound { from: 0, payload: Payload::Status(true) }),
        Err(Error::UnexpectedPacket)
    );
    assert_eq!(p.outcome(), Err(Error::PeerReportedFailure));
}

#[test]
fn deliveries_from_different_senders_commute() {
    let mut a = Protocol::<2, u8>::from_state(State::Round3Receiving([None, None]));
    let mut b = Protocol::<2, u8>::from_state(State::Round3Receiving([None, None]));
    assert_eq!(a.process_inbound(Inbound { from: 0, payload: Payload::Sum(7) }), Ok(()));
    assert_eq!(a.process_inbound(Inbound { from: 1, payload: Payload::Sum(9) }), Ok(()));
    assert_eq!(b.process_inbound(Inbound { from: 1, payload: Payload::Sum(9) }), Ok(()));
    assert_eq!(b.process_inbound(Inbound { from: 0, payload: Payload::Sum(7) }), Ok(()));
    assert!(matches!(a.take_outbound(), Some(Outbound { to: 0, payload: Payload::Candidate(16) })));
    assert!(matches!(b.take_outbound(), Some(Outbound { to: 0, payload: Payload::Candidate(16) })));
}

#[test]
fn packets_of_other_rounds_are_refused() {
    let mut p = Protocol::<2, u8>::from_state(State::Round2Receiving([None, None]));
    assert_eq!(
        p.process_inbound(Inbound { from: 0, payload: Payload::Candidate(3) }),
        Err(Error::UnexpectedPacket)
    );
    assert_eq!(
        p.process_inbound(Inbound { from: 0, payload: Payload::Sum(3) }),
        Err(Error::UnexpectedPacket)
    );
    assert_eq!(
        p.process_inbound(Inbound { from: 0, payload: Payload::Status(true) }),
        Err(Error::UnexpectedPacket)
    );
    // A sending round takes no packet, whatever its sender.
    let mut q = Protocol::<2, u8>::from_state(State::Round1Sending([Some(1), Some(2)]));
    assert_eq!(
        q.process_inbound(Inbound { from: 7, payload: Payload::Share(3) }),
        Err(Error::UnexpectedPacket)
    );
    assert!(matches!(q.take_outbound(), Some(Outbound { to: 0, payload: Payload::Share(1) })));
}

#[test]
fn outcome_reads_statuses_in_order() {
    let p = Protocol::<3, u8>::from_state(State::Round4Receiving(9, [Some(true), None, Some(false)]));
    assert_eq!(p.outcome(), Ok(None));
    let p = Protocol::<3, u8>::from_state(State::Round4Receiving(9, [Some(true), Some(false), None]));
    assert_eq!(p.outcome(), Err(Error::PeerReportedFailure));
    let p = Protocol::<3, u8>::from_state(State::Round4Receiving(9, [Some(true); 3]));
    assert_eq!(p.outcome(), Ok(Some(9)));
    let p = Protocol::<3, u8>::from_state(State::Round4Sending(9, [Some(true); 3]));
    assert_eq!(p.outcome(), Ok(None));
}

#[test]
fn no_parties_sum_to_zero() {
    let mut p = Protocol::<0, u8>::from_state(State::Round1Sending([]));
    assert!(p.take_outbound().is_none());
    assert!(p.take_outbound().is_none());
    assert_eq!(p.outcome(), Ok(Some(0)));
}

#[test]
fn error_messages() {
    assert_eq!(Error::UnexpectedPacket.message(), "Unexpected Packet");
    assert_eq!(Error::PeerReportedFailure.message(), "Peer Reported Failure");
}

#[test]
fn partial_sums_add_up_to_secrets() {
    for _ in 0..20 {
        let secrets: [u16; 3] = [rand::random(), rand::random(), rand::random()];
        let mut parties: Vec<Protocol<3, u16>> = secrets.iter().map(|s| Protocol::new(*s)).collect();
        // Round 1: every share goes to its party.
        let mut in_flight = Vec::new();
        for (id, party) in parties.iter_mut().enumerate() {
            while let Some(out) = party.take_outbound() {
                in_flight.push((id, out));
            }
        }
        assert_eq!(in_flight.len(), 9);
        for (from, out) in in_flight {
            assert_eq!(parties[out.to].process_inbound(Inbound { from, payload: out.payload }), Ok(()));
        }
        // Round 2: each party's partial sum, as sent to party 0.
        let mut total: u16 = 0;
        for party in parties.iter_mut() {
            match party.take_outbound() {
                Some(Outbound { to: 0, payload: Payload::Sum(c) }) => total = total.wrapping_add(c),
                _ => panic!("expected a sum for party 0"),
            }
        }
        let expected = secrets.iter().fold(0u16, |a, b| a.wrapping_add(*b));
        assert_eq!(total, expected);
    }
}
