use vstd::prelude::*;
use crate::value::{residue_sum, split, Value};

verus! {

/// Where a party stands in the protocol, with what it still has to send or has received.
///
/// Slot `j` of each array belongs to party `j`.
#[derive(Debug)]
pub enum State<const N: usize, V> {
    /// Round 1: the shares of the secret still to send to each party.
    Round1Sending([Option<V>; N]),
    /// Round 2: the shares received so far from each party.
    Round2Receiving([Option<V>; N]),
    /// Round 2: the sum of the shares received, still to send to each party.
    Round2Sending([Option<V>; N]),
    /// Round 3: the sums received so far from each party.
    Round3Receiving([Option<V>; N]),
    /// Round 3: the total of the sums (the candidate), still to send to each party.
    Round3Sending(V, [Option<V>; N]),
    /// Round 3: the party's own candidate, and the candidates received so far.
    Round3Checking(V, [Option<V>; N]),
    /// Round 3: the candidate kept, and the status still to send to each party.
    Round4Sending(V, [Option<bool>; N]),
    /// Round 4: the candidate kept, and the statuses received so far from each party.
    Round4Receiving(V, [Option<bool>; N]),
}

/// The mathematical model of a `State`: the same rounds over sequences.
pub enum StateView<V> {
    Round1Sending(Seq<Option<V>>),
    Round2Receiving(Seq<Option<V>>),
    Round2Sending(Seq<Option<V>>),
    Round3Receiving(Seq<Option<V>>),
    Round3Sending(V, Seq<Option<V>>),
    Round3Checking(V, Seq<Option<V>>),
    Round4Sending(V, Seq<Option<bool>>),
    Round4Receiving(V, Seq<Option<bool>>),
}

impl<const N: usize, V> View for State<N, V> {
    type V = StateView<V>;

    open spec fn view(&self) -> StateView<V> {
        match self {
            State::Round1Sending(slots) => StateView::Round1Sending(slots@),
            State::Round2Receiving(slots) => StateView::Round2Receiving(slots@),
            State::Round2Sending(slots) => StateView::Round2Sending(slots@),
            State::Round3Receiving(slots) => StateView::Round3Receiving(slots@),
            State::Round3Sending(own, slots) => StateView::Round3Sending(*own, slots@),
            State::Round3Checking(own, slots) => StateView::Round3Checking(*own, slots@),
            State::Round4Sending(candidate, slots) => StateView::Round4Sending(*candidate, slots@),
            State::Round4Receiving(candidate, slots) => StateView::Round4Receiving(
                *candidate,
                slots@,
            ),
        }
    }
}

/// The number of slots of a state: one per party.
pub open spec fn slot_count<V>(s: StateView<V>) -> nat {
    match s {
        StateView::Round1Sending(slots) => slots.len(),
        StateView::Round2Receiving(slots) => slots.len(),
        StateView::Round2Sending(slots) => slots.len(),
        StateView::Round3Receiving(slots) => slots.len(),
        StateView::Round3Sending(_, slots) => slots.len(),
        StateView::Round3Checking(_, slots) => slots.len(),
        StateView::Round4Sending(_, slots) => slots.len(),
        StateView::Round4Receiving(_, slots) => slots.len(),
    }
}

/// The values held in the slots, `None` taken out.
pub open spec fn present<V>(slots: Seq<Option<V>>) -> Seq<V>
    decreases slots.len(),
{
    if slots.len() == 0 {
        Seq::empty()
    } else {
        match slots.last() {
            Some(v) => present(slots.drop_last()).push(v),
            None => present(slots.drop_last()),
        }
    }
}

/// Every slot holds a value.
pub open spec fn all_present<T>(slots: Seq<Option<T>>) -> bool {
    forall|j: int| 0 <= j < slots.len() ==> (#[trigger] slots[j]) is Some
}

/// `N` slots, all empty.
pub open spec fn empty_slots<T>(n: nat) -> Seq<Option<T>> {
    Seq::new(n, |j: int| None)
}

/// `N` slots, all holding `v`.
pub open spec fn filled_slots<T>(n: nat, v: T) -> Seq<Option<T>> {
    Seq::new(n, |j: int| Some(v))
}

impl<const N: usize, V: Value> State<N, V> {
    /// The starting state: the secret split into `N` shares, one to send to each party.
    pub fn init(secret: V) -> (state: Self)
        requires
            V::count_divides(N as nat),
        ensures
            state@ matches StateView::Round1Sending(slots) && all_present(slots) && residue_sum(
                present(slots),
            ) % V::modulus() == secret.residue(),
    {
        let shares: [V; N] = split(&secret);
        let mut slots: [Option<V>; N] = [None; N];
        for i in 0..N
            invariant
                forall|j: int| 0 <= j < i ==> slots[j] == Some(shares[j]),
        {
            slots[i] = Some(shares[i]);
        }
        proof {
            lemma_present_all(slots@, shares@);
        }
        State::Round1Sending(slots)
    }
}

/// When every slot holds a value, `present` gives back those values in order.
pub proof fn lemma_present_all<V>(slots: Seq<Option<V>>, values: Seq<V>)
    requires
        slots.len() == values.len(),
        forall|j: int| 0 <= j < slots.len() ==> slots[j] == Some(values[j]),
    ensures
        present(slots) == values,
        all_present(slots),
    decreases slots.len(),
{
    if slots.len() > 0 {
        lemma_present_all(slots.drop_last(), values.drop_last());
        assert(values.drop_last().push(values.last()) =~= values);
    }
}

/// When every slot holds a value, `present` lists them all, slot by slot.
pub proof fn lemma_present_of_full<V>(slots: Seq<Option<V>>)
    requires
        all_present(slots),
    ensures
        present(slots).len() == slots.len(),
        forall|j: int| 0 <= j < slots.len() ==> slots[j] == Some(#[trigger] present(slots)[j]),
    decreases slots.len(),
{
    if slots.len() > 0 {
        let front = slots.drop_last();
        assert forall|j: int| 0 <= j < front.len() implies (#[trigger] front[j]) is Some by {
            assert(slots[j] is Some);
        }
        lemma_present_of_full(front);
        assert(slots[slots.len() - 1] is Some);
    }
}

} // verus!
