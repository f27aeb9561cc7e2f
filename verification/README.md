# playground

One party of a small summing protocol among `N` parties, each holding a secret
integer, with every step proved by Verus.

Round 1: the party splits its secret at random into `N` shares whose wrapping
sum is the secret, and sends share `j` to party `j`. Round 2: once it has a
share from every party, it sends the wrapping sum of those shares (its partial
sum) to everyone. Round 3: once it has every partial sum, it takes their
wrapping total as its candidate (the total of all the secrets), sends it to
everyone, and once it has every candidate tells everyone whether they all equal
its own (SUCCESS) or not (ABORT). Round 4: once every party has reported
SUCCESS, the candidate is the outcome; a reported ABORT is an error. A second
packet from the same party in a round is refused; a share, sum or candidate
still replaces the one stored, but a status never does, so an ABORT stays.

The party does no I/O: `take_outbound` hands out the next packet to send,
`process_inbound` takes a received packet, and `outcome` reports the result.

Layout of `src/`:

- `value.rs`: the `Value` trait (fixed-width integers as residues modulo
  `2^bits`), its impls for the ten integer types, and the split of a secret
  into shares (`split_with_noise` for a given random part, `split` drawing it).
- `state.rs`: the rounds of a party and their model over sequences.
- `protocol.rs`: the model of one party's steps and the executable `Protocol`.
- `laws.rs`: properties of the protocol proved over the model, up to an
  honest run of `N` parties, which ends with every party holding the sum of
  all the secrets.
- `sums.rs`: sums of residues, and why the partial sums add up to the secrets.
- `pdu.rs`, `error.rs`: packets and errors.
- `modular.rs`: facts of modular and truncating integer arithmetic.

`app/` gives the error type `std::error::Error` through `thiserror`.
