use vstd::prelude::*;
use vstd::arithmetic::div_mod::{lemma_fundamental_div_mod, lemma_mod_twice, lemma_small_mod};
use crate::modular::{
    lemma_add_congruent, lemma_div_congruence, lemma_mod_of_small, lemma_mul_congruent,
    lemma_trunc_div_rem, lemma_trunc_in_window, lemma_window_injective, lemma_wrapped_add,
    lemma_wrapped_sub, trunc_div, trunc_rem,
};

verus! {

/// A value that can be secret-shared: a fixed-width integer with wrapping arithmetic.
///
/// A value is modelled by its residue in the ring of integers modulo `modulus()`; the
/// arithmetic of the protocol is addition in that ring.
pub trait Value: Copy + Eq + core::fmt::Debug + Sized {
    /// The number of distinct values of the type.
    spec fn modulus() -> int;

    /// The position of the value in the ring of integers modulo `modulus()`.
    spec fn residue(self) -> int;

    /// The value at position `k % modulus()` of that ring.
    spec fn from_residue(k: int) -> Self;

    /// Whether `self / d` and `self % d` are defined: no division by zero, no overflow.
    spec fn div_defined(self, d: Self) -> bool;

    /// The quotient of the type's own division.
    spec fn spec_div(self, d: Self) -> Self;

    /// The remainder of the type's own division.
    spec fn spec_rem(self, d: Self) -> Self;

    /// Whether `n`, taken as a value of the type, divides every value of it.
    spec fn count_divides(n: nat) -> bool;

    /// The residues form the ring of integers modulo `modulus()`, one value per residue.
    proof fn lemma_ring(a: Self, b: Self, k: int)
        ensures
            Self::modulus() > 1,
            0 <= a.residue() < Self::modulus(),
            a.residue() == b.residue() ==> a == b,
            Self::from_residue(k).residue() == k % Self::modulus(),
    ;

    /// Quotient and remainder put the dividend back together in the ring.
    proof fn lemma_div(a: Self, d: Self)
        requires
            a.div_defined(d),
        ensures
            (a.spec_div(d).residue() * d.residue() + a.spec_rem(d).residue()) % Self::modulus()
                == a.residue(),
    ;

    /// A count that divides every value divides `a`.
    proof fn lemma_count_divisor(a: Self, n: nat)
        requires
            Self::count_divides(n),
        ensures
            a.div_defined(Self::from_residue(n as int)),
            (n as int) % Self::modulus() != 0,
    ;

    /// The neutral element of addition.
    fn zero() -> (zero: Self)
        ensures
            zero.residue() == 0,
    ;

    /// Adds `addend` in place, wrapping around on overflow.
    fn wrapping_add_assign(&mut self, addend: &Self)
        ensures
            final(self).residue() == (old(self).residue() + addend.residue()) % Self::modulus(),
    ;

    /// Subtracts `other`, wrapping around on overflow.
    fn wrapping_difference(&self, other: &Self) -> (difference: Self)
        ensures
            difference.residue() == (self.residue() - other.residue()) % Self::modulus(),
    ;

    /// The count `n` converted to the type, wrapping around (`n as Self`).
    fn from_count(n: usize) -> (value: Self)
        ensures
            value == Self::from_residue(n as int),
    ;

    /// The value whose bit pattern is the low bits of `bits`.
    fn from_random_bits(bits: u128) -> (value: Self)
        ensures
            value == Self::from_residue(bits as int),
    ;

    /// The quotient and remainder of the type's own division.
    fn div_rem(&self, d: &Self) -> (quotient_remainder: (Self, Self))
        requires
            self.div_defined(*d),
        ensures
            quotient_remainder == (self.spec_div(*d), self.spec_rem(*d)),
    ;

    /// Whether two values are equal.
    fn same_as(&self, other: &Self) -> (same: bool)
        ensures
            same == (*self == *other),
    ;
}

/// Splits `secret` into `N` random shares whose wrapping sum is the secret.
pub fn split<V: Value, const N: usize>(secret: &V) -> (shares: [V; N])
    requires
        V::count_divides(N as nat),
    ensures
        residue_sum(shares@) % V::modulus() == secret.residue(),
{
    let mut noise: [V; N] = [V::zero(); N];
    for i in 0..N
        invariant
            noise@.len() == N,
    {
        noise[i] = V::from_random_bits(random_bits());
    }
    proof {
        V::lemma_ring(*secret, *secret, N as int);
        V::lemma_count_divisor(*secret, N as nat);
        if N == 0 {
            lemma_small_mod(0, V::modulus() as nat);
        }
    }
    let pick = (random_bits() as usize) % N;
    split_with_noise(*secret, noise, pick)
}

/// The sum of the residues of the values, taken in the integers.
pub open spec fn residue_sum<V: Value>(s: Seq<V>) -> int
    decreases s.len(),
{
    if s.len() == 0 {
        0
    } else {
        residue_sum(s.drop_last()) + s.last().residue()
    }
}

/// Appending a value adds its residue.
pub proof fn lemma_residue_sum_push<V: Value>(s: Seq<V>, v: V)
    ensures
        residue_sum(s.push(v)) == residue_sum(s) + v.residue(),
{
    assert(s.push(v).drop_last() =~= s);
}

/// Replacing one value changes the sum by the difference of the residues.
pub proof fn lemma_residue_sum_update<V: Value>(s: Seq<V>, p: int, v: V)
    requires
        0 <= p < s.len(),
    ensures
        residue_sum(s.update(p, v)) == residue_sum(s) - s[p].residue() + v.residue(),
    decreases s.len(),
{
    if p == s.len() - 1 {
        assert(s.update(p, v).drop_last() =~= s.drop_last());
    } else {
        lemma_residue_sum_update(s.drop_last(), p, v);
        assert(s.update(p, v).drop_last() =~= s.drop_last().update(p, v));
    }
}

/// What the secret lacks after the noise: `secret - sum(noise)` in the ring.
pub open spec fn missing_part<V: Value>(secret: V, noise: Seq<V>) -> V {
    V::from_residue(secret.residue() - residue_sum(noise))
}

/// The number of shares as a value of the type (`N as V`).
pub open spec fn share_count<V: Value>(noise: Seq<V>) -> V {
    V::from_residue(noise.len() as int)
}

/// Share `i` of a split: noise `i` plus an equal part of what is missing, and the
/// remainder of that division on share `pick`.
pub open spec fn planned_share<V: Value>(secret: V, noise: Seq<V>, pick: int, i: int) -> V {
    let miss = missing_part(secret, noise);
    let quotient = miss.spec_div(share_count(noise));
    let remainder = miss.spec_rem(share_count(noise));
    V::from_residue(
        noise[i].residue() + quotient.residue() + (if i == pick {
            remainder.residue()
        } else {
            0
        }),
    )
}

/// Draws 128 bits from the operating system's random number generator by
/// `rand::Rng::gen::<u128>` on `rand::rngs::OsRng`. Nothing is stated of the result:
/// any bit pattern may come back. (`OsRng` panics where the operating system cannot
/// deliver random bytes; no clause states that.)
#[verifier::external_body]
fn random_bits() -> u128 {
    rand::Rng::gen::<u128>(&mut rand::rngs::OsRng)
}

/// Splits `secret` into shares given the random part: share `i` is `noise[i]` plus
/// `(secret - sum(noise)) / N`, and share `pick` also gets the remainder of that division.
pub fn split_with_noise<V: Value, const N: usize>(secret: V, noise: [V; N], pick: usize) -> (shares:
    [V; N])
    requires
        V::count_divides(N as nat),
        pick < N,
    ensures
        forall|i: int| 0 <= i < N ==> shares[i] == planned_share(secret, noise@, pick as int, i),
        residue_sum(shares@) % V::modulus() == secret.residue(),
{
    let ghost m = V::modulus();
    let mut sum = V::zero();
    proof {
        V::lemma_ring(secret, secret, 0);
        assert(noise@.take(0) =~= Seq::<V>::empty());
    }
    for i in 0..N
        invariant
            noise@.len() == N,
            m == V::modulus(),
            sum.residue() == residue_sum(noise@.take(i as int)) % m,
    {
        proof {
            lemma_residue_sum_push(noise@.take(i as int), noise[i as int]);
            assert(noise@.take(i as int).push(noise[i as int]) =~= noise@.take(i + 1));
            V::lemma_ring(sum, sum, residue_sum(noise@.take(i as int)));
            lemma_mod_twice(residue_sum(noise@.take(i as int)), m);
            lemma_add_congruent(
                sum.residue(),
                noise[i as int].residue(),
                residue_sum(noise@.take(i as int)),
                noise[i as int].residue(),
                m,
            );
        }
        sum.wrapping_add_assign(&noise[i]);
    }
    assert(noise@.take(N as int) =~= noise@);
    let miss = secret.wrapping_difference(&sum);
    proof {
        V::lemma_ring(miss, missing_part(secret, noise@), secret.residue() - residue_sum(noise@));
        vstd::arithmetic::div_mod::lemma_sub_mod_noop(secret.residue(), residue_sum(noise@), m);
        lemma_small_mod(secret.residue() as nat, m as nat);
        lemma_mod_twice(residue_sum(noise@), m);
        assert(miss == missing_part(secret, noise@));
    }
    let n_as_v = V::from_count(N);
    proof {
        V::lemma_count_divisor(miss, N as nat);
    }
    let (quotient, remainder) = miss.div_rem(&n_as_v);
    let mut shares = noise;
    assert(shares@ == noise@);
    for i in 0..N
        invariant
            noise@.len() == N,
            shares@.len() == N,
            m == V::modulus(),
            forall|j: int|
                0 <= j < i ==> shares[j] == V::from_residue(
                    noise[j].residue() + quotient.residue(),
                ),
            forall|j: int| i <= j < N ==> shares[j] == noise[j],
            residue_sum(shares@) % m == (residue_sum(noise@) + i * quotient.residue()) % m,
    {
        let mut share = shares[i];
        share.wrapping_add_assign(&quotient);
        proof {
            let a = noise[i as int].residue();
            let q = quotient.residue();
            let old_sum = residue_sum(shares@);
            V::lemma_ring(share, V::from_residue(a + q), a + q);
            lemma_residue_sum_update(shares@, i as int, share);
            lemma_mod_twice(a + q, m);
            lemma_add_congruent(old_sum - a, share.residue(), old_sum - a, a + q, m);
            lemma_add_congruent(old_sum, q, residue_sum(noise@) + i * q, q, m);
            assert(residue_sum(noise@) + i * q + q == residue_sum(noise@) + (i + 1) * q)
                by (nonlinear_arith);
        }
        shares[i] = share;
    }
    let mut last = shares[pick];
    last.wrapping_add_assign(&remainder);
    proof {
        let before = residue_sum(shares@);
        let a = shares[pick as int].residue();
        let r = remainder.residue();
        let q = quotient.residue();
        let big_r = residue_sum(noise@);
        lemma_residue_sum_update(shares@, pick as int, last);
        V::lemma_ring(last, last, a + r);
        lemma_mod_twice(a + r, m);
        lemma_add_congruent(before - a, last.residue(), before - a, a + r, m);
        lemma_add_congruent(before, r, big_r + N * q, r, m);
        V::lemma_ring(n_as_v, n_as_v, N as int);
        lemma_mod_twice(N as int, m);
        lemma_mul_congruent(n_as_v.residue(), N as int, q, m);
        V::lemma_div(miss, n_as_v);
        lemma_split_sum_closes(
            big_r,
            q * N,
            q * n_as_v.residue(),
            r,
            miss.residue(),
            secret.residue(),
            m,
        );
        assert(big_r + N * q + r == big_r + q * N + r) by (nonlinear_arith);
    }
    shares[pick] = last;
    proof {
        assert forall|i: int| 0 <= i < N implies shares[i] == planned_share(
            secret,
            noise@,
            pick as int,
            i,
        ) by {
            let base = noise[i].residue() + quotient.residue();
            V::lemma_ring(noise[i], noise[i], base);
            if i == pick {
                lemma_mod_twice(base, m);
                lemma_add_congruent(base % m, remainder.residue(), base, remainder.residue(), m);
                V::lemma_ring(
                    shares[i],
                    planned_share(secret, noise@, pick as int, i),
                    base + remainder.residue(),
                );
            }
        }
    }
    shares
}

/// The last step of the sum of a split, in plain integers: `R + N*q + r` is the secret
/// when `N*q` agrees with `q*d`, `q*d + r` with the missing part, and that with
/// `secret - R`.
proof fn lemma_split_sum_closes(
    noise_sum: int,
    count_times_quotient: int,
    quotient_times_divisor: int,
    remainder: int,
    miss: int,
    secret: int,
    m: int,
)
    requires
        m > 0,
        0 <= secret < m,
        count_times_quotient % m == quotient_times_divisor % m,
        (quotient_times_divisor + remainder) % m == miss,
        miss == (secret - noise_sum) % m,
    ensures
        (noise_sum + count_times_quotient + remainder) % m == secret,
{
    lemma_add_congruent(
        count_times_quotient,
        noise_sum + remainder,
        quotient_times_divisor,
        noise_sum + remainder,
        m,
    );
    lemma_mod_twice(secret - noise_sum, m);
    lemma_add_congruent(quotient_times_divisor + remainder, noise_sum, miss, noise_sum, m);
    lemma_add_congruent(miss, noise_sum, secret - noise_sum, noise_sum, m);
    lemma_small_mod(secret as nat, m as nat);
}


impl Value for u8 {
    open spec fn modulus() -> int {
        0x100int
    }

    open spec fn residue(self) -> int {
        (self as int) % 0x100int
    }

    open spec fn from_residue(k: int) -> u8 {
        (k % 0x100int) as u8
    }

    open spec fn div_defined(self, d: u8) -> bool {
        d != 0
    }

    open spec fn spec_div(self, d: u8) -> u8 {
        self / d
    }

    open spec fn spec_rem(self, d: u8) -> u8 {
        self % d
    }

    open spec fn count_divides(n: nat) -> bool {
        n % 0x100nat != 0
    }

    proof fn lemma_ring(a: u8, b: u8, k: int) {
        lemma_small_mod(a as nat, 0x100nat);
        lemma_small_mod(b as nat, 0x100nat);
        lemma_mod_twice(k, 0x100int);
    }

    proof fn lemma_div(a: u8, d: u8) {
        lemma_fundamental_div_mod(a as int, d as int);
        lemma_div_congruence(a as int, d as int, (a / d) as int, (a % d) as int, 0x100int);
    }

    proof fn lemma_count_divisor(a: u8, n: nat) {
    }

    fn zero() -> u8 {
        0
    }

    fn wrapping_add_assign(&mut self, addend: &u8) {
        let sum = u8::wrapping_add(*self, *addend);
        proof {
            lemma_wrapped_add(sum as int, *old(self) as int, *addend as int, 0x100int);
        }
        *self = sum;
    }

    fn wrapping_difference(&self, other: &u8) -> u8 {
        let difference = u8::wrapping_sub(*self, *other);
        proof {
            lemma_wrapped_sub(difference as int, *self as int, *other as int, 0x100int);
        }
        difference
    }

    fn from_count(n: usize) -> u8 {
        
        ((n as u64) % 0x100) as u8
    }

    fn from_random_bits(bits: u128) -> u8 {
        
        (bits % 0x100) as u8
    }

    fn div_rem(&self, d: &u8) -> (u8, u8) {
        (*self / *d, *self % *d)
    }

    fn same_as(&self, other: &u8) -> bool {
        *self == *other
    }
}

impl Value for u16 {
    open spec fn modulus() -> int {
        0x1_0000int
    }

    open spec fn residue(self) -> int {
        (self as int) % 0x1_0000int
    }

    open spec fn from_residue(k: int) -> u16 {
        (k % 0x1_0000int) as u16
    }

    open spec fn div_defined(self, d: u16) -> bool {
        d != 0
    }

    open spec fn spec_div(self, d: u16) -> u16 {
        self / d
    }

    open spec fn spec_rem(self, d: u16) -> u16 {
        self % d
    }

    open spec fn count_divides(n: nat) -> bool {
        n % 0x1_0000nat != 0
    }

    proof fn lemma_ring(a: u16, b: u16, k: int) {
        lemma_small_mod(a as nat, 0x1_0000nat);
        lemma_small_mod(b as nat, 0x1_0000nat);
        lemma_mod_twice(k, 0x1_0000int);
    }

    proof fn lemma_div(a: u16, d: u16) {
        lemma_fundamental_div_mod(a as int, d as int);
        lemma_div_congruence(a as int, d as int, (a / d) as int, (a % d) as int, 0x1_0000int);
    }

    proof fn lemma_count_divisor(a: u16, n: nat) {
    }

    fn zero() -> u16 {
        0
    }

    fn wrapping_add_assign(&mut self, addend: &u16) {
        let sum = u16::wrapping_add(*self, *addend);
        proof {
            lemma_wrapped_add(sum as int, *old(self) as int, *addend as int, 0x1_0000int);
        }
        *self = sum;
    }

    fn wrapping_difference(&self, other: &u16) -> u16 {
        let difference = u16::wrapping_sub(*self, *other);
        proof {
            lemma_wrapped_sub(difference as int, *self as int, *other as int, 0x1_0000int);
        }
        difference
    }

    fn from_count(n: usize) -> u16 {
        
        ((n as u64) % 0x1_0000) as u16
    }

    fn from_random_bits(bits: u128) -> u16 {
        
        (bits % 0x1_0000) as u16
    }

    fn div_rem(&self, d: &u16) -> (u16, u16) {
        (*self / *d, *self % *d)
    }

    fn same_as(&self, other: &u16) -> bool {
        *self == *other
    }
}

impl Value for u32 {
    open spec fn modulus() -> int {
        0x1_0000_0000int
    }

    open spec fn residue(self) -> int {
        (self as int) % 0x1_0000_0000int
    }

    open spec fn from_residue(k: int) -> u32 {
        (k % 0x1_0000_0000int) as u32
    }

    open spec fn div_defined(self, d: u32) -> bool {
        d != 0
    }

    open spec fn spec_div(self, d: u32) -> u32 {
        self / d
    }

    open spec fn spec_rem(self, d: u32) -> u32 {
        self % d
    }

    open spec fn count_divides(n: nat) -> bool {
        n % 0x1_0000_0000nat != 0
    }

    proof fn lemma_ring(a: u32, b: u32, k: int) {
        lemma_small_mod(a as nat, 0x1_0000_0000nat);
        lemma_small_mod(b as nat, 0x1_0000_0000nat);
        lemma_mod_twice(k, 0x1_0000_0000int);
    }

    proof fn lemma_div(a: u32, d: u32) {
        lemma_fundamental_div_mod(a as int, d as int);
        lemma_div_congruence(a as int, d as int, (a / d) as int, (a % d) as int, 0x1_0000_0000int);
    }

    proof fn lemma_count_divisor(a: u32, n: nat) {
    }

    fn zero() -> u32 {
        0
    }

    fn wrapping_add_assign(&mut self, addend: &u32) {
        let sum = u32::wrapping_add(*self, *addend);
        proof {
            lemma_wrapped_add(sum as int, *old(self) as int, *addend as int, 0x1_0000_0000int);
        }
        *self = sum;
    }

    fn wrapping_difference(&self, other: &u32) -> u32 {
        let difference = u32::wrapping_sub(*self, *other);
        proof {
            lemma_wrapped_sub(difference as int, *self as int, *other as int, 0x1_0000_0000int);
        }
        difference
    }

    fn from_count(n: usize) -> u32 {
        
        ((n as u64) % 0x1_0000_0000) as u32
    }

    fn from_random_bits(bits: u128) -> u32 {
        
        (bits % 0x1_0000_0000) as u32
    }

    fn div_rem(&self, d: &u32) -> (u32, u32) {
        (*self / *d, *self % *d)
    }

    fn same_as(&self, other: &u32) -> bool {
        *self == *other
    }
}

impl Value for u64 {
    open spec fn modulus() -> int {
        0x1_0000_0000_0000_0000int
    }

    open spec fn residue(self) -> int {
        (self as int) % 0x1_0000_0000_0000_0000int
    }

    open spec fn from_residue(k: int) -> u64 {
        (k % 0x1_0000_0000_0000_0000int) as u64
    }

    open spec fn div_defined(self, d: u64) -> bool {
        d != 0
    }

    open spec fn spec_div(self, d: u64) -> u64 {
        self / d
    }

    open spec fn spec_rem(self, d: u64) -> u64 {
        self % d
    }

    open spec fn count_divides(n: nat) -> bool {
        n % 0x1_0000_0000_0000_0000nat != 0
    }

    proof fn lemma_ring(a: u64, b: u64, k: int) {
        lemma_small_mod(a as nat, 0x1_0000_0000_0000_0000nat);
        lemma_small_mod(b as nat, 0x1_0000_0000_0000_0000nat);
        lemma_mod_twice(k, 0x1_0000_0000_0000_0000int);
    }

    proof fn lemma_div(a: u64, d: u64) {
        lemma_fundamental_div_mod(a as int, d as int);
        lemma_div_congruence(a as int, d as int, (a / d) as int, (a % d) as int, 0x1_0000_0000_0000_0000int);
    }

    proof fn lemma_count_divisor(a: u64, n: nat) {
    }

    fn zero() -> u64 {
        0
    }

    fn wrapping_add_assign(&mut self, addend: &u64) {
        let sum = u64::wrapping_add(*self, *addend);
        proof {
            lemma_wrapped_add(sum as int, *old(self) as int, *addend as int, 0x1_0000_0000_0000_0000int);
        }
        *self = sum;
    }

    fn wrapping_difference(&self, other: &u64) -> u64 {
        let difference = u64::wrapping_sub(*self, *other);
        proof {
            lemma_wrapped_sub(difference as int, *self as int, *other as int, 0x1_0000_0000_0000_0000int);
        }
        difference
    }

    fn from_count(n: usize) -> u64 {
        proof { lemma_small_mod(n as nat, 0x1_0000_0000_0000_0000nat); }
        n as u64
    }

    fn from_random_bits(bits: u128) -> u64 {
        
        (bits % 0x1_0000_0000_0000_0000) as u64
    }

    fn div_rem(&self, d: &u64) -> (u64, u64) {
        (*self / *d, *self % *d)
    }

    fn same_as(&self, other: &u64) -> bool {
        *self == *other
    }
}

impl Value for u128 {
    open spec fn modulus() -> int {
        0x1_0000_0000_0000_0000_0000_0000_0000_0000int
    }

    open spec fn residue(self) -> int {
        (self as int) % 0x1_0000_0000_0000_0000_0000_0000_0000_0000int
    }

    open spec fn from_residue(k: int) -> u128 {
        (k % 0x1_0000_0000_0000_0000_0000_0000_0000_0000int) as u128
    }

    open spec fn div_defined(self, d: u128) -> bool {
        d != 0
    }

    open spec fn spec_div(self, d: u128) -> u128 {
        self / d
    }

    open spec fn spec_rem(self, d: u128) -> u128 {
        self % d
    }

    open spec fn count_divides(n: nat) -> bool {
        n % 0x1_0000_0000_0000_0000_0000_0000_0000_0000nat != 0
    }

    proof fn lemma_ring(a: u128, b: u128, k: int) {
        lemma_small_mod(a as nat, 0x1_0000_0000_0000_0000_0000_0000_0000_0000nat);
        lemma_small_mod(b as nat, 0x1_0000_0000_0000_0000_0000_0000_0000_0000nat);
        lemma_mod_twice(k, 0x1_0000_0000_0000_0000_0000_0000_0000_0000int);
    }

    proof fn lemma_div(a: u128, d: u128) {
        lemma_fundamental_div_mod(a as int, d as int);
        lemma_div_congruence(a as int, d as int, (a / d) as int, (a % d) as int, 0x1_0000_0000_0000_0000_0000_0000_0000_0000int);
    }

    proof fn lemma_count_divisor(a: u128, n: nat) {
    }

    fn zero() -> u128 {
        0
    }

    fn wrapping_add_assign(&mut self, addend: &u128) {
        let sum = u128::wrapping_add(*self, *addend);
        proof {
            lemma_wrapped_add(sum as int, *old(self) as int, *addend as int, 0x1_0000_0000_0000_0000_0000_0000_0000_0000int);
        }
        *self = sum;
    }

    fn wrapping_difference(&self, other: &u128) -> u128 {
        let difference = u128::wrapping_sub(*self, *other);
        proof {
            lemma_wrapped_sub(difference as int, *self as int, *other as int, 0x1_0000_0000_0000_0000_0000_0000_0000_0000int);
        }
        difference
    }

    fn from_count(n: usize) -> u128 {
        proof { lemma_small_mod(n as nat, 0x1_0000_0000_0000_0000_0000_0000_0000_0000nat); }
        n as u128
    }

    fn from_random_bits(bits: u128) -> u128 {
        proof { lemma_small_mod(bits as nat, 0x1_0000_0000_0000_0000_0000_0000_0000_0000nat); }
        bits
    }

    fn div_rem(&self, d: &u128) -> (u128, u128) {
        (*self / *d, *self % *d)
    }

    fn same_as(&self, other: &u128) -> bool {
        *self == *other
    }
}

/// The `i8` with the given two's-complement bit pattern.
fn i8_from_pattern(k: u8) -> (r: i8)
    ensures
        r == <i8 as Value>::from_residue(k as int),
{
    proof {
        lemma_small_mod(k as nat, 0x100nat);
    }
    if k < 0x80 {
        k as i8
    } else {
        ((k - 0x80) as i8) + i8::MIN
    }
}

impl Value for i8 {
    open spec fn modulus() -> int {
        0x100int
    }

    open spec fn residue(self) -> int {
        (self as int) % 0x100int
    }

    open spec fn from_residue(k: int) -> i8 {
        if k % 0x100int < 0x80int {
            (k % 0x100int) as i8
        } else {
            (k % 0x100int - 0x100int) as i8
        }
    }

    open spec fn div_defined(self, d: i8) -> bool {
        d != 0 && !(self == i8::MIN && d == -1)
    }

    open spec fn spec_div(self, d: i8) -> i8 {
        trunc_div(self as int, d as int) as i8
    }

    open spec fn spec_rem(self, d: i8) -> i8 {
        trunc_rem(self as int, d as int) as i8
    }

    open spec fn count_divides(n: nat) -> bool {
        n % 0x100nat != 0 && n % 0x100nat != 0x100nat - 1
    }

    proof fn lemma_ring(a: i8, b: i8, k: int) {
        lemma_mod_of_small(a as int, 0x100int);
        lemma_mod_of_small(b as int, 0x100int);
        if a.residue() == b.residue() {
            lemma_window_injective(a as int, b as int, -0x80int, 0x100int);
        }
        let r = k % 0x100int;
        if r < 0x80 {
            lemma_small_mod(r as nat, 0x100nat);
        } else {
            lemma_mod_of_small(r - 0x100int, 0x100int);
        }
    }

    proof fn lemma_div(a: i8, d: i8) {
        lemma_trunc_in_window(a as int, d as int, 0x80int);
        lemma_trunc_div_rem(a as int, d as int);
        lemma_div_congruence(
            a as int,
            d as int,
            trunc_div(a as int, d as int),
            trunc_rem(a as int, d as int),
            0x100int,
        );
    }

    proof fn lemma_count_divisor(a: i8, n: nat) {
    }

    fn zero() -> i8 {
        0
    }

    fn wrapping_add_assign(&mut self, addend: &i8) {
        let sum = i8::wrapping_add(*self, *addend);
        proof {
            lemma_wrapped_add(sum as int, *old(self) as int, *addend as int, 0x100int);
        }
        *self = sum;
    }

    fn wrapping_difference(&self, other: &i8) -> i8 {
        let difference = i8::wrapping_sub(*self, *other);
        proof {
            lemma_wrapped_sub(difference as int, *self as int, *other as int, 0x100int);
        }
        difference
    }

    fn from_count(n: usize) -> i8 {
        let k = ((n as u64) % 0x100) as u8;
        proof {
            
            lemma_mod_twice(n as int, 0x100int);
        }
        i8_from_pattern(k)
    }

    fn from_random_bits(bits: u128) -> i8 {
        let k = (bits % 0x100) as u8;
        proof {
            lemma_small_mod(bits as nat, 0x1_0000_0000_0000_0000_0000_0000_0000_0000nat);
            lemma_mod_twice(bits as int, 0x100int);
        }
        i8_from_pattern(k)
    }

    fn div_rem(&self, d: &i8) -> (i8, i8) {
        (*self / *d, *self % *d)
    }

    fn same_as(&self, other: &i8) -> bool {
        *self == *other
    }
}

/// The `i16` with the given two's-complement bit pattern.
fn i16_from_pattern(k: u16) -> (r: i16)
    ensures
        r == <i16 as Value>::from_residue(k as int),
{
    proof {
        lemma_small_mod(k as nat, 0x1_0000nat);
    }
    if k < 0x8000 {
        k as i16
    } else {
        ((k - 0x8000) as i16) + i16::MIN
    }
}

impl Value for i16 {
    open spec fn modulus() -> int {
        0x1_0000int
    }

    open spec fn residue(self) -> int {
        (self as int) % 0x1_0000int
    }

    open spec fn from_residue(k: int) -> i16 {
        if k % 0x1_0000int < 0x8000int {
            (k % 0x1_0000int) as i16
        } else {
            (k % 0x1_0000int - 0x1_0000int) as i16
        }
    }

    open spec fn div_defined(self, d: i16) -> bool {
        d != 0 && !(self == i16::MIN && d == -1)
    }

    open spec fn spec_div(self, d: i16) -> i16 {
        trunc_div(self as int, d as int) as i16
    }

    open spec fn spec_rem(self, d: i16) -> i16 {
        trunc_rem(self as int, d as int) as i16
    }

    open spec fn count_divides(n: nat) -> bool {
        n % 0x1_0000nat != 0 && n % 0x1_0000nat != 0x1_0000nat - 1
    }

    proof fn lemma_ring(a: i16, b: i16, k: int) {
        lemma_mod_of_small(a as int, 0x1_0000int);
        lemma_mod_of_small(b as int, 0x1_0000int);
        if a.residue() == b.residue() {
            lemma_window_injective(a as int, b as int, -0x8000int, 0x1_0000int);
        }
        let r = k % 0x1_0000int;
        if r < 0x8000 {
            lemma_small_mod(r as nat, 0x1_0000nat);
        } else {
            lemma_mod_of_small(r - 0x1_0000int, 0x1_0000int);
        }
    }

    proof fn lemma_div(a: i16, d: i16) {
        lemma_trunc_in_window(a as int, d as int, 0x8000int);
        lemma_trunc_div_rem(a as int, d as int);
        lemma_div_congruence(
            a as int,
            d as int,
            trunc_div(a as int, d as int),
            trunc_rem(a as int, d as int),
            0x1_0000int,
        );
    }

    proof fn lemma_count_divisor(a: i16, n: nat) {
    }

    fn zero() -> i16 {
        0
    }

    fn wrapping_add_assign(&mut self, addend: &i16) {
        let sum = i16::wrapping_add(*self, *addend);
        proof {
            lemma_wrapped_add(sum as int, *old(self) as int, *addend as int, 0x1_0000int);
        }
        *self = sum;
    }

    fn wrapping_difference(&self, other: &i16) -> i16 {
        let difference = i16::wrapping_sub(*self, *other);
        proof {
            lemma_wrapped_sub(difference as int, *self as int, *other as int, 0x1_0000int);
        }
        difference
    }

    fn from_count(n: usize) -> i16 {
        let k = ((n as u64) % 0x1_0000) as u16;
        proof {
            
            lemma_mod_twice(n as int, 0x1_0000int);
        }
        i16_from_pattern(k)
    }

    fn from_random_bits(bits: u128) -> i16 {
        let k = (bits % 0x1_0000) as u16;
        proof {
            lemma_small_mod(bits as nat, 0x1_0000_0000_0000_0000_0000_0000_0000_0000nat);
            lemma_mod_twice(bits as int, 0x1_0000int);
        }
        i16_from_pattern(k)
    }

    fn div_rem(&self, d: &i16) -> (i16, i16) {
        (*self / *d, *self % *d)
    }

    fn same_as(&self, other: &i16) -> bool {
        *self == *other
    }
}

/// The `i32` with the given two's-complement bit pattern.
fn i32_from_pattern(k: u32) -> (r: i32)
    ensures
        r == <i32 as Value>::from_residue(k as int),
{
    proof {
        lemma_small_mod(k as nat, 0x1_0000_0000nat);
    }
    if k < 0x8000_0000 {
        k as i32
    } else {
        ((k - 0x8000_0000) as i32) + i32::MIN
    }
}

impl Value for i32 {
    open spec fn modulus() -> int {
        0x1_0000_0000int
    }

    open spec fn residue(self) -> int {
        (self as int) % 0x1_0000_0000int
    }

    open spec fn from_residue(k: int) -> i32 {
        if k % 0x1_0000_0000int < 0x8000_0000int {
            (k % 0x1_0000_0000int) as i32
        } else {
            (k % 0x1_0000_0000int - 0x1_0000_0000int) as i32
        }
    }

    open spec fn div_defined(self, d: i32) -> bool {
        d != 0 && !(self == i32::MIN && d == -1)
    }

    open spec fn spec_div(self, d: i32) -> i32 {
        trunc_div(self as int, d as int) as i32
    }

    open spec fn spec_rem(self, d: i32) -> i32 {
        trunc_rem(self as int, d as int) as i32
    }

    open spec fn count_divides(n: nat) -> bool {
        n % 0x1_0000_0000nat != 0 && n % 0x1_0000_0000nat != 0x1_0000_0000nat - 1
    }

    proof fn lemma_ring(a: i32, b: i32, k: int) {
        lemma_mod_of_small(a as int, 0x1_0000_0000int);
        lemma_mod_of_small(b as int, 0x1_0000_0000int);
        if a.residue() == b.residue() {
            lemma_window_injective(a as int, b as int, -0x8000_0000int, 0x1_0000_0000int);
        }
        let r = k % 0x1_0000_0000int;
        if r < 0x8000_0000 {
            lemma_small_mod(r as nat, 0x1_0000_0000nat);
        } else {
            lemma_mod_of_small(r - 0x1_0000_0000int, 0x1_0000_0000int);
        }
    }

    proof fn lemma_div(a: i32, d: i32) {
        lemma_trunc_in_window(a as int, d as int, 0x8000_0000int);
        lemma_trunc_div_rem(a as int, d as int);
        lemma_div_congruence(
            a as int,
            d as int,
            trunc_div(a as int, d as int),
            trunc_rem(a as int, d as int),
            0x1_0000_0000int,
        );
    }

    proof fn lemma_count_divisor(a: i32, n: nat) {
    }

    fn zero() -> i32 {
        0
    }

    fn wrapping_add_assign(&mut self, addend: &i32) {
        let sum = i32::wrapping_add(*self, *addend);
        proof {
            lemma_wrapped_add(sum as int, *old(self) as int, *addend as int, 0x1_0000_0000int);
        }
        *self = sum;
    }

    fn wrapping_difference(&self, other: &i32) -> i32 {
        let difference = i32::wrapping_sub(*self, *other);
        proof {
            lemma_wrapped_sub(difference as int, *self as int, *other as int, 0x1_0000_0000int);
        }
        difference
    }

    fn from_count(n: usize) -> i32 {
        let k = ((n as u64) % 0x1_0000_0000) as u32;
        proof {
            
            lemma_mod_twice(n as int, 0x1_0000_0000int);
        }
        i32_from_pattern(k)
    }

    fn from_random_bits(bits: u128) -> i32 {
        let k = (bits % 0x1_0000_0000) as u32;
        proof {
            lemma_small_mod(bits as nat, 0x1_0000_0000_0000_0000_0000_0000_0000_0000nat);
            lemma_mod_twice(bits as int, 0x1_0000_0000int);
        }
        i32_from_pattern(k)
    }

    fn div_rem(&self, d: &i32) -> (i32, i32) {
        (*self / *d, *self % *d)
    }

    fn same_as(&self, other: &i32) -> bool {
        *self == *other
    }
}

/// The `i64` with the given two's-complement bit pattern.
fn i64_from_pattern(k: u64) -> (r: i64)
    ensures
        r == <i64 as Value>::from_residue(k as int),
{
    proof {
        lemma_small_mod(k as nat, 0x1_0000_0000_0000_0000nat);
    }
    if k < 0x8000_0000_0000_0000 {
        k as i64
    } else {
        ((k - 0x8000_0000_0000_0000) as i64) + i64::MIN
    }
}

impl Value for i64 {
    open spec fn modulus() -> int {
        0x1_0000_0000_0000_0000int
    }

    open spec fn residue(self) -> int {
        (self as int) % 0x1_0000_0000_0000_0000int
    }

    open spec fn from_residue(k: int) -> i64 {
        if k % 0x1_0000_0000_0000_0000int < 0x8000_0000_0000_0000int {
            (k % 0x1_0000_0000_0000_0000int) as i64
        } else {
            (k % 0x1_0000_0000_0000_0000int - 0x1_0000_0000_0000_0000int) as i64
        }
    }

    open spec fn div_defined(self, d: i64) -> bool {
        d != 0 && !(self == i64::MIN && d == -1)
    }

    open spec fn spec_div(self, d: i64) -> i64 {
        trunc_div(self as int, d as int) as i64
    }

    open spec fn spec_rem(self, d: i64) -> i64 {
        trunc_rem(self as int, d as int) as i64
    }

    open spec fn count_divides(n: nat) -> bool {
        n % 0x1_0000_0000_0000_0000nat != 0 && n % 0x1_0000_0000_0000_0000nat != 0x1_0000_0000_0000_0000nat - 1
    }

    proof fn lemma_ring(a: i64, b: i64, k: int) {
        lemma_mod_of_small(a as int, 0x1_0000_0000_0000_0000int);
        lemma_mod_of_small(b as int, 0x1_0000_0000_0000_0000int);
        if a.residue() == b.residue() {
            lemma_window_injective(a as int, b as int, -0x8000_0000_0000_0000int, 0x1_0000_0000_0000_0000int);
        }
        let r = k % 0x1_0000_0000_0000_0000int;
        if r < 0x8000_0000_0000_0000 {
            lemma_small_mod(r as nat, 0x1_0000_0000_0000_0000nat);
        } else {
            lemma_mod_of_small(r - 0x1_0000_0000_0000_0000int, 0x1_0000_0000_0000_0000int);
        }
    }

    proof fn lemma_div(a: i64, d: i64) {
        lemma_trunc_in_window(a as int, d as int, 0x8000_0000_0000_0000int);
        lemma_trunc_div_rem(a as int, d as int);
        lemma_div_congruence(
            a as int,
            d as int,
            trunc_div(a as int, d as int),
            trunc_rem(a as int, d as int),
            0x1_0000_0000_0000_0000int,
        );
    }

    proof fn lemma_count_divisor(a: i64, n: nat) {
    }

    fn zero() -> i64 {
        0
    }

    fn wrapping_add_assign(&mut self, addend: &i64) {
        let sum = i64::wrapping_add(*self, *addend);
        proof {
            lemma_wrapped_add(sum as int, *old(self) as int, *addend as int, 0x1_0000_0000_0000_0000int);
        }
        *self = sum;
    }

    fn wrapping_difference(&self, other: &i64) -> i64 {
        let difference = i64::wrapping_sub(*self, *other);
        proof {
            lemma_wrapped_sub(difference as int, *self as int, *other as int, 0x1_0000_0000_0000_0000int);
        }
        difference
    }

    fn from_count(n: usize) -> i64 {
        let k = n as u64;
        proof {
            lemma_small_mod(n as nat, 0x1_0000_0000_0000_0000nat);
            lemma_mod_twice(n as int, 0x1_0000_0000_0000_0000int);
        }
        i64_from_pattern(k)
    }

    fn from_random_bits(bits: u128) -> i64 {
        let k = (bits % 0x1_0000_0000_0000_0000) as u64;
        proof {
            lemma_small_mod(bits as nat, 0x1_0000_0000_0000_0000_0000_0000_0000_0000nat);
            lemma_mod_twice(bits as int, 0x1_0000_0000_0000_0000int);
        }
        i64_from_pattern(k)
    }

    fn div_rem(&self, d: &i64) -> (i64, i64) {
        (*self / *d, *self % *d)
    }

    fn same_as(&self, other: &i64) -> bool {
        *self == *other
    }
}

/// The `i128` with the given two's-complement bit pattern.
fn i128_from_pattern(k: u128) -> (r: i128)
    ensures
        r == <i128 as Value>::from_residue(k as int),
{
    proof {
        lemma_small_mod(k as nat, 0x1_0000_0000_0000_0000_0000_0000_0000_0000nat);
    }
    if k < 0x8000_0000_0000_0000_0000_0000_0000_0000 {
        k as i128
    } else {
        ((k - 0x8000_0000_0000_0000_0000_0000_0000_0000) as i128) + i128::MIN
    }
}

impl Value for i128 {
    open spec fn modulus() -> int {
        0x1_0000_0000_0000_0000_0000_0000_0000_0000int
    }

    open spec fn residue(self) -> int {
        (self as int) % 0x1_0000_0000_0000_0000_0000_0000_0000_0000int
    }

    open spec fn from_residue(k: int) -> i128 {
        if k % 0x1_0000_0000_0000_0000_0000_0000_0000_0000int < 0x8000_0000_0000_0000_0000_0000_0000_0000int {
            (k % 0x1_0000_0000_0000_0000_0000_0000_0000_0000int) as i128
        } else {
            (k % 0x1_0000_0000_0000_0000_0000_0000_0000_0000int - 0x1_0000_0000_0000_0000_0000_0000_0000_0000int) as i128
        }
    }

    open spec fn div_defined(self, d: i128) -> bool {
        d != 0 && !(self == i128::MIN && d == -1)
    }

    open spec fn spec_div(self, d: i128) -> i128 {
        trunc_div(self as int, d as int) as i128
    }

    open spec fn spec_rem(self, d: i128) -> i128 {
        trunc_rem(self as int, d as int) as i128
    }

    open spec fn count_divides(n: nat) -> bool {
        n % 0x1_0000_0000_0000_0000_0000_0000_0000_0000nat != 0 && n % 0x1_0000_0000_0000_0000_0000_0000_0000_0000nat != 0x1_0000_0000_0000_0000_0000_0000_0000_0000nat - 1
    }

    proof fn lemma_ring(a: i128, b: i128, k: int) {
        lemma_mod_of_small(a as int, 0x1_0000_0000_0000_0000_0000_0000_0000_0000int);
        lemma_mod_of_small(b as int, 0x1_0000_0000_0000_0000_0000_0000_0000_0000int);
        if a.residue() == b.residue() {
            lemma_window_injective(a as int, b as int, -0x8000_0000_0000_0000_0000_0000_0000_0000int, 0x1_0000_0000_0000_0000_0000_0000_0000_0000int);
        }
        let r = k % 0x1_0000_0000_0000_0000_0000_0000_0000_0000int;
        if r < 0x8000_0000_0000_0000_0000_0000_0000_0000 {
            lemma_small_mod(r as nat, 0x1_0000_0000_0000_0000_0000_0000_0000_0000nat);
        } else {
            lemma_mod_of_small(r - 0x1_0000_0000_0000_0000_0000_0000_0000_0000int, 0x1_0000_0000_0000_0000_0000_0000_0000_0000int);
        }
    }

    proof fn lemma_div(a: i128, d: i128) {
        lemma_trunc_in_window(a as int, d as int, 0x8000_0000_0000_0000_0000_0000_0000_0000int);
        lemma_trunc_div_rem(a as int, d as int);
        lemma_div_congruence(
            a as int,
            d as int,
            trunc_div(a as int, d as int),
            trunc_rem(a as int, d as int),
            0x1_0000_0000_0000_0000_0000_0000_0000_0000int,
        );
    }

    proof fn lemma_count_divisor(a: i128, n: nat) {
    }

    fn zero() -> i128 {
        0
    }

    fn wrapping_add_assign(&mut self, addend: &i128) {
        let sum = i128::wrapping_add(*self, *addend);
        proof {
            lemma_wrapped_add(sum as int, *old(self) as int, *addend as int, 0x1_0000_0000_0000_0000_0000_0000_0000_0000int);
        }
        *self = sum;
    }

    fn wrapping_difference(&self, other: &i128) -> i128 {
        let difference = i128::wrapping_sub(*self, *other);
        proof {
            lemma_wrapped_sub(difference as int, *self as int, *other as int, 0x1_0000_0000_0000_0000_0000_0000_0000_0000int);
        }
        difference
    }

    fn from_count(n: usize) -> i128 {
        let k = n as u128;
        proof {
            lemma_small_mod(n as nat, 0x1_0000_0000_0000_0000_0000_0000_0000_0000nat);
            lemma_mod_twice(n as int, 0x1_0000_0000_0000_0000_0000_0000_0000_0000int);
        }
        i128_from_pattern(k)
    }

    fn from_random_bits(bits: u128) -> i128 {
        let k = bits;
        proof {
            lemma_small_mod(bits as nat, 0x1_0000_0000_0000_0000_0000_0000_0000_0000nat);
            lemma_mod_twice(bits as int, 0x1_0000_0000_0000_0000_0000_0000_0000_0000int);
        }
        i128_from_pattern(k)
    }

    fn div_rem(&self, d: &i128) -> (i128, i128) {
        (*self / *d, *self % *d)
    }

    fn same_as(&self, other: &i128) -> bool {
        *self == *other
    }
}

} // verus!
