use vstd::prelude::*;
use vstd::arithmetic::div_mod::{
    lemma_add_mod_noop, lemma_fundamental_div_mod, lemma_mod_add_multiples_vanish,
    lemma_mod_equivalence, lemma_mod_sub_multiples_vanish, lemma_mod_twice, lemma_small_mod, lemma_mul_mod_noop,
    lemma_sub_mod_noop,
};

verus! {

/// Quotient of Rust's truncating integer division.
pub open spec fn trunc_div(a: int, d: int) -> int {
    if a >= 0 {
        a / d
    } else {
        -((-a) / d)
    }
}

/// Remainder of Rust's truncating integer division (it takes the sign of `a`).
pub open spec fn trunc_rem(a: int, d: int) -> int {
    if a >= 0 {
        a % d
    } else {
        -((-a) % d)
    }
}

/// Truncating division and remainder put `a` back together.
pub proof fn lemma_trunc_div_rem(a: int, d: int)
    requires
        d != 0,
    ensures
        trunc_div(a, d) * d + trunc_rem(a, d) == a,
{
    lemma_fundamental_div_mod(a, d);
    lemma_fundamental_div_mod(-a, d);
    assert(trunc_div(a, d) * d + trunc_rem(a, d) == a) by (nonlinear_arith)
        requires
            a == d * (a / d) + (a % d),
            -a == d * ((-a) / d) + ((-a) % d),
            trunc_div(a, d) == (if a >= 0 { a / d } else { -((-a) / d) }),
            trunc_rem(a, d) == (if a >= 0 { a % d } else { -((-a) % d) }),
    ;
}

/// A result that wrapped around at most once is congruent to the exact sum.
pub proof fn lemma_wrapped_add(r: int, a: int, b: int, m: int)
    requires
        m > 0,
        r == a + b || r == a + b - m || r == a + b + m,
    ensures
        r % m == (a % m + b % m) % m,
{
    lemma_add_mod_noop(a, b, m);
    lemma_mod_add_multiples_vanish(a + b, m);
    lemma_mod_sub_multiples_vanish(a + b, m);
}

/// A result that wrapped around at most once is congruent to the exact difference.
pub proof fn lemma_wrapped_sub(r: int, a: int, b: int, m: int)
    requires
        m > 0,
        r == a - b || r == a - b - m || r == a - b + m,
    ensures
        r % m == (a % m - b % m) % m,
{
    lemma_sub_mod_noop(a, b, m);
    lemma_mod_add_multiples_vanish(a - b, m);
    lemma_mod_sub_multiples_vanish(a - b, m);
}

/// Two integers of one window of width `m` that agree modulo `m` are equal.
pub proof fn lemma_window_injective(x: int, y: int, lo: int, m: int)
    requires
        m > 0,
        lo <= x < lo + m,
        lo <= y < lo + m,
        x % m == y % m,
    ensures
        x == y,
{
    lemma_mod_equivalence(x, y, m);
    lemma_fundamental_div_mod(x - y, m);
    let q = (x - y) / m;
    assert(q == 0) by (nonlinear_arith)
        requires
            x - y == m * q,
            -m < x - y < m,
            m > 0,
    ;
}

/// Reducing an integer of the window `[-m, m)` modulo `m`.
pub proof fn lemma_mod_of_small(x: int, m: int)
    requires
        m > 0,
        -m <= x < m,
    ensures
        x % m == (if x < 0 { x + m } else { x }),
{
    if x >= 0 {
        lemma_small_mod(x as nat, m as nat);
    } else {
        lemma_small_mod((x + m) as nat, m as nat);
        lemma_mod_add_multiples_vanish(x, m);
    }
}

/// Division facts stay true modulo `m`: `q * d + r == a` gives the same residues.
pub proof fn lemma_div_congruence(a: int, d: int, q: int, r: int, m: int)
    requires
        m > 0,
        q * d + r == a,
    ensures
        ((q % m) * (d % m) + r % m) % m == a % m,
{
    lemma_mul_mod_noop(q, d, m);
    lemma_add_mod_noop((q % m) * (d % m), r % m, m);
    lemma_add_mod_noop(q * d, r, m);
    lemma_mod_twice(r, m);
}

/// Congruences can be added.
pub proof fn lemma_add_congruent(x: int, y: int, a: int, b: int, m: int)
    requires
        m > 0,
        x % m == a % m,
        y % m == b % m,
    ensures
        (x + y) % m == (a + b) % m,
{
    lemma_add_mod_noop(x, y, m);
    lemma_add_mod_noop(a, b, m);
}

/// Congruences can be scaled.
pub proof fn lemma_mul_congruent(x: int, a: int, k: int, m: int)
    requires
        m > 0,
        x % m == a % m,
    ensures
        (k * x) % m == (k * a) % m,
{
    lemma_mul_mod_noop(k, x, m);
    lemma_mul_mod_noop(k, a, m);
}

/// Bounds of Euclidean division of a non-negative dividend.
pub proof fn lemma_euclid_div_bounds(a: int, d: int)
    requires
        a >= 0,
        d != 0,
    ensures
        d > 0 ==> 0 <= a / d <= a,
        d < 0 ==> -a <= a / d <= 0,
        (d > 1 || d < -1) && a > 0 ==> -a < a / d < a,
        d > 0 ==> 0 <= a % d < d,
        d < 0 ==> 0 <= a % d < -d,
        a % d <= a,
{
    lemma_fundamental_div_mod(a, d);
    let q = a / d;
    let r = a % d;
    assert(d > 0 ==> 0 <= r < d);
    assert(d < 0 ==> 0 <= r < -d);
    assert(d > 0 ==> 0 <= q <= a) by (nonlinear_arith)
        requires
            a == d * q + r,
            d > 0 ==> 0 <= r < d,
            a >= 0,
    ;
    assert(d < 0 ==> -a <= q <= 0) by (nonlinear_arith)
        requires
            a == d * q + r,
            d < 0 ==> 0 <= r < -d,
            a >= 0,
    ;
    assert((d > 1 || d < -1) && a > 0 ==> -a < q < a) by (nonlinear_arith)
        requires
            a == d * q + r,
            d > 0 ==> 0 <= r < d,
            d < 0 ==> 0 <= r < -d,
            a >= 0,
    ;
    assert(r <= a) by (nonlinear_arith)
        requires
            a == d * q + r,
            d > 0 ==> 0 <= q,
            d < 0 ==> q <= 0,
            0 <= r,
    ;
}

/// Truncating division of a value of `[-h, h)` stays in `[-h, h)` unless it is `-h / -1`,
/// and its remainder stays there too.
pub proof fn lemma_trunc_in_window(a: int, d: int, h: int)
    requires
        d != 0,
        -h <= a < h,
        -h <= d < h,
        !(a == -h && d == -1),
    ensures
        -h <= trunc_div(a, d) < h,
        -h <= trunc_rem(a, d) < h,
{
    if a >= 0 {
        lemma_euclid_div_bounds(a, d);
    } else {
        lemma_euclid_div_bounds(-a, d);
    }
}

} // verus!
