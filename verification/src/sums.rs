use vstd::prelude::*;
use crate::modular::lemma_add_congruent;
use crate::protocol::total;
use crate::state::lemma_present_all;
use crate::value::{residue_sum, Value};
use vstd::arithmetic::div_mod::lemma_mod_twice;

verus! {

/// The sum of a sequence of integers.
pub open spec fn sum_of(s: Seq<int>) -> int
    decreases s.len(),
{
    if s.len() == 0 {
        0
    } else {
        sum_of(s.drop_last()) + s.last()
    }
}

/// The residues of a sequence of values.
pub open spec fn residues<V: Value>(s: Seq<V>) -> Seq<int> {
    Seq::new(s.len(), |t: int| s[t].residue())
}

/// Column `j` of a grid of integers.
pub open spec fn column(grid: Seq<Seq<int>>, j: int) -> Seq<int> {
    Seq::new(grid.len(), |i: int| grid[i][j])
}

/// The sums of the rows of a grid.
pub open spec fn row_sums(grid: Seq<Seq<int>>) -> Seq<int> {
    Seq::new(grid.len(), |i: int| sum_of(grid[i]))
}

/// The sums of the first `cols` columns of a grid.
pub open spec fn column_sums(grid: Seq<Seq<int>>, cols: nat) -> Seq<int> {
    Seq::new(cols, |j: int| sum_of(column(grid, j)))
}

/// The sum of a pointwise sum is the sum of the sums.
proof fn lemma_sum_of_add(s: Seq<int>, t: Seq<int>, u: Seq<int>)
    requires
        s.len() == t.len(),
        u.len() == s.len(),
        forall|i: int| 0 <= i < s.len() ==> #[trigger] u[i] == s[i] + t[i],
    ensures
        sum_of(u) == sum_of(s) + sum_of(t),
    decreases s.len(),
{
    if s.len() > 0 {
        lemma_sum_of_add(s.drop_last(), t.drop_last(), u.drop_last());
    }
}

/// Sums of sequences that agree pointwise modulo `m` agree modulo `m`.
proof fn lemma_sum_of_congruent(s: Seq<int>, t: Seq<int>, m: int)
    requires
        m > 0,
        s.len() == t.len(),
        forall|i: int| 0 <= i < s.len() ==> #[trigger] s[i] % m == t[i] % m,
    ensures
        sum_of(s) % m == sum_of(t) % m,
    decreases s.len(),
{
    if s.len() > 0 {
        lemma_sum_of_congruent(s.drop_last(), t.drop_last(), m);
        lemma_add_congruent(
            sum_of(s.drop_last()),
            s.last(),
            sum_of(t.drop_last()),
            t.last(),
            m,
        );
    }
}

/// The sum of `k` copies of `c` is `k * c`.
proof fn lemma_sum_of_constant(s: Seq<int>, c: int)
    requires
        forall|i: int| 0 <= i < s.len() ==> #[trigger] s[i] == c,
    ensures
        sum_of(s) == s.len() * c,
    decreases s.len(),
{
    if s.len() > 0 {
        lemma_sum_of_constant(s.drop_last(), c);
        assert((s.len() - 1) * c + c == s.len() * c) by (nonlinear_arith);
    }
}

/// Summing a grid by rows or by columns gives the same total.
proof fn lemma_sum_by_rows_and_columns(grid: Seq<Seq<int>>, cols: nat)
    requires
        forall|i: int| 0 <= i < grid.len() ==> (#[trigger] grid[i]).len() == cols,
    ensures
        sum_of(row_sums(grid)) == sum_of(column_sums(grid, cols)),
    decreases grid.len(),
{
    if grid.len() > 0 {
        let front = grid.drop_last();
        let last = grid.last();
        lemma_sum_by_rows_and_columns(front, cols);
        assert(row_sums(grid).drop_last() =~= row_sums(front));
        assert forall|j: int| 0 <= j < cols implies #[trigger] column_sums(grid, cols)[j]
            == column_sums(front, cols)[j] + last[j] by {
            assert(column(grid, j).drop_last() =~= column(front, j));
        }
        lemma_sum_of_add(column_sums(front, cols), last, column_sums(grid, cols));
    } else {
        assert forall|j: int| 0 <= j < cols implies #[trigger] column_sums(grid, cols)[j] == 0 by {
            assert(column(grid, j) =~= Seq::<int>::empty());
        }
        lemma_sum_of_constant(column_sums(grid, cols), 0);
    }
}

/// The residue sum of values is the sum of their residues.
proof fn lemma_residue_sum_is_sum_of<V: Value>(s: Seq<V>)
    ensures
        residue_sum(s) == sum_of(residues(s)),
    decreases s.len(),
{
    if s.len() > 0 {
        lemma_residue_sum_is_sum_of(s.drop_last());
        assert(residues(s).drop_last() =~= residues(s.drop_last()));
    }
}

/// The residues of the shares: row `i` holds those of party `i`'s split.
pub open spec fn residue_grid<V: Value>(splits: Seq<Seq<V>>) -> Seq<Seq<int>> {
    Seq::new(splits.len(), |i: int| residues(splits[i]))
}

/// The share slots of party `j` once party `i` has sent it `splits[i][j]`, for every `i`.
pub open spec fn received_by<V>(splits: Seq<Seq<V>>, j: int) -> Seq<Option<V>> {
    Seq::new(splits.len(), |i: int| Some(splits[i][j]))
}

/// The partial sums of the parties (the wrapping sum of the shares each receives) when
/// party `i` splits its secret into `splits[i]`.
pub open spec fn partial_sums_of<V: Value>(splits: Seq<Seq<V>>) -> Seq<V> {
    Seq::new(splits.len(), |j: int| total(received_by(splits, j)))
}

/// Additive sharing: when each of `n` parties splits its secret into `n` shares that add up
/// to it, and party `j` receives share `j` of every split, the partial sums of the `n`
/// parties add up to the sum of the secrets, in the ring of the value type.
pub proof fn lemma_partial_sums_add_up_to_secrets<V: Value>(splits: Seq<Seq<V>>, secrets: Seq<V>)
    requires
        splits.len() == secrets.len(),
        forall|i: int| 0 <= i < splits.len() ==> (#[trigger] splits[i]).len() == splits.len(),
        forall|i: int|
            0 <= i < splits.len() ==> residue_sum(#[trigger] splits[i]) % V::modulus()
                == secrets[i].residue(),
    ensures
        residue_sum(partial_sums_of(splits)) % V::modulus() == residue_sum(secrets) % V::modulus(),
{
    let n = splits.len();
    let m = V::modulus();
    let sums = partial_sums_of(splits);
    let grid = residue_grid(splits);
    V::lemma_ring(sums[0], sums[0], 0);
    // Each candidate is its column sum, reduced modulo m.
    assert forall|j: int| 0 <= j < n implies #[trigger] residues(sums)[j] % m == column_sums(
        grid,
        n,
    )[j] % m by {
        let received = Seq::new(n, |i: int| splits[i][j]);
        lemma_present_all(received_by(splits, j), received);
        lemma_residue_sum_is_sum_of(received);
        assert(residues(received) =~= column(grid, j));
        V::lemma_ring(sums[j], sums[j], residue_sum(received));
        lemma_mod_twice(residue_sum(received), m);
    }
    lemma_residue_sum_is_sum_of(sums);
    lemma_sum_of_congruent(residues(sums), column_sums(grid, n), m);
    lemma_sum_by_rows_and_columns(grid, n);
    // Each row sum is its secret, modulo m.
    assert forall|i: int| 0 <= i < n implies #[trigger] row_sums(grid)[i] % m == residues(
        secrets,
    )[i] % m by {
        lemma_residue_sum_is_sum_of(splits[i]);
        V::lemma_ring(secrets[i], secrets[i], 0);
        vstd::arithmetic::div_mod::lemma_small_mod(secrets[i].residue() as nat, m as nat);
    }
    lemma_sum_of_congruent(row_sums(grid), residues(secrets), m);
    lemma_residue_sum_is_sum_of(secrets);
}

} // verus!
