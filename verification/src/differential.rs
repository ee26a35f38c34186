//! The differential variant of the probability table: for every input difference, how often
//! each output difference follows it over one round.

use crate::parallel::par_map;
use crate::spn::{combined_transform, Tables, BLOCKS};
use crate::sums::{lemma_sum_equal, lemma_sum_point, lemma_sum_scaled, sum_to};
use crate::table::{
    all_masks, compact, dense_fn, is_sparse_form, is_table, row_sum, rows_view, table_prob, Entry,
    ProbabilityTable, ONE,
};
use vstd::prelude::*;

verus! {

/// The output difference of the pair of `x` and `x ^ alpha` after one round.
pub open spec fn output_difference(alpha: u16, x: u16) -> u16 {
    combined_transform(x) ^ combined_transform(x ^ alpha)
}

/// The number of blocks below `n` whose pair has the output difference `beta`.
pub open spec fn difference_count(alpha: u16, beta: u16, n: nat) -> int
    decreases n,
{
    if n == 0 {
        0
    } else {
        difference_count(alpha, beta, (n - 1) as nat) + if output_difference(
            alpha,
            (n - 1) as u16,
        ) == beta {
            1int
        } else {
            0int
        }
    }
}

/// A count of blocks out of all 65536, as a probability.
pub open spec fn count_to_prob(count: int) -> u64 {
    (count * 0x4000_0000_0000) as u64
}

/// The probability that the input difference `alpha` gives the output difference `beta`.
pub open spec fn differential_prob(alpha: u16, beta: u16) -> u64 {
    count_to_prob(difference_count(alpha, beta, BLOCKS as nat))
}

/// For each output difference, the number of blocks below `n` that give it.
pub open spec fn counts_at(alpha: u16, n: nat) -> spec_fn(int) -> int {
    |beta: int| difference_count(alpha, beta as u16, n)
}

/// For each output difference, its probability.
pub open spec fn differential_row_fn(alpha: u16) -> spec_fn(int) -> int {
    |beta: int| differential_prob(alpha, beta as u16) as int
}

/// A count is at most the number of blocks looked at.
pub proof fn lemma_difference_count_bound(alpha: u16, beta: u16, n: nat)
    ensures
        0 <= difference_count(alpha, beta, n) <= n,
    decreases n,
{
    if n > 0 {
        lemma_difference_count_bound(alpha, beta, (n - 1) as nat);
    }
}

/// Every block gives one output difference: the counts of all output differences add up to
/// the number of blocks looked at.
pub proof fn lemma_difference_counts_total(alpha: u16, n: nat)
    ensures
        sum_to(counts_at(alpha, n), BLOCKS as int) == n,
    decreases n,
{
    if n == 0 {
        lemma_sum_scaled(counts_at(alpha, 0), counts_at(alpha, 0), BLOCKS as int, 0);
    } else {
        let before = (n - 1) as nat;
        lemma_difference_counts_total(alpha, before);
        let d = output_difference(alpha, before as u16);
        assert forall|beta: int| 0 <= beta < BLOCKS && beta != d implies #[trigger] counts_at(
            alpha,
            n,
        )(beta) == counts_at(alpha, before)(beta) by {
            assert(beta as u16 != d);
        }
        lemma_sum_point(counts_at(alpha, before), counts_at(alpha, n), BLOCKS as int, d as int, 1);
    }
}

/// The probabilities of all output differences of one input difference add up to 1.
pub proof fn lemma_differential_row_sums_to_one(alpha: u16)
    ensures
        sum_to(differential_row_fn(alpha), BLOCKS as int) == ONE,
{
    lemma_difference_counts_total(alpha, BLOCKS as nat);
    assert forall|beta: int| 0 <= beta < BLOCKS implies #[trigger] differential_row_fn(alpha)(beta)
        == 0x4000_0000_0000 * counts_at(alpha, BLOCKS as nat)(beta) by {
        lemma_difference_count_bound(alpha, beta as u16, BLOCKS as nat);
    }
    lemma_sum_scaled(
        counts_at(alpha, BLOCKS as nat),
        differential_row_fn(alpha),
        BLOCKS as int,
        0x4000_0000_0000,
    );
}

/// The input difference 0 gives the output difference 0, for certain, and no other.
pub proof fn lemma_zero_difference(beta: u16)
    ensures
        differential_prob(0, beta) == if beta == 0 {
            ONE
        } else {
            0
        },
{
    lemma_zero_difference_count(beta, BLOCKS as nat);
}

proof fn lemma_zero_difference_count(beta: u16, n: nat)
    ensures
        difference_count(0, beta, n) == if beta == 0 {
            n as int
        } else {
            0
        },
    decreases n,
{
    if n > 0 {
        lemma_zero_difference_count(beta, (n - 1) as nat);
        let x = (n - 1) as u16;
        assert(x ^ 0 == x) by (bit_vector);
        let y = combined_transform(x);
        assert(y ^ y == 0) by (bit_vector);
    }
}

/// The row of one input difference: the probability of every output difference that follows
/// it at all. The probabilities of a row add up to 1.
pub fn differential_row(tables: &Tables, alpha: u16) -> (row: Vec<Entry>)
    ensures
        is_sparse_form(row@, |beta: u16| differential_prob(alpha, beta)),
        row_sum(row@) == ONE,
{
    let mut counts: Vec<u32> = Vec::new();
    let mut beta: usize = 0;
    while beta < BLOCKS
        invariant
            beta <= BLOCKS,
            counts@.len() == beta,
            forall|b: int| 0 <= b < beta ==> #[trigger] counts@[b] == 0,
        decreases BLOCKS - beta,
    {
        counts.push(0);
        beta += 1;
    }
    let mut x: usize = 0;
    while x < BLOCKS
        invariant
            x <= BLOCKS,
            counts@.len() == BLOCKS,
            forall|b: int|
                0 <= b < BLOCKS ==> #[trigger] counts@[b] == difference_count(alpha, b as u16, x as nat),
        decreases BLOCKS - x,
    {
        let block = x as u16;
        let difference = tables.combined_transform(block) ^ tables.combined_transform(block ^ alpha);
        let place = difference as usize;
        proof {
            lemma_difference_count_bound(alpha, difference, x as nat);
        }
        let count = counts[place];
        counts.set(place, count + 1);
        x += 1;
    }
    let mut dense: Vec<u64> = Vec::new();
    let mut beta: usize = 0;
    while beta < BLOCKS
        invariant
            beta <= BLOCKS,
            counts@.len() == BLOCKS,
            forall|b: int|
                0 <= b < BLOCKS ==> #[trigger] counts@[b] == difference_count(
                    alpha,
                    b as u16,
                    BLOCKS as nat,
                ),
            dense@.len() == beta,
            forall|b: int| 0 <= b < beta ==> #[trigger] dense@[b] == differential_prob(alpha, b as u16),
            forall|b: int| 0 <= b < beta ==> #[trigger] dense@[b] <= ONE,
        decreases BLOCKS - beta,
    {
        proof {
            lemma_difference_count_bound(alpha, beta as u16, BLOCKS as nat);
        }
        let count: u64 = counts[beta] as u64;
        dense.push(count * 0x4000_0000_0000);
        beta += 1;
    }
    proof {
        lemma_differential_row_sums_to_one(alpha);
        lemma_sum_equal(dense_fn(dense@), differential_row_fn(alpha), BLOCKS as int);
    }
    compact(&dense)
}

/// The rows of the given input differences, in their order, computed in parallel.
pub fn generate_dp_rows(tables: &Tables, alphas: &[u16]) -> (rows: Vec<Vec<Entry>>)
    ensures
        rows@.len() == alphas@.len(),
        forall|i: int|
            0 <= i < alphas@.len() ==> {
                &&& is_sparse_form((#[trigger] rows@[i])@, |beta: u16| differential_prob(alphas@[i], beta))
                &&& row_sum(rows@[i]@) == ONE
            },
{
    let row_of = |alpha: u16| -> (row: Vec<Entry>)
        ensures
            is_sparse_form(row@, |beta: u16| differential_prob(alpha, beta)),
            row_sum(row@) == ONE,
        { differential_row(tables, alpha) };
    par_map(alphas, row_of)
}

/// The differential probability table: the row of every input difference.
pub fn generate_dp_table(tables: &Tables) -> (table: ProbabilityTable)
    ensures
        is_table(table@),
        forall|alpha: u16, beta: u16| #[trigger]
            table_prob(table@, alpha, beta) == differential_prob(alpha, beta),
        forall|alpha: int| 0 <= alpha < BLOCKS ==> row_sum(#[trigger] table@[alpha]) == ONE,
{
    let alphas = all_masks();
    let rows = generate_dp_rows(tables, alphas.as_slice());
    proof {
        let view = rows_view(rows@);
        assert forall|alpha: int| 0 <= alpha < BLOCKS implies is_sparse_form(
            #[trigger] view[alpha],
            |beta: u16| differential_prob(alpha as u16, beta),
        ) && row_sum(view[alpha]) == ONE by {
            assert(is_sparse_form(rows@[alpha]@, |beta: u16| differential_prob(alphas@[alpha], beta)));
        }
        assert forall|alpha: u16, beta: u16| #[trigger]
            table_prob(view, alpha, beta) == differential_prob(alpha, beta) by {
            assert(is_sparse_form(view[alpha as int], |beta: u16| differential_prob(alpha, beta)));
        }
    }
    ProbabilityTable::from_valid_rows(rows)
}

} // verus!
