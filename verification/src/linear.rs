//! The linear variant of the probability table: the squared correlation of every pair of an
//! input mask and an output mask over one round.

use crate::parallel::par_map;
use crate::spn::{combined_transform, dot, lemma_parity_linear, parity, Tables, BLOCKS};
use crate::table::{
    all_masks, compact, is_sparse_form, is_table, rows_view, table_prob, Entry, ProbabilityTable,
    ONE,
};
use vstd::prelude::*;

verus! {

/// 1 where the linear approximation `alpha . x = beta . combined_transform(x)` fails at `x`,
/// 0 where it holds.
pub open spec fn linear_miss(alpha: u16, beta: u16, x: u16) -> u16 {
    parity((alpha & x) ^ (beta & combined_transform(x)))
}

/// The number of blocks below `n` at which the linear approximation fails.
pub open spec fn linear_misses(alpha: u16, beta: u16, n: nat) -> int
    decreases n,
{
    if n == 0 {
        0
    } else {
        linear_misses(alpha, beta, (n - 1) as nat) + linear_miss(alpha, beta, (n - 1) as u16)
    }
}

/// The bias of the approximation, times 65536: the number of blocks at which it holds less the
/// number of blocks at which it fails.
pub open spec fn bias_numerator(alpha: u16, beta: u16) -> int {
    BLOCKS - 2 * linear_misses(alpha, beta, BLOCKS as nat)
}

/// The square of a bias that is given by its numerator over 65536, as a probability.
pub open spec fn squared_bias(numerator: int) -> u64 {
    (numerator * numerator * 0x4000_0000) as u64
}

/// The squared correlation of the input mask `alpha` and the output mask `beta`.
pub open spec fn linear_prob(alpha: u16, beta: u16) -> u64 {
    squared_bias(bias_numerator(alpha, beta))
}

/// The approximation fails at `x` where the inner product of the input mask with `x` and that
/// of the output mask with the image of `x` differ.
pub proof fn lemma_linear_miss_is_dot(alpha: u16, beta: u16, x: u16)
    ensures
        linear_miss(alpha, beta, x) == dot(alpha, x) ^ dot(beta, combined_transform(x)),
{
    lemma_parity_linear(alpha & x, beta & combined_transform(x));
}

/// The number of failures of an approximation is at most the number of blocks looked at.
pub proof fn lemma_linear_misses_bound(alpha: u16, beta: u16, n: nat)
    ensures
        0 <= linear_misses(alpha, beta, n) <= n,
    decreases n,
{
    if n > 0 {
        lemma_linear_misses_bound(alpha, beta, (n - 1) as nat);
    }
}

/// A squared bias is a probability, and it is 0 only for the bias 0.
pub proof fn lemma_squared_bias(numerator: int)
    requires
        -65536 <= numerator <= 65536,
    ensures
        squared_bias(numerator) == numerator * numerator * 0x4000_0000,
        squared_bias(numerator) <= ONE,
        squared_bias(numerator) == 0 <==> numerator == 0,
{
    let sq = numerator * numerator;
    assert(0 <= sq <= 65536 * 65536 && (sq == 0 <==> numerator == 0)) by (nonlinear_arith)
        requires
            sq == numerator * numerator,
            -65536 <= numerator <= 65536,
    ;
}

/// Every squared correlation is a probability.
pub proof fn lemma_linear_prob_bound(alpha: u16, beta: u16)
    ensures
        linear_prob(alpha, beta) <= ONE,
{
    lemma_linear_misses_bound(alpha, beta, BLOCKS as nat);
    lemma_squared_bias(bias_numerator(alpha, beta));
}

/// The bias of one pair of masks, times 65536.
pub fn linear_bias(tables: &Tables, alpha: u16, beta: u16) -> (bias: i32)
    ensures
        bias == bias_numerator(alpha, beta),
        -65536 <= bias <= 65536,
{
    let mut misses: u32 = 0;
    let mut x: usize = 0;
    while x < BLOCKS
        invariant
            x <= BLOCKS,
            misses == linear_misses(alpha, beta, x as nat),
            misses <= x,
        decreases BLOCKS - x,
    {
        let block = x as u16;
        let image = tables.combined_transform(block);
        let miss = tables.parity((alpha & block) ^ (beta & image));
        misses += miss as u32;
        x += 1;
    }
    65536 - 2 * (misses as i32)
}

/// The square of a bias, as a probability.
pub fn bias_to_prob(bias: i32) -> (prob: u64)
    requires
        -65536 <= bias <= 65536,
    ensures
        prob == squared_bias(bias as int),
        prob <= ONE,
        prob == 0 <==> bias == 0,
{
    proof {
        lemma_squared_bias(bias as int);
    }
    let size: u64 = if bias < 0 {
        (-bias) as u64
    } else {
        bias as u64
    };
    assert(size * size == bias * bias && size * size <= 65536 * 65536) by (nonlinear_arith)
        requires
            size == bias || size == -bias,
            -65536 <= bias <= 65536,
    ;
    size * size * 0x4000_0000
}

/// The row of one input mask: the squared correlation with every output mask for which it
/// is above 0.
pub fn linear_row(tables: &Tables, alpha: u16) -> (row: Vec<Entry>)
    ensures
        is_sparse_form(row@, |beta: u16| linear_prob(alpha, beta)),
{
    let mut dense: Vec<u64> = Vec::new();
    let mut beta: usize = 0;
    while beta < BLOCKS
        invariant
            beta <= BLOCKS,
            dense@.len() == beta,
            forall|b: int| 0 <= b < beta ==> #[trigger] dense@[b] == linear_prob(alpha, b as u16),
            forall|b: int| 0 <= b < beta ==> #[trigger] dense@[b] <= ONE,
        decreases BLOCKS - beta,
    {
        let bias = linear_bias(tables, alpha, beta as u16);
        dense.push(bias_to_prob(bias));
        beta += 1;
    }
    compact(&dense)
}

/// The rows of the given input masks, in their order, computed in parallel.
pub fn generate_lp_rows(tables: &Tables, alphas: &[u16]) -> (rows: Vec<Vec<Entry>>)
    ensures
        rows@.len() == alphas@.len(),
        forall|i: int|
            0 <= i < alphas@.len() ==> is_sparse_form(
                (#[trigger] rows@[i])@,
                |beta: u16| linear_prob(alphas@[i], beta),
            ),
{
    let row_of = |alpha: u16| -> (row: Vec<Entry>)
        ensures
            is_sparse_form(row@, |beta: u16| linear_prob(alpha, beta)),
        { linear_row(tables, alpha) };
    par_map(alphas, row_of)
}

/// The linear probability table: the row of every input mask. Every entry is a probability,
/// above 0.
pub fn generate_lp_table(tables: &Tables) -> (table: ProbabilityTable)
    ensures
        is_table(table@),
        forall|alpha: u16, beta: u16| #[trigger]
            table_prob(table@, alpha, beta) == linear_prob(alpha, beta),
{
    let alphas = all_masks();
    let rows = generate_lp_rows(tables, alphas.as_slice());
    proof {
        let view = rows_view(rows@);
        assert forall|alpha: int| 0 <= alpha < BLOCKS implies is_sparse_form(
            #[trigger] view[alpha],
            |beta: u16| linear_prob(alpha as u16, beta),
        ) by {
            assert(is_sparse_form(rows@[alpha]@, |beta: u16| linear_prob(alphas@[alpha], beta)));
        }
        assert forall|alpha: u16, beta: u16| #[trigger]
            table_prob(view, alpha, beta) == linear_prob(alpha, beta) by {
            assert(is_sparse_form(view[alpha as int], |beta: u16| linear_prob(alpha, beta)));
        }
    }
    ProbabilityTable::from_valid_rows(rows)
}

} // verus!
