//! The trail search: a branch-and-bound over the probability table that carries a frontier of
//! masks and their accumulated probabilities from round to round and prunes what falls to the
//! bound or below.

use crate::spn::BLOCKS;
use crate::sums::{lemma_sum_monotone, lemma_sum_positive_term, sum_to};
use crate::table::{
    add_clamped, clamp, compact, is_row, is_sparse_form, is_table, lemma_prob_mul,
    lemma_prob_mul_zero, lemma_row_prob_at, lemma_sparse_form_unique, multiply, prob_mul, row_has, row_prob, table_prob, Entry, ProbabilityTable, ONE,
};
use vstd::prelude::*;

verus! {

/// A frontier: for each of the 65536 masks its accumulated probability, 0 for a mask that is
/// not on the frontier.
pub open spec fn is_frontier(frontier: Seq<u64>) -> bool {
    &&& frontier.len() == BLOCKS
    &&& forall|m: int| 0 <= m < BLOCKS ==> #[trigger] frontier[m] <= ONE
}

/// The frontier before the first round: the starting mask alone, with probability 1.
pub open spec fn start_frontier(alpha: u16) -> Seq<u64> {
    Seq::new(
        BLOCKS as nat,
        |m: int|
            if m == alpha {
                ONE
            } else {
                0
            },
    )
}

/// For each mask `beta`, what it hands on to `gamma` in one round: its probability on the
/// frontier times the table's probability of the step from `beta` to `gamma`.
pub open spec fn flow_fn(frontier: Seq<u64>, table: Seq<Seq<Entry>>, gamma: u16) -> spec_fn(
    int,
) -> int {
    |beta: int| prob_mul(frontier[beta], table_prob(table, beta as u16, gamma)) as int
}

/// What `gamma` receives from the first `n` masks, before it is cut off at 1.
pub open spec fn flow_into(frontier: Seq<u64>, table: Seq<Seq<Entry>>, gamma: u16, n: int) -> int {
    sum_to(flow_fn(frontier, table, gamma), n)
}

/// The probability that accumulates at `gamma` in one round: the sum over all masks of what
/// they hand on, cut off at 1.
pub open spec fn reach(frontier: Seq<u64>, table: Seq<Seq<Entry>>, gamma: u16) -> u64 {
    clamp(flow_into(frontier, table, gamma, BLOCKS as int))
}

/// The frontier after one more round: what accumulates at each mask, where that is above the
/// bound.
pub open spec fn advance(frontier: Seq<u64>, table: Seq<Seq<Entry>>, p_bound: u64) -> Seq<u64> {
    Seq::new(
        BLOCKS as nat,
        |gamma: int|
            if reach(frontier, table, gamma as u16) > p_bound {
                reach(frontier, table, gamma as u16)
            } else {
                0
            },
    )
}

/// The frontier after `r` rounds from the starting mask `alpha`.
pub open spec fn frontier_after(alpha: u16, r: nat, p_bound: u64, table: Seq<Seq<Entry>>) -> Seq<
    u64,
>
    decreases r,
{
    if r == 0 {
        start_frontier(alpha)
    } else {
        advance(frontier_after(alpha, (r - 1) as nat, p_bound, table), table, p_bound)
    }
}

/// What a mask hands on is not negative, and above 0 only where the mask is on the frontier
/// and the table holds the step.
pub proof fn lemma_flow_term(frontier: Seq<u64>, table: Seq<Seq<Entry>>, gamma: u16, beta: int)
    requires
        is_frontier(frontier),
        is_table(table),
        0 <= beta < BLOCKS,
    ensures
        0 <= flow_fn(frontier, table, gamma)(beta) <= ONE,
        flow_fn(frontier, table, gamma)(beta) > 0 ==> frontier[beta] > 0 && table_prob(
            table,
            beta as u16,
            gamma,
        ) > 0,
{
    lemma_table_prob_bound(table, beta as u16, gamma);
    lemma_prob_mul(frontier[beta], table_prob(table, beta as u16, gamma));
}

/// What a table holds is a probability.
pub proof fn lemma_table_prob_bound(table: Seq<Seq<Entry>>, alpha: u16, beta: u16)
    requires
        is_table(table),
    ensures
        table_prob(table, alpha, beta) <= ONE,
{
    let row = table[alpha as int];
    assert(is_row(row));
    if row_has(row, beta) {
        let j = choose|j: int| 0 <= j < row.len() && #[trigger] row[j].mask == beta;
        assert(row[j].prob <= ONE);
    }
}

/// What accumulates at a mask is not negative.
pub proof fn lemma_flow_into_bound(frontier: Seq<u64>, table: Seq<Seq<Entry>>, gamma: u16, n: int)
    requires
        is_frontier(frontier),
        is_table(table),
        0 <= n <= BLOCKS,
    ensures
        0 <= flow_into(frontier, table, gamma, n),
{
    assert forall|beta: int| 0 <= beta < n implies #[trigger] flow_fn(frontier, table, gamma)(beta)
        >= 0 by {
        lemma_flow_term(frontier, table, gamma, beta);
    }
    lemma_sum_monotone(flow_fn(frontier, table, gamma), n, n);
}

/// A row holds nothing for a mask that lies between two of its neighbouring entries, below its
/// first or above its last.
pub proof fn lemma_row_gap(row: Seq<Entry>, j: int, mask: u16)
    requires
        is_row(row),
        0 <= j <= row.len(),
        j > 0 ==> row[j - 1].mask < mask,
        j < row.len() ==> mask < row[j].mask,
    ensures
        row_prob(row, mask) == 0,
{
    if row_has(row, mask) {
        let c = choose|c: int| 0 <= c < row.len() && #[trigger] row[c].mask == mask;
        if c < j {
            if c < j - 1 {
                assert(row[c].mask < row[j - 1].mask);
            }
        } else {
            if j < c {
                assert(row[j].mask < row[c].mask);
            }
        }
    }
}

/// A frontier of zeros.
pub fn empty_frontier() -> (frontier: Vec<u64>)
    ensures
        frontier@.len() == BLOCKS,
        forall|m: int| 0 <= m < BLOCKS ==> #[trigger] frontier@[m] == 0,
{
    let mut frontier: Vec<u64> = Vec::new();
    let mut m: usize = 0;
    while m < BLOCKS
        invariant
            m <= BLOCKS,
            frontier@.len() == m,
            forall|i: int| 0 <= i < m ==> #[trigger] frontier@[i] == 0,
        decreases BLOCKS - m,
    {
        frontier.push(0);
        m += 1;
    }
    frontier
}

/// What has accumulated at `gamma` once the masks below `beta` have handed on all of theirs,
/// and `beta` its share for the masks below `limit`.
pub open spec fn partial_reach(
    frontier: Seq<u64>,
    table: Seq<Seq<Entry>>,
    gamma: int,
    beta: int,
    limit: int,
) -> u64 {
    clamp(
        flow_into(frontier, table, gamma as u16, beta) + if gamma < limit {
            flow_fn(frontier, table, gamma as u16)(beta)
        } else {
            0
        },
    )
}

/// The mask of entry `j` of a row, or 65536 behind its last entry.
pub open spec fn limit_at(row: Seq<Entry>, j: int) -> int {
    if j < row.len() {
        row[j].mask as int
    } else {
        BLOCKS as int
    }
}

/// Hands on the probability `p` of the mask `beta` along the entries of its row.
fn spread_row(acc: &mut Vec<u64>, frontier: &Vec<u64>, table: &ProbabilityTable, beta: usize)
    requires
        is_frontier(frontier@),
        beta < BLOCKS,
        old(acc)@.len() == BLOCKS,
        forall|g: int|
            0 <= g < BLOCKS ==> #[trigger] old(acc)@[g] == partial_reach(frontier@, table@, g, beta as int, 0),
    ensures
        final(acc)@.len() == BLOCKS,
        forall|g: int|
            0 <= g < BLOCKS ==> #[trigger] final(acc)@[g] == partial_reach(
                frontier@,
                table@,
                g,
                beta as int,
                BLOCKS as int,
            ),
{
    let p = frontier[beta];
    let row = table.row(beta as u16);
    let ghost f = frontier@;
    let ghost t = table@;
    proof {
        assert forall|g: int| 0 <= g < BLOCKS implies #[trigger] acc@[g] == partial_reach(
            f,
            t,
            g,
            beta as int,
            limit_at(row@, 0),
        ) by {
            if g < limit_at(row@, 0) {
                lemma_row_gap(row@, 0, g as u16);
                lemma_flow_term(f, t, g as u16, beta as int);
            }
        }
    }
    let mut j: usize = 0;
    while j < row.len()
        invariant
            j <= row@.len(),
            is_frontier(f),
            is_table(t),
            is_row(row@),
            row@ == t[beta as int],
            p == f[beta as int],
            beta < BLOCKS,
            acc@.len() == BLOCKS,
            forall|g: int|
                0 <= g < BLOCKS ==> #[trigger] acc@[g] == partial_reach(
                    f,
                    t,
                    g,
                    beta as int,
                    limit_at(row@, j as int),
                ),
        decreases row@.len() - j,
    {
        let entry = row[j];
        let place = entry.mask as usize;
        let ghost before = acc@;
        proof {
            lemma_row_prob_at(row@, j as int);
            lemma_flow_into_bound(f, t, entry.mask, beta as int);
            lemma_flow_term(f, t, entry.mask, beta as int);
        }
        let share = multiply(p, entry.prob);
        let sum = add_clamped(acc[place], share);
        acc.set(place, sum);
        proof {
            assert forall|g: int| 0 <= g < BLOCKS implies #[trigger] acc@[g] == partial_reach(
                f,
                t,
                g,
                beta as int,
                limit_at(row@, j + 1),
            ) by {
                if g == place {
                    if j + 1 < row@.len() {
                        assert(row@[j as int].mask < row@[j + 1].mask);
                    }
                } else {
                    assert(acc@[g] == before[g]);
                    if place < g < limit_at(row@, j + 1) {
                        lemma_row_gap(row@, j + 1, g as u16);
                        lemma_flow_term(f, t, g as u16, beta as int);
                    }
                }
            }
        }
        j += 1;
    }
}

/// One round of the search: every mask on the frontier hands its probability on along its row
/// of the table, what arrives at one mask is added up, and what does not come above the bound
/// is dropped.
pub fn advance_frontier(frontier: &Vec<u64>, p_bound: u64, table: &ProbabilityTable) -> (next: Vec<u64>)
    requires
        is_frontier(frontier@),
    ensures
        next@ == advance(frontier@, table@, p_bound),
        is_frontier(next@),
{
    let mut acc = empty_frontier();
    let ghost f = frontier@;
    let ghost t = table@;
    let mut beta: usize = 0;
    while beta < BLOCKS
        invariant
            beta <= BLOCKS,
            is_frontier(f),
            f == frontier@,
            t == table@,
            acc@.len() == BLOCKS,
            forall|g: int|
                0 <= g < BLOCKS ==> #[trigger] acc@[g] == clamp(flow_into(f, t, g as u16, beta as int)),
        decreases BLOCKS - beta,
    {
        if frontier[beta] > 0 {
            spread_row(&mut acc, frontier, table, beta);
        } else {
            proof {
                assert forall|g: int| 0 <= g < BLOCKS implies #[trigger] acc@[g] == clamp(
                    flow_into(f, t, g as u16, beta + 1),
                ) by {
                    lemma_prob_mul_zero(table_prob(t, beta as u16, g as u16));
                }
            }
        }
        beta += 1;
    }
    let mut next: Vec<u64> = Vec::new();
    let mut gamma: usize = 0;
    while gamma < BLOCKS
        invariant
            gamma <= BLOCKS,
            acc@.len() == BLOCKS,
            forall|g: int| 0 <= g < BLOCKS ==> #[trigger] acc@[g] == reach(f, t, g as u16),
            next@.len() == gamma,
            forall|g: int| 0 <= g < gamma ==> #[trigger] next@[g] == advance(f, t, p_bound)[g],
        decreases BLOCKS - gamma,
    {
        let p = acc[gamma];
        if p > p_bound {
            next.push(p);
        } else {
            next.push(0);
        }
        gamma += 1;
    }
    assert(next@ =~= advance(f, t, p_bound));
    next
}

/// The frontier before the first round.
pub fn initial_frontier(alpha: u16) -> (frontier: Vec<u64>)
    ensures
        frontier@ == start_frontier(alpha),
        is_frontier(frontier@),
{
    let mut frontier = empty_frontier();
    frontier.set(alpha as usize, ONE);
    assert(frontier@ =~= start_frontier(alpha));
    frontier
}

/// The search from the starting mask `alph` over `r` rounds: the masks that end a trail whose
/// accumulated probability stayed above `p_bound` after every round, each with that
/// probability, in ascending order of the masks. An empty result is a result.
pub fn branch_and_bound(alph: u16, r: usize, p_bound: u64, table: &ProbabilityTable) -> (gamma: Vec<Entry>)
    ensures
        is_sparse_form(
            gamma@,
            |mask: u16| frontier_after(alph, r as nat, p_bound, table@)[mask as int],
        ),
{
    let mut frontier = initial_frontier(alph);
    let mut round: usize = 0;
    while round < r
        invariant
            round <= r,
            is_frontier(frontier@),
            frontier@ == frontier_after(alph, round as nat, p_bound, table@),
        decreases r - round,
    {
        frontier = advance_frontier(&frontier, p_bound, table);
        round += 1;
    }
    compact(&frontier)
}

/// Every frontier of a search is a frontier.
pub proof fn lemma_frontier_after_is_frontier(alpha: u16, r: nat, p_bound: u64, table: Seq<Seq<Entry>>)
    ensures
        is_frontier(frontier_after(alpha, r, p_bound, table)),
    decreases r,
{
    if r > 0 {
        lemma_frontier_after_is_frontier(alpha, (r - 1) as nat, p_bound, table);
    }
}

/// After a round, every mask on the frontier holds a probability above the bound: what was
/// pruned is not on the frontier.
pub proof fn lemma_frontier_above_bound(
    alpha: u16,
    r: nat,
    p_bound: u64,
    table: Seq<Seq<Entry>>,
    mask: u16,
)
    requires
        r > 0,
    ensures
        frontier_after(alpha, r, p_bound, table)[mask as int] == 0 || frontier_after(
            alpha,
            r,
            p_bound,
            table,
        )[mask as int] > p_bound,
{
}

/// A mask on the frontier after round `r + 1` was reached from a mask `beta` that was on the
/// frontier after round `r`, by a step that the table holds with a probability above 0. Where
/// `r` is above 0, `beta` was above the bound after round `r`: nothing comes from a mask that
/// was pruned.
pub proof fn lemma_frontier_origin(
    alpha: u16,
    r: nat,
    p_bound: u64,
    table: Seq<Seq<Entry>>,
    gamma: u16,
) -> (beta: u16)
    requires
        is_table(table),
        frontier_after(alpha, r + 1, p_bound, table)[gamma as int] > 0,
    ensures
        frontier_after(alpha, r, p_bound, table)[beta as int] > 0,
        table_prob(table, beta, gamma) > 0,
        r > 0 ==> frontier_after(alpha, r, p_bound, table)[beta as int] > p_bound,
{
    let before = frontier_after(alpha, r, p_bound, table);
    lemma_frontier_after_is_frontier(alpha, r, p_bound, table);
    assert(frontier_after(alpha, r + 1, p_bound, table) == advance(before, table, p_bound));
    assert(reach(before, table, gamma) > 0);
    let f = flow_fn(before, table, gamma);
    assert forall|b: int| 0 <= b < BLOCKS implies #[trigger] f(b) >= 0 by {
        lemma_flow_term(before, table, gamma, b);
    }
    let b = lemma_sum_positive_term(f, BLOCKS as int);
    lemma_flow_term(before, table, gamma, b);
    if r > 0 {
        lemma_frontier_above_bound(alpha, r, p_bound, table, b as u16);
    }
    b as u16
}

/// Two runs of the search on the same starting mask, rounds, bound and table give the same
/// masks with the same probabilities, bit for bit.
pub proof fn lemma_search_repeats(
    first: Seq<Entry>,
    second: Seq<Entry>,
    alpha: u16,
    r: nat,
    p_bound: u64,
    table: Seq<Seq<Entry>>,
)
    requires
        is_sparse_form(first, |mask: u16| frontier_after(alpha, r, p_bound, table)[mask as int]),
        is_sparse_form(second, |mask: u16| frontier_after(alpha, r, p_bound, table)[mask as int]),
    ensures
        first == second,
{
    lemma_sparse_form_unique(
        first,
        second,
        |mask: u16| frontier_after(alpha, r, p_bound, table)[mask as int],
    );
}

/// A frontier on which no mask is left stays empty: the search then yields nothing.
pub proof fn lemma_empty_frontier_stays(frontier: Seq<u64>, table: Seq<Seq<Entry>>, p_bound: u64)
    requires
        is_table(table),
        is_frontier(frontier),
        forall|m: int| 0 <= m < BLOCKS ==> #[trigger] frontier[m] == 0,
    ensures
        forall|m: int| 0 <= m < BLOCKS ==> #[trigger] advance(frontier, table, p_bound)[m] == 0,
{
    assert forall|m: int| 0 <= m < BLOCKS implies #[trigger] advance(frontier, table, p_bound)[m]
        == 0 by {
        let f = flow_fn(frontier, table, m as u16);
        if reach(frontier, table, m as u16) > 0 {
            assert forall|b: int| 0 <= b < BLOCKS implies #[trigger] f(b) >= 0 by {
                lemma_flow_term(frontier, table, m as u16, b);
            }
            let b = lemma_sum_positive_term(f, BLOCKS as int);
            lemma_flow_term(frontier, table, m as u16, b);
        }
    }
}

} // verus!
