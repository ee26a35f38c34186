//! Characteristics: what the trail search found, from many starting masks, gathered in one
//! list and cut down to the most probable.

use crate::parallel::par_map;
use crate::ranking::{capped, is_top, top_indices};
use crate::search::{branch_and_bound, frontier_after};
use crate::table::{is_sparse_form, Entry, ProbabilityTable};
use vstd::prelude::*;

verus! {

/// A characteristic: a starting mask or difference, an ending one, and the probability that
/// the search accumulated for the pair.
#[derive(Clone, Copy, Debug, PartialEq, Eq, Structural)]
pub struct Characteristic {
    pub alpha: u16,
    pub beta: u16,
    pub prob: u64,
}

/// The search from each of the given starting masks, in their order, run in parallel.
pub fn search_all(alphas: &[u16], r: usize, p_bound: u64, table: &ProbabilityTable) -> (found: Vec<Vec<Entry>>)
    ensures
        found@.len() == alphas@.len(),
        forall|i: int|
            0 <= i < alphas@.len() ==> is_sparse_form(
                (#[trigger] found@[i])@,
                |mask: u16| frontier_after(alphas@[i], r as nat, p_bound, table@)[mask as int],
            ),
{
    let search = |alpha: u16| -> (row: Vec<Entry>)
        ensures
            is_sparse_form(
                row@,
                |mask: u16| frontier_after(alpha, r as nat, p_bound, table@)[mask as int],
            ),
        { branch_and_bound(alpha, r, p_bound, table) };
    par_map(alphas, search)
}

/// The characteristics of the first `j` entries of what the search found from `alpha`: one for
/// each entry but that of the ending mask 0.
pub open spec fn row_characteristics(alpha: u16, row: Seq<Entry>, j: int) -> Seq<Characteristic>
    decreases j,
{
    if j <= 0 {
        Seq::empty()
    } else if row[j - 1].mask != 0 {
        row_characteristics(alpha, row, j - 1).push(
            Characteristic { alpha, beta: row[j - 1].mask, prob: row[j - 1].prob },
        )
    } else {
        row_characteristics(alpha, row, j - 1)
    }
}

/// The characteristics of the first `n` starting masks, in the order of the starting masks and,
/// for one starting mask, of the entries.
pub open spec fn all_characteristics(alphas: Seq<u16>, found: Seq<Seq<Entry>>, n: int) -> Seq<
    Characteristic,
>
    decreases n,
{
    if n <= 0 {
        Seq::empty()
    } else {
        all_characteristics(alphas, found, n - 1) + row_characteristics(
            alphas[n - 1],
            found[n - 1],
            found[n - 1].len() as int,
        )
    }
}

/// The rows of a vector of rows.
pub open spec fn found_view(found: Seq<Vec<Entry>>) -> Seq<Seq<Entry>> {
    Seq::new(found.len(), |i: int| found[i]@)
}

/// The number of starting masks for which there is a row of what the search found.
pub open spec fn paired(alphas: Seq<u16>, found: Seq<Seq<Entry>>) -> int {
    if alphas.len() <= found.len() {
        alphas.len() as int
    } else {
        found.len() as int
    }
}

/// Gathers what the search found from each starting mask into one list of characteristics.
/// The ending mask 0 is left out, and so is a starting mask without a row, or a row without a
/// starting mask.
pub fn characteristics(alphas: &[u16], found: &Vec<Vec<Entry>>) -> (all: Vec<Characteristic>)
    ensures
        all@ == all_characteristics(
            alphas@,
            found_view(found@),
            paired(alphas@, found_view(found@)),
        ),
{
    let ghost rows = found_view(found@);
    let n: usize = if alphas.len() <= found.len() {
        alphas.len()
    } else {
        found.len()
    };
    let mut all: Vec<Characteristic> = Vec::new();
    let mut i: usize = 0;
    while i < n
        invariant
            i <= n,
            n <= alphas@.len(),
            n <= found@.len(),
            rows == found_view(found@),
            all@ == all_characteristics(alphas@, rows, i as int),
        decreases n - i,
    {
        let alpha = alphas[i];
        let row = &found[i];
        let ghost before = all@;
        let mut j: usize = 0;
        proof {
            assert(rows[i as int] == row@);
            assert(before + row_characteristics(alpha, row@, 0) =~= before);
        }
        while j < row.len()
            invariant
                j <= row@.len(),
                all@ == before + row_characteristics(alpha, row@, j as int),
            decreases row@.len() - j,
        {
            let entry = row[j];
            if entry.mask != 0 {
                proof {
                    let next = Characteristic { alpha, beta: entry.mask, prob: entry.prob };
                    assert((before + row_characteristics(alpha, row@, j as int)).push(next) =~= before
                        + row_characteristics(alpha, row@, j as int).push(next));
                }
                all.push(Characteristic { alpha, beta: entry.mask, prob: entry.prob });
            }
            j += 1;
        }
        i += 1;
    }
    all
}

/// The probabilities of a list of characteristics, as scores.
pub open spec fn prob_scores(all: Seq<Characteristic>) -> Seq<i64> {
    Seq::new(all.len(), |i: int| capped(all[i].prob as int))
}

/// The characteristics at the given places of a list.
pub open spec fn chosen(all: Seq<Characteristic>, places: Seq<usize>) -> Seq<Characteristic> {
    Seq::new(places.len(), |i: int| all[places[i] as int])
}

/// The `k` most probable characteristics, most probable first; of the same probability in the
/// order in which they stand in the list.
pub fn top_characteristics(all: &Vec<Characteristic>, k: usize) -> (top: Vec<Characteristic>)
    ensures
        exists|places: Seq<usize>| #[trigger]
            is_top(prob_scores(all@), k as nat, places) && top@ == chosen(all@, places),
{
    let mut scores: Vec<i64> = Vec::new();
    let mut i: usize = 0;
    while i < all.len()
        invariant
            i <= all@.len(),
            scores@.len() == i,
            forall|j: int| 0 <= j < i ==> #[trigger] scores@[j] == prob_scores(all@)[j],
        decreases all@.len() - i,
    {
        let prob = all[i].prob;
        if prob > i64::MAX as u64 {
            scores.push(i64::MAX);
        } else {
            scores.push(prob as i64);
        }
        i += 1;
    }
    assert(scores@ =~= prob_scores(all@));
    let places = top_indices(scores.as_slice(), k);
    let mut top: Vec<Characteristic> = Vec::new();
    let mut i: usize = 0;
    while i < places.len()
        invariant
            i <= places@.len(),
            is_top(prob_scores(all@), k as nat, places@),
            top@.len() == i,
            forall|j: int| 0 <= j < i ==> #[trigger] top@[j] == all@[places@[j] as int],
        decreases places@.len() - i,
    {
        top.push(all[places[i]]);
        i += 1;
    }
    assert(top@ =~= chosen(all@, places@));
    top
}

/// The smallest probability among the characteristics; none where there is no characteristic.
pub fn min_probability(chosen: &[Characteristic]) -> (least: Option<u64>)
    ensures
        least.is_none() <==> chosen@.len() == 0,
        least.is_some() ==> {
            &&& forall|i: int| 0 <= i < chosen@.len() ==> least.unwrap() <= #[trigger] chosen@[i].prob
            &&& exists|i: int| 0 <= i < chosen@.len() && #[trigger] chosen@[i].prob == least.unwrap()
        },
{
    if chosen.len() == 0 {
        return None;
    }
    let mut least: u64 = chosen[0].prob;
    let mut i: usize = 1;
    while i < chosen.len()
        invariant
            1 <= i <= chosen@.len(),
            forall|j: int| 0 <= j < i ==> least <= #[trigger] chosen@[j].prob,
            exists|j: int| 0 <= j < i && #[trigger] chosen@[j].prob == least,
        decreases chosen@.len() - i,
    {
        if chosen[i].prob < least {
            least = chosen[i].prob;
        }
        i += 1;
    }
    Some(least)
}

} // verus!
