//! Ranking by score: the best of a list of candidates, the votes that the best of several
//! lists add up to, and the number of samples that a characteristic asks for.

use crate::sums::sum_to;
use crate::table::ONE;
use vstd::prelude::*;

verus! {

/// Candidate `a` ranks before candidate `b`: its score is higher, or the scores are the same and
/// it stands first.
pub open spec fn ranks_before(scores: Seq<i64>, a: int, b: int) -> bool {
    scores[a] > scores[b] || (scores[a] == scores[b] && a < b)
}

/// Whether the list holds the candidate `k`.
pub open spec fn holds(top: Seq<usize>, k: int) -> bool {
    exists|i: int| 0 <= i < top.len() && #[trigger] top[i] == k
}

/// The candidates of the list ascend in rank.
pub open spec fn ascends(scores: Seq<i64>, top: Seq<usize>) -> bool {
    forall|i: int, j: int|
        0 <= i < j < top.len() ==> ranks_before(scores, #[trigger] top[i] as int, #[trigger] top[j] as int)
}

/// Every candidate that the list does not hold ranks behind all that it holds.
pub open spec fn leads(scores: Seq<i64>, top: Seq<usize>) -> bool {
    forall|k: int, i: int|
        0 <= k < scores.len() && !holds(top, k) && 0 <= i < top.len() ==> #[trigger] ranks_before(
            scores,
            top[i] as int,
            k,
        )
}

/// `top` holds the best `m` candidates in the order of their rank, or all candidates where
/// there are no more than `m`: its candidates ascend in rank, every candidate that it does not
/// hold ranks behind all of them, and one is left out only where `top` is full.
pub open spec fn is_top(scores: Seq<i64>, m: nat, top: Seq<usize>) -> bool {
    &&& top.len() <= m
    &&& forall|i: int| 0 <= i < top.len() ==> #[trigger] top[i] < scores.len()
    &&& ascends(scores, top)
    &&& leads(scores, top)
    &&& forall|k: int| 0 <= k < scores.len() && !#[trigger] holds(top, k) ==> top.len() == m
}

/// The best `m` of `n` candidates are `m` candidates, or all `n` where `m` is larger.
pub proof fn lemma_top_len(scores: Seq<i64>, m: nat, top: Seq<usize>)
    requires
        is_top(scores, m, top),
    ensures
        top.len() == if m < scores.len() {
            m
        } else {
            scores.len()
        },
{
    let n = scores.len() as int;
    let ints = Seq::new(top.len(), |i: int| top[i] as int);
    let all = vstd::set_lib::set_int_range(0, n);
    vstd::set_lib::lemma_int_range(0, n);
    vstd::seq_lib::seq_to_set_is_finite(ints);
    assert forall|i: int, j: int| 0 <= i < ints.len() && 0 <= j < ints.len() && i != j implies ints[i]
        != ints[j] by {
        if i < j {
            assert(ranks_before(scores, top[i] as int, top[j] as int));
        } else {
            assert(ranks_before(scores, top[j] as int, top[i] as int));
        }
    }
    ints.unique_seq_to_set();
    assert forall|k: int| ints.to_set().contains(k) implies all.contains(k) by {
        let w = choose|w: int| 0 <= w < ints.len() && ints[w] == k;
        assert(top[w] < scores.len());
    }
    vstd::set_lib::lemma_len_subset(ints.to_set(), all);
    if top.len() < m {
        assert forall|k: int| all.contains(k) implies ints.to_set().contains(k) by {
            assert(holds(top, k));
            let w = choose|w: int| 0 <= w < top.len() && #[trigger] top[w] == k;
            assert(ints[w] == k);
        }
        vstd::set_lib::lemma_len_subset(all, ints.to_set());
    }
}

/// A list of scores has one list of its best `m` candidates: what `is_top` says of a list, it
/// says of no other.
pub proof fn lemma_top_unique(scores: Seq<i64>, m: nat, first: Seq<usize>, second: Seq<usize>)
    requires
        is_top(scores, m, first),
        is_top(scores, m, second),
    ensures
        first == second,
{
    lemma_top_len(scores, m, first);
    lemma_top_len(scores, m, second);
    assert forall|i: int| 0 <= i < first.len() implies first[i] == second[i] by {
        lemma_top_agree(scores, m, first, second, i);
    }
    assert(first =~= second);
}

/// Two lists of the best `m` candidates agree up to any place.
proof fn lemma_top_agree(scores: Seq<i64>, m: nat, first: Seq<usize>, second: Seq<usize>, i: int)
    requires
        is_top(scores, m, first),
        is_top(scores, m, second),
        first.len() == second.len(),
        0 <= i < first.len(),
    ensures
        first[i] == second[i],
    decreases i,
{
    assert forall|j: int| 0 <= j < i implies first[j] == second[j] by {
        lemma_top_agree(scores, m, first, second, j);
    }
    lemma_top_next(scores, first, second, i);
    lemma_top_next(scores, second, first, i);
}

/// Where two lists of best candidates agree before the place `i`, the candidate of the one at
/// `i` does not rank before that of the other.
proof fn lemma_top_next(scores: Seq<i64>, first: Seq<usize>, second: Seq<usize>, i: int)
    requires
        ascends(scores, first),
        ascends(scores, second),
        leads(scores, second),
        forall|j: int| 0 <= j < first.len() ==> #[trigger] first[j] < scores.len(),
        first.len() == second.len(),
        0 <= i < first.len(),
        forall|j: int| 0 <= j < i ==> first[j] == second[j],
    ensures
        !ranks_before(scores, first[i] as int, second[i] as int),
{
    let a = first[i] as int;
    if ranks_before(scores, a, second[i] as int) {
        if holds(second, a) {
            let w = choose|w: int| 0 <= w < second.len() && #[trigger] second[w] == a;
            if w < i {
                assert(first[w] == second[w]);
                assert(ranks_before(scores, first[w] as int, first[i] as int));
            } else if w > i {
                assert(ranks_before(scores, second[i] as int, second[w] as int));
            }
        } else {
            assert(ranks_before(scores, second[i] as int, a));
        }
    }
}

/// The best `m` candidates by score, best first; candidates of the same score in the order in
/// which they stand.
pub fn top_indices(scores: &[i64], m: usize) -> (top: Vec<usize>)
    ensures
        is_top(scores@, m as nat, top@),
        top@.len() == if m < scores@.len() {
            m as nat
        } else {
            scores@.len()
        },
{
    let n: usize = scores.len();
    let mut top: Vec<usize> = Vec::new();
    while top.len() < m
        invariant
            n == scores@.len(),
            top@.len() <= m,
            forall|i: int| 0 <= i < top@.len() ==> #[trigger] top@[i] < n,
            ascends(scores@, top@),
            leads(scores@, top@),
        ensures
            is_top(scores@, m as nat, top@),
        decreases m - top@.len(),
    {
        let taken: usize = top.len();
        let mut found: bool = false;
        let mut best: usize = 0;
        let mut k: usize = 0;
        while k < n
            invariant
                k <= n,
                n == scores@.len(),
                taken == top@.len(),
                forall|i: int| 0 <= i < top@.len() ==> #[trigger] top@[i] < n,
                ascends(scores@, top@),
                leads(scores@, top@),
                found ==> best < k && !holds(top@, best as int),
                found ==> forall|c: int|
                    0 <= c < k && !holds(top@, c) && c != best ==> #[trigger] ranks_before(
                        scores@,
                        best as int,
                        c,
                    ),
                !found ==> forall|c: int| 0 <= c < k ==> #[trigger] holds(top@, c),
            decreases n - k,
        {
            let behind: bool = taken == 0 || scores[top[taken - 1]] > scores[k] || (scores[top[taken
                - 1]] == scores[k] && top[taken - 1] < k);
            proof {
                if taken > 0 {
                    let last = top@[taken - 1] as int;
                    if behind {
                        assert(ranks_before(scores@, last, k as int));
                        if holds(top@, k as int) {
                            let w = choose|w: int| 0 <= w < top@.len() && #[trigger] top@[w] == k;
                            if w < taken - 1 {
                                assert(ranks_before(scores@, top@[w] as int, top@[taken - 1] as int));
                            }
                        }
                        assert(!holds(top@, k as int));
                    } else {
                        if !holds(top@, k as int) {
                            assert(ranks_before(scores@, top@[taken - 1] as int, k as int));
                        }
                        assert(holds(top@, k as int));
                    }
                } else {
                    assert(!holds(top@, k as int));
                }
            }
            if behind {
                if !found || scores[k] > scores[best] {
                    proof {
                        assert forall|c: int|
                            0 <= c < k && !holds(top@, c) implies #[trigger] ranks_before(
                            scores@,
                            k as int,
                            c,
                        ) by {
                            if c != best {
                                assert(ranks_before(scores@, best as int, c));
                            }
                        }
                    }
                    found = true;
                    best = k;
                }
            }
            k += 1;
        }
        if !found {
            break ;
        }
        proof {
            let longer = top@.push(best);
            assert(longer[taken as int] == best);
            assert forall|c: int| holds(top@, c) implies holds(longer, c) by {
                let w = choose|w: int| 0 <= w < top@.len() && #[trigger] top@[w] == c;
                assert(longer[w] == c);
            }
            assert(holds(longer, best as int));
            assert forall|i: int, j: int| 0 <= i < j < longer.len() implies ranks_before(
                scores@,
                #[trigger] longer[i] as int,
                #[trigger] longer[j] as int,
            ) by {
                if j == taken {
                    assert(ranks_before(scores@, top@[i] as int, best as int));
                }
            }
            assert forall|c: int, i: int|
                0 <= c < n && !holds(longer, c) && 0 <= i < longer.len() implies #[trigger] ranks_before(
                scores@,
                longer[i] as int,
                c,
            ) by {
                assert(c != best);
                assert(!holds(top@, c));
                if i == taken {
                    assert(ranks_before(scores@, best as int, c));
                } else {
                    assert(ranks_before(scores@, top@[i] as int, c));
                }
            }
        }
        top.push(best);
    }
    proof {
        lemma_top_len(scores@, m as nat, top@);
    }
    top
}

/// For each place of a list, 1 where it holds the candidate `k`, else 0.
pub open spec fn occurrences_fn(list: Seq<usize>, k: int) -> spec_fn(int) -> int {
    |i: int|
        if list[i] == k {
            1int
        } else {
            0int
        }
}

/// How often the list holds the candidate `k`.
pub open spec fn occurrences(list: Seq<usize>, k: int) -> int {
    sum_to(occurrences_fn(list, k), list.len() as int)
}

/// For each list, how often it holds the candidate `k`.
pub open spec fn votes_fn(lists: Seq<Seq<usize>>, k: int) -> spec_fn(int) -> int {
    |c: int| occurrences(lists[c], k)
}

/// The votes of the candidate `k`: how often the lists hold it, all together.
pub open spec fn votes_for(lists: Seq<Seq<usize>>, k: int) -> int {
    sum_to(votes_fn(lists, k), lists.len() as int)
}

/// A count as an `i64`, cut off at the largest.
pub open spec fn capped(count: int) -> i64 {
    if count > i64::MAX {
        i64::MAX
    } else {
        count as i64
    }
}

/// The lists of a vector of lists.
pub open spec fn lists_view(lists: Seq<Vec<usize>>) -> Seq<Seq<usize>> {
    Seq::new(lists.len(), |c: int| lists[c]@)
}

/// An occurrence count is not negative.
pub proof fn lemma_occurrences_bound(list: Seq<usize>, k: int, n: int)
    requires
        0 <= n <= list.len(),
    ensures
        0 <= sum_to(occurrences_fn(list, k), n) <= n,
    decreases n,
{
    if n > 0 {
        lemma_occurrences_bound(list, k, n - 1);
    }
}

/// Counts the votes of each of `n` candidates: one vote for each time that a list holds the
/// candidate. A list entry that names no candidate is passed over.
pub fn tally_votes(lists: &Vec<Vec<usize>>, n: usize) -> (votes: Vec<i64>)
    ensures
        votes@.len() == n,
        forall|k: int| 0 <= k < n ==> #[trigger] votes@[k] == capped(votes_for(lists_view(lists@), k)),
{
    let ghost all = lists_view(lists@);
    let mut votes: Vec<i64> = Vec::new();
    let mut k: usize = 0;
    while k < n
        invariant
            k <= n,
            votes@.len() == k,
            forall|i: int| 0 <= i < k ==> #[trigger] votes@[i] == 0,
        decreases n - k,
    {
        votes.push(0);
        k += 1;
    }
    let mut c: usize = 0;
    while c < lists.len()
        invariant
            c <= lists@.len(),
            all == lists_view(lists@),
            votes@.len() == n,
            forall|k: int| 0 <= k < n ==> #[trigger] votes@[k] == capped(sum_to(votes_fn(all, k), c as int)),
            forall|k: int| 0 <= k < n ==> 0 <= #[trigger] sum_to(votes_fn(all, k), c as int),
        decreases lists@.len() - c,
    {
        let list = &lists[c];
        let mut i: usize = 0;
        proof {
            assert(all[c as int] == list@);
        }
        while i < list.len()
            invariant
                i <= list@.len(),
                c < lists@.len(),
                all == lists_view(lists@),
                all[c as int] == list@,
                votes@.len() == n,
                forall|k: int|
                    0 <= k < n ==> #[trigger] votes@[k] == capped(
                        sum_to(votes_fn(all, k), c as int) + sum_to(occurrences_fn(list@, k), i as int),
                    ),
                forall|k: int| 0 <= k < n ==> 0 <= #[trigger] sum_to(votes_fn(all, k), c as int),
                forall|k: int| 0 <= k < n ==> 0 <= #[trigger] sum_to(occurrences_fn(list@, k), i as int),
            decreases list@.len() - i,
        {
            let k = list[i];
            proof {
                assert forall|k: int| 0 <= k < n implies 0 <= #[trigger] sum_to(
                    occurrences_fn(list@, k),
                    i + 1,
                ) by {
                    lemma_occurrences_bound(list@, k, i + 1);
                }
            }
            if k < n {
                let count = votes[k];
                if count < i64::MAX {
                    votes.set(k, count + 1);
                }
            }
            i += 1;
        }
        proof {
            assert forall|k: int| 0 <= k < n implies 0 <= #[trigger] sum_to(votes_fn(all, k), c + 1) by {
                assert(sum_to(votes_fn(all, k), c + 1) == sum_to(votes_fn(all, k), c as int)
                    + occurrences(list@, k));
            }
        }
        c += 1;
    }
    votes
}

/// The number of samples that a characteristic of the probability `p_min` asks for: `c / p_min`,
/// rounded down; the largest number where the probability is 0 or the quotient too large.
pub open spec fn samples_needed(c: u64, p_min: u64) -> usize {
    if p_min == 0 || c as int * ONE as int / p_min as int > usize::MAX {
        usize::MAX
    } else {
        (c as int * ONE as int / p_min as int) as usize
    }
}

/// The number of samples for the smallest probability among the chosen characteristics.
pub fn sample_size(c: u64, p_min: u64) -> (n: usize)
    ensures
        n == samples_needed(c, p_min),
{
    if p_min == 0 {
        return usize::MAX;
    }
    assert(c as int * ONE as int <= 0xffff_ffff_ffff_ffff * 0x4000_0000_0000_0000) by (nonlinear_arith)
        requires
            c <= 0xffff_ffff_ffff_ffff,
            ONE == 0x4000_0000_0000_0000,
    ;
    let scaled: u128 = (c as u128) * (ONE as u128);
    let quotient: u128 = scaled / (p_min as u128);
    if quotient > usize::MAX as u128 {
        usize::MAX
    } else {
        quotient as usize
    }
}

} // verus!
