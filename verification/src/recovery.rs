//! Key recovery: every candidate key is scored against the samples under a characteristic, the
//! best candidates of each characteristic get a vote, and the votes rank the candidates.

use crate::spn::{combined_transform, inverse_transform, parity, unspermutation, Tables, BLOCKS};
use crate::characteristic::Characteristic;
use crate::ranking::{capped, is_top, lists_view, tally_votes, top_indices, votes_for};
use crate::sums::sum_to;
use vstd::prelude::*;

verus! {

/// The plaintext block of a sample.
pub open spec fn plain_of(sample: [[u16; 5]; 2]) -> u16 {
    sample[0][0]
}

/// The ciphertext block of a sample.
pub open spec fn cypher_of(sample: [[u16; 5]; 2]) -> u16 {
    sample[1][0]
}

/// 1 where the characteristic of the masks `alpha` and `beta` fails on the sample under the
/// candidate key, 0 where it holds: the key is mixed into the plaintext, one round is applied,
/// and the parity of the masked result is held against that of the masked ciphertext.
pub open spec fn key_miss(alpha: u16, beta: u16, key: u16, sample: [[u16; 5]; 2]) -> u16 {
    parity((alpha & combined_transform(plain_of(sample) ^ key)) ^ (beta & cypher_of(sample)))
}

/// For each sample, whether the characteristic fails on it under the candidate key.
pub open spec fn key_miss_fn(alpha: u16, beta: u16, key: u16, samples: Seq<[[u16; 5]; 2]>) -> spec_fn(
    int,
) -> int {
    |i: int| key_miss(alpha, beta, key, samples[i]) as int
}

/// The score of a candidate key: the number of samples on which the characteristic holds less
/// the number on which it fails.
pub open spec fn key_score(alpha: u16, beta: u16, key: u16, samples: Seq<[[u16; 5]; 2]>) -> int {
    samples.len() - 2 * sum_to(key_miss_fn(alpha, beta, key, samples), samples.len() as int)
}

/// The score of one candidate key under a linear characteristic.
pub fn score_key(tables: &Tables, alpha: u16, beta: u16, key: u16, samples: &[[[u16; 5]; 2]]) -> (score: i64)
    requires
        samples@.len() <= i64::MAX,
    ensures
        score == key_score(alpha, beta, key, samples@),
        -samples@.len() <= score <= samples@.len(),
{
    let n: usize = samples.len();
    let ghost f = key_miss_fn(alpha, beta, key, samples@);
    let mut misses: u64 = 0;
    let mut i: usize = 0;
    while i < n
        invariant
            i <= n,
            n == samples@.len(),
            n <= i64::MAX,
            f == key_miss_fn(alpha, beta, key, samples@),
            misses == sum_to(f, i as int),
            misses <= i,
        decreases n - i,
    {
        let sample = samples[i];
        let plain = sample[0][0];
        let cypher = sample[1][0];
        let image = tables.combined_transform(plain ^ key);
        let miss = tables.parity((alpha & image) ^ (beta & cypher));
        misses += miss as u64;
        i += 1;
    }
    (n as i64 - misses as i64) - misses as i64
}

/// The scores of all 65536 candidate keys under a linear characteristic.
pub fn score_keys(tables: &Tables, alpha: u16, beta: u16, samples: &[[[u16; 5]; 2]]) -> (scores: Vec<i64>)
    requires
        samples@.len() <= i64::MAX,
    ensures
        scores@.len() == BLOCKS,
        forall|key: int|
            0 <= key < BLOCKS ==> #[trigger] scores@[key] == key_score(alpha, beta, key as u16, samples@),
{
    let mut scores: Vec<i64> = Vec::new();
    let mut key: usize = 0;
    while key < BLOCKS
        invariant
            key <= BLOCKS,
            samples@.len() <= i64::MAX,
            scores@.len() == key,
            forall|k: int|
                0 <= k < key ==> #[trigger] scores@[k] == key_score(alpha, beta, k as u16, samples@),
        decreases BLOCKS - key,
    {
        scores.push(score_key(tables, alpha, beta, key as u16, samples));
        key += 1;
    }
    scores
}

/// 1 where the pair of the sample's ciphertext and that of its shifted variant, with the
/// candidate for the whitening key taken off and the last round peeled, differ by `beta`.
pub open spec fn key_hit(beta: u16, key: u16, variant: int, sample: [[u16; 5]; 2]) -> int {
    if inverse_transform(sample[1][0] ^ key) ^ inverse_transform(sample[1][variant] ^ key) == beta {
        1
    } else {
        0
    }
}

/// For each sample, whether its pair differs by `beta` under the candidate key.
pub open spec fn key_hit_fn(beta: u16, key: u16, variant: int, samples: Seq<[[u16; 5]; 2]>) -> spec_fn(
    int,
) -> int {
    |i: int| key_hit(beta, key, variant, samples[i])
}

/// The differential score of a candidate key: the number of samples whose pair differs by
/// `beta` before the last round.
pub open spec fn differential_key_score(
    beta: u16,
    key: u16,
    variant: int,
    samples: Seq<[[u16; 5]; 2]>,
) -> int {
    sum_to(key_hit_fn(beta, key, variant, samples), samples.len() as int)
}

/// The score of one candidate for the whitening key under a differential characteristic that
/// ends in the difference `beta`, on the pairs of each sample with its shifted variant
/// `variant`.
pub fn score_key_differential(
    tables: &Tables,
    beta: u16,
    key: u16,
    variant: usize,
    samples: &[[[u16; 5]; 2]],
) -> (score: i64)
    requires
        1 <= variant <= 4,
        samples@.len() <= i64::MAX,
    ensures
        score == differential_key_score(beta, key, variant as int, samples@),
        0 <= score <= samples@.len(),
{
    let n: usize = samples.len();
    let ghost f = key_hit_fn(beta, key, variant as int, samples@);
    let mut hits: i64 = 0;
    let mut i: usize = 0;
    while i < n
        invariant
            i <= n,
            n == samples@.len(),
            n <= i64::MAX,
            1 <= variant <= 4,
            f == key_hit_fn(beta, key, variant as int, samples@),
            hits == sum_to(f, i as int),
            0 <= hits <= i,
        decreases n - i,
    {
        let sample = samples[i];
        let cyphers = sample[1];
        let first = unspermutation(tables, cyphers[0] ^ key);
        let second = unspermutation(tables, cyphers[variant] ^ key);
        if first ^ second == beta {
            hits += 1;
        }
        i += 1;
    }
    hits
}

/// The scores of all 65536 candidates for the whitening key under a differential
/// characteristic.
pub fn score_keys_differential(
    tables: &Tables,
    beta: u16,
    variant: usize,
    samples: &[[[u16; 5]; 2]],
) -> (scores: Vec<i64>)
    requires
        1 <= variant <= 4,
        samples@.len() <= i64::MAX,
    ensures
        scores@.len() == BLOCKS,
        forall|key: int|
            0 <= key < BLOCKS ==> #[trigger] scores@[key] == differential_key_score(
                beta,
                key as u16,
                variant as int,
                samples@,
            ),
{
    let mut scores: Vec<i64> = Vec::new();
    let mut key: usize = 0;
    while key < BLOCKS
        invariant
            key <= BLOCKS,
            1 <= variant <= 4,
            samples@.len() <= i64::MAX,
            scores@.len() == key,
            forall|k: int|
                0 <= k < key ==> #[trigger] scores@[k] == differential_key_score(
                    beta,
                    k as u16,
                    variant as int,
                    samples@,
                ),
        decreases BLOCKS - key,
    {
        scores.push(score_key_differential(tables, beta, key as u16, variant, samples));
        key += 1;
    }
    scores
}

/// The scores of all 65536 candidate keys under a linear characteristic, by key.
pub open spec fn key_scores(alpha: u16, beta: u16, samples: Seq<[[u16; 5]; 2]>) -> Seq<i64> {
    Seq::new(BLOCKS as nat, |key: int| key_score(alpha, beta, key as u16, samples) as i64)
}

/// What a key recovery yields: for each characteristic its best candidate keys, best first,
/// and for each of the 65536 keys the number of characteristics that count it among their best.
pub struct Recovery {
    pub best: Vec<Vec<usize>>,
    pub votes: Vec<i64>,
}

/// Recovers key material from samples: under each characteristic every candidate key is
/// scored, the `m` keys of the highest score get one vote each, and the votes of all
/// characteristics are added up, key by key.
pub fn recover_keys(
    tables: &Tables,
    chosen: &[Characteristic],
    samples: &[[[u16; 5]; 2]],
    m: usize,
) -> (recovery: Recovery)
    requires
        samples@.len() <= i64::MAX,
    ensures
        recovery.best@.len() == chosen@.len(),
        forall|c: int|
            0 <= c < chosen@.len() ==> is_top(
                key_scores(chosen@[c].alpha, chosen@[c].beta, samples@),
                m as nat,
                (#[trigger] recovery.best@[c])@,
            ),
        recovery.votes@.len() == BLOCKS,
        forall|key: int|
            0 <= key < BLOCKS ==> #[trigger] recovery.votes@[key] == capped(
                votes_for(lists_view(recovery.best@), key),
            ),
{
    let mut best: Vec<Vec<usize>> = Vec::new();
    let mut c: usize = 0;
    while c < chosen.len()
        invariant
            c <= chosen@.len(),
            samples@.len() <= i64::MAX,
            best@.len() == c,
            forall|i: int|
                0 <= i < c ==> is_top(
                    key_scores(chosen@[i].alpha, chosen@[i].beta, samples@),
                    m as nat,
                    (#[trigger] best@[i])@,
                ),
        decreases chosen@.len() - c,
    {
        let alpha = chosen[c].alpha;
        let beta = chosen[c].beta;
        let scores = score_keys(tables, alpha, beta, samples);
        assert(scores@ =~= key_scores(alpha, beta, samples@));
        best.push(top_indices(scores.as_slice(), m));
        c += 1;
    }
    let votes = tally_votes(&best, BLOCKS);
    Recovery { best, votes }
}

/// The scores of all 65536 candidates for the whitening key under a differential
/// characteristic, by key.
pub open spec fn differential_key_scores(beta: u16, variant: int, samples: Seq<[[u16; 5]; 2]>) -> Seq<
    i64,
> {
    Seq::new(
        BLOCKS as nat,
        |key: int| differential_key_score(beta, key as u16, variant, samples) as i64,
    )
}

/// Recovers the whitening key from pairs of samples: under each differential characteristic
/// every candidate is scored on the pairs of each sample with its shifted variant `variant`,
/// whose shift is the starting difference of the characteristics; the `m` candidates of the
/// highest score get one vote each, and the votes of all characteristics are added up.
pub fn recover_keys_differential(
    tables: &Tables,
    chosen: &[Characteristic],
    variant: usize,
    samples: &[[[u16; 5]; 2]],
    m: usize,
) -> (recovery: Recovery)
    requires
        1 <= variant <= 4,
        samples@.len() <= i64::MAX,
    ensures
        recovery.best@.len() == chosen@.len(),
        forall|c: int|
            0 <= c < chosen@.len() ==> is_top(
                differential_key_scores(chosen@[c].beta, variant as int, samples@),
                m as nat,
                (#[trigger] recovery.best@[c])@,
            ),
        recovery.votes@.len() == BLOCKS,
        forall|key: int|
            0 <= key < BLOCKS ==> #[trigger] recovery.votes@[key] == capped(
                votes_for(lists_view(recovery.best@), key),
            ),
{
    let mut best: Vec<Vec<usize>> = Vec::new();
    let mut c: usize = 0;
    while c < chosen.len()
        invariant
            c <= chosen@.len(),
            1 <= variant <= 4,
            samples@.len() <= i64::MAX,
            best@.len() == c,
            forall|i: int|
                0 <= i < c ==> is_top(
                    differential_key_scores(chosen@[i].beta, variant as int, samples@),
                    m as nat,
                    (#[trigger] best@[i])@,
                ),
        decreases chosen@.len() - c,
    {
        let beta = chosen[c].beta;
        let scores = score_keys_differential(tables, beta, variant, samples);
        assert(scores@ =~= differential_key_scores(beta, variant as int, samples@));
        best.push(top_indices(scores.as_slice(), m));
        c += 1;
    }
    let votes = tally_votes(&best, BLOCKS);
    Recovery { best, votes }
}

} // verus!
