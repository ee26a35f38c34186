use heys_analysis::characteristic::Characteristic;
use heys_analysis::ranking::{sample_size, tally_votes, top_indices};
use heys_analysis::recovery::{
    recover_keys, recover_keys_differential, score_key, score_key_differential, score_keys, score_keys_differential,
};
use heys_analysis::spn::{spermutation, Tables};
use heys_analysis::table::ONE;

const KEY: u16 = 0x3a5c;

fn linear_samples(tables: &Tables) -> Vec<[[u16; 5]; 2]> {
    (0..64u32)
        .map(|i| {
            let plain = ((i * 1021 + 77) & 0xffff) as u16;
            let cypher = spermutation(tables, plain ^ KEY);
            [[plain, 0, 0, 0, 0], [cypher, 0, 0, 0, 0]]
        })
        .collect()
}

fn differential_samples(tables: &Tables) -> Vec<[[u16; 5]; 2]> {
    (0..32u32)
        .map(|i| {
            let plain = ((i * 2741 + 5) & 0xffff) as u16;
            let shifted = plain ^ 0x000b;
            let cypher = spermutation(tables, plain ^ 0x1a2b) ^ 0xd6e7;
            let cypher_shifted = spermutation(tables, shifted ^ 0x1a2b) ^ 0xd6e7;
            [[plain, shifted, 0, 0, 0], [cypher, cypher_shifted, 0, 0, 0]]
        })
        .collect()
}

#[test]
fn top_indices_ranks_by_score_then_by_place() {
    assert_eq!(top_indices(&[5, 9, 5, 1, 9], 3), vec![1, 4, 0]);
    assert_eq!(top_indices(&[5, 9, 5, 1, 9], 5), vec![1, 4, 0, 2, 3]);
    assert_eq!(top_indices(&[-3, -1, -2], 2), vec![1, 2]);
    assert_eq!(top_indices(&[i64::MIN, i64::MAX, 0], 3), vec![1, 2, 0]);
}

#[test]
fn top_indices_of_more_than_there_are_is_all_of_them() {
    assert_eq!(top_indices(&[1, 2], 10), vec![1, 0]);
    assert_eq!(top_indices(&[], 10), Vec::<usize>::new());
    assert_eq!(top_indices(&[1, 2], 0), Vec::<usize>::new());
}

#[test]
fn top_indices_of_tied_scores_keeps_the_order() {
    assert_eq!(top_indices(&[0; 8], 4), vec![0, 1, 2, 3]);
    assert_eq!(top_indices(&[7; 3], 3), vec![0, 1, 2]);
}

#[test]
fn tally_counts_each_time_a_list_holds_a_candidate() {
    let lists = vec![vec![0, 2], vec![2, 3], vec![], vec![2, 2, 9]];
    assert_eq!(tally_votes(&lists, 4), vec![1, 0, 4, 1]);
    assert_eq!(tally_votes(&lists, 0), Vec::<i64>::new());
    assert_eq!(tally_votes(&Vec::new(), 3), vec![0, 0, 0]);
    assert_eq!(tally_votes(&lists, 10)[9], 1);
}

#[test]
fn sample_size_is_the_constant_over_the_probability() {
    assert_eq!(sample_size(4, ONE), 4);
    assert_eq!(sample_size(4, ONE / 1024), 4096);
    assert_eq!(sample_size(1, ONE / 2), 2);
    assert_eq!(sample_size(4, 3 * (ONE / 4)), 5);
    assert_eq!(sample_size(0, ONE / 2), 0);
}

#[test]
fn sample_size_for_probability_zero_is_the_largest() {
    assert_eq!(sample_size(4, 0), usize::MAX);
    assert_eq!(sample_size(0, 0), usize::MAX);
    assert_eq!(sample_size(u64::MAX, 1), usize::MAX);
}

#[test]
fn score_of_known_keys() {
    let tables = Tables::new();
    let samples = linear_samples(&tables);
    assert_eq!(score_key(&tables, 0x8421, 0x8421, KEY, &samples), 64);
    assert_eq!(score_key(&tables, 0x8421, 0x8421, 0, &samples), -4);
    assert_eq!(score_key(&tables, 0x8421, 0x8421, 1, &samples), 8);
    assert_eq!(score_key(&tables, 0x00f0, 0x0f00, 0x1234, &samples), -4);
}

#[test]
fn score_under_the_empty_masks_is_the_number_of_samples() {
    let tables = Tables::new();
    let samples = linear_samples(&tables);
    for key in [0u16, 1, KEY, 0xffff] {
        assert_eq!(score_key(&tables, 0, 0, key, &samples), 64);
    }
    assert_eq!(score_key(&tables, 0x1234, 0x4321, 7, &[]), 0);
}

#[test]
fn score_keys_scores_every_candidate() {
    let tables = Tables::new();
    let samples = linear_samples(&tables);
    let scores = score_keys(&tables, 0x8421, 0x8421, &samples);
    assert_eq!(scores.len(), 65536);
    assert_eq!(scores[KEY as usize], 64);
    assert_eq!(scores[0], -4);
    assert_eq!(scores[1], 8);
    assert_eq!(scores[0x3abc], 54);
    assert_eq!(scores.iter().filter(|s| **s == 64).count(), 1);
}

#[test]
fn a_characteristic_without_bias_ties_every_key_at_zero() {
    let tables = Tables::new();
    let samples: Vec<[[u16; 5]; 2]> = (0..32u16)
        .map(|i| [[i * 97, 0, 0, 0, 0], [i, 0, 0, 0, 0]])
        .collect();
    let scores = score_keys(&tables, 0, 1, &samples);
    assert!(scores.iter().all(|s| *s == 0));
    let chosen = [Characteristic { alpha: 0, beta: 1, prob: 0 }];
    let recovery = recover_keys(&tables, &chosen, &samples, 5);
    assert_eq!(recovery.best, vec![vec![0, 1, 2, 3, 4]]);
    assert_eq!(recovery.votes.iter().sum::<i64>(), 5);
    assert_eq!(sample_size(4, 0), usize::MAX);
}

#[test]
fn recovery_without_samples_ties_every_key() {
    let tables = Tables::new();
    let chosen = [Characteristic { alpha: 0x8421, beta: 0x8421, prob: ONE / 4 }];
    let recovery = recover_keys(&tables, &chosen, &[], 3);
    assert_eq!(recovery.best, vec![vec![0, 1, 2]]);
}

#[test]
fn recovery_without_characteristics_gives_no_votes() {
    let tables = Tables::new();
    let samples = linear_samples(&tables);
    let recovery = recover_keys(&tables, &[], &samples, 3);
    assert!(recovery.best.is_empty());
    assert_eq!(recovery.votes, vec![0i64; 65536]);
}

#[test]
fn recovery_votes_for_the_key_that_was_used() {
    let tables = Tables::new();
    let samples = linear_samples(&tables);
    let chosen = [
        Characteristic { alpha: 0x8421, beta: 0x8421, prob: ONE / 4 },
        Characteristic { alpha: 0xffff, beta: 0xffff, prob: ONE / 8 },
        Characteristic { alpha: 0x1248, beta: 0x1248, prob: ONE / 16 },
    ];
    let recovery = recover_keys(&tables, &chosen, &samples, 8);
    assert_eq!(
        recovery.best,
        vec![
            vec![0x3a5c, 0x3abc, 0x2a2c, 0x4e5c, 0xba2c, 0xc23c, 0x26bc, 0x361c],
            vec![0x3a5c, 0x1a7c, 0x0a1c, 0x0a6c, 0x0c2c, 0x3a0c, 0x6c1c, 0x0c5c],
            vec![0x3a5c, 0x330c, 0x3acc, 0xbabc, 0x3054, 0x315c, 0x3758, 0x9b2a],
        ]
    );
    assert_eq!(recovery.votes.len(), 65536);
    assert_eq!(recovery.votes[KEY as usize], 3);
    assert_eq!(recovery.votes[0x3abc], 1);
    assert_eq!(recovery.votes[0], 0);
    assert_eq!(recovery.votes.iter().sum::<i64>(), 24);
    assert_eq!(top_indices(&recovery.votes, 3), vec![0x3a5c, 2588, 2668]);
}

#[test]
fn differential_score_of_known_keys() {
    let tables = Tables::new();
    let samples = differential_samples(&tables);
    assert_eq!(score_key_differential(&tables, 0x000b, 0xd6e7, 1, &samples), 32);
    assert_eq!(score_key_differential(&tables, 0x000b, 0, 1, &samples), 4);
    assert_eq!(score_key_differential(&tables, 0x000b, 1, 1, &samples), 0);
    assert_eq!(score_key_differential(&tables, 0x000b, 0xd6e7, 1, &[]), 0);
}

#[test]
fn differential_scores_rank_the_whitening_key_among_the_best() {
    let tables = Tables::new();
    let samples = differential_samples(&tables);
    let scores = score_keys_differential(&tables, 0x000b, 1, &samples);
    assert_eq!(scores.len(), 65536);
    assert_eq!(scores[0xd6e7], 32);
    assert_eq!(scores.iter().filter(|s| **s == 32).count(), 4096);
    assert_eq!(
        top_indices(&scores, 6),
        vec![0x1001, 0x1003, 0x1005, 0x1007, 0x1009, 0x100b]
    );
}

#[test]
fn differential_recovery_votes_for_the_best_candidates() {
    let tables = Tables::new();
    let samples = differential_samples(&tables);
    let chosen = [
        Characteristic { alpha: 0x000b, beta: 0x000b, prob: ONE },
        Characteristic { alpha: 0x000b, beta: 0x000b, prob: ONE },
    ];
    let recovery = recover_keys_differential(&tables, &chosen, 1, &samples, 4);
    assert_eq!(
        recovery.best,
        vec![vec![0x1001, 0x1003, 0x1005, 0x1007], vec![0x1001, 0x1003, 0x1005, 0x1007]]
    );
    assert_eq!(recovery.votes[0x1001], 2);
    assert_eq!(recovery.votes[0x1002], 0);
    assert_eq!(recovery.votes.iter().sum::<i64>(), 8);
}
