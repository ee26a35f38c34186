use heys_analysis::characteristic::{
    characteristics, min_probability, search_all, top_characteristics, Characteristic,
};
use heys_analysis::differential::differential_row;
use heys_analysis::search::{
    advance_frontier, branch_and_bound, empty_frontier, initial_frontier,
};
use heys_analysis::spn::Tables;
use heys_analysis::table::{Entry, ProbabilityTable, ONE};

fn entry(mask: u16, prob: u64) -> Entry {
    Entry { mask, prob }
}

fn toy_table() -> ProbabilityTable {
    let mut rows: Vec<Vec<Entry>> = vec![Vec::new(); 65536];
    rows[1] = vec![entry(2, ONE / 2), entry(3, ONE / 2)];
    rows[2] = vec![entry(4, ONE)];
    rows[3] = vec![entry(4, ONE / 2), entry(5, ONE / 2)];
    rows[4] = vec![entry(4, ONE / 4), entry(6, ONE / 8)];
    rows[7] = vec![entry(8, ONE)];
    rows[9] = vec![entry(0, ONE / 2), entry(8, ONE)];
    ProbabilityTable::from_rows(rows).unwrap()
}

#[test]
fn search_over_no_round_is_the_starting_mask() {
    let table = toy_table();
    assert_eq!(branch_and_bound(1, 0, 0, &table), vec![entry(1, ONE)]);
    assert_eq!(branch_and_bound(1, 0, ONE, &table), vec![entry(1, ONE)]);
    assert_eq!(branch_and_bound(0xffff, 0, 5, &table), vec![entry(0xffff, ONE)]);
}

#[test]
fn search_follows_the_rows_of_the_table() {
    let table = toy_table();
    assert_eq!(
        branch_and_bound(1, 1, 0, &table),
        vec![entry(2, ONE / 2), entry(3, ONE / 2)]
    );
}

#[test]
fn search_adds_up_what_arrives_at_one_mask() {
    let table = toy_table();
    assert_eq!(
        branch_and_bound(1, 2, 0, &table),
        vec![entry(4, 3 * (ONE / 4)), entry(5, ONE / 4)]
    );
    assert_eq!(
        branch_and_bound(1, 3, 0, &table),
        vec![entry(4, 3 * (ONE / 16)), entry(6, 3 * (ONE / 32))]
    );
}

#[test]
fn search_drops_what_does_not_come_above_the_bound() {
    let table = toy_table();
    assert_eq!(
        branch_and_bound(1, 2, ONE / 4, &table),
        vec![entry(4, 3 * (ONE / 4))]
    );
    assert_eq!(
        branch_and_bound(1, 2, ONE / 4 - 1, &table),
        vec![entry(4, 3 * (ONE / 4)), entry(5, ONE / 4)]
    );
}

#[test]
fn nothing_comes_from_a_mask_that_was_pruned() {
    let table = toy_table();
    assert!(branch_and_bound(1, 1, ONE / 2, &table).is_empty());
    assert!(branch_and_bound(1, 2, ONE / 2, &table).is_empty());
    assert!(branch_and_bound(1, 3, ONE / 2, &table).is_empty());
    let kept = branch_and_bound(1, 2, ONE / 2 - 1, &table);
    assert_eq!(kept, vec![entry(4, 3 * (ONE / 4))]);
}

#[test]
fn a_mask_without_a_row_ends_the_search() {
    let table = toy_table();
    assert!(branch_and_bound(5, 1, 0, &table).is_empty());
    assert!(branch_and_bound(5, 4, 0, &table).is_empty());
    assert!(branch_and_bound(1, 40, 0, &table).len() <= 2);
}

#[test]
fn one_more_round_is_one_more_advance() {
    let table = toy_table();
    let mut frontier = initial_frontier(1);
    for r in 0..4 {
        let found = branch_and_bound(1, r, 5, &table);
        let mut dense = vec![0u64; 65536];
        for e in found.iter() {
            dense[e.mask as usize] = e.prob;
        }
        assert_eq!(dense, frontier);
        frontier = advance_frontier(&frontier, 5, &table);
    }
}

#[test]
fn advance_cuts_a_sum_off_at_one() {
    let table = toy_table();
    let mut frontier = empty_frontier();
    frontier[7] = ONE;
    frontier[9] = ONE;
    let next = advance_frontier(&frontier, 0, &table);
    assert_eq!(next[8], ONE);
    assert_eq!(next[0], ONE / 2);
    assert_eq!(next.iter().filter(|p| **p > 0).count(), 2);
}

#[test]
fn advance_of_an_empty_frontier_is_empty() {
    let table = toy_table();
    let next = advance_frontier(&empty_frontier(), 0, &table);
    assert_eq!(next, vec![0u64; 65536]);
}

#[test]
fn initial_frontier_holds_the_starting_mask_alone() {
    let frontier = initial_frontier(0x1234);
    assert_eq!(frontier.len(), 65536);
    assert_eq!(frontier[0x1234], ONE);
    assert_eq!(frontier.iter().filter(|p| **p > 0).count(), 1);
}

#[test]
fn search_is_the_same_on_every_run() {
    let table = toy_table();
    assert_eq!(
        branch_and_bound(1, 3, 7, &table),
        branch_and_bound(1, 3, 7, &table)
    );
}

#[test]
fn search_over_rows_of_the_cipher() {
    let tables = Tables::new();
    let mut rows: Vec<Vec<Entry>> = vec![Vec::new(); 65536];
    rows[1] = differential_row(&tables, 1);
    rows[0x1000] = differential_row(&tables, 0x1000);
    let first = rows[1].clone();
    let table = ProbabilityTable::from_rows(rows).unwrap();
    assert_eq!(branch_and_bound(1, 1, 0, &table), first);
    let second = branch_and_bound(1, 2, 0, &table);
    let sum: u128 = second.iter().map(|e| e.prob as u128).sum();
    assert_eq!(sum, 3 * (ONE / 8) as u128);
    let held = |alpha: u16, mask: u16| {
        table.row(alpha).iter().find(|s| s.mask == mask).map_or(0, |s| s.prob)
    };
    for e in second.iter() {
        assert_eq!(e.prob, held(0x1000, e.mask) / 4 + held(1, e.mask) / 8);
    }
}

#[test]
fn search_all_runs_every_starting_mask_in_order() {
    let table = toy_table();
    let alphas = [3u16, 1, 5, 1];
    let found = search_all(&alphas, 2, 0, &table);
    assert_eq!(found.len(), 4);
    for (alpha, row) in alphas.iter().zip(found.iter()) {
        assert_eq!(row, &branch_and_bound(*alpha, 2, 0, &table));
    }
    assert_eq!(
        found[0],
        vec![entry(4, ONE / 8), entry(6, ONE / 16)]
    );
    assert!(found[2].is_empty());
}

#[test]
fn characteristics_leave_out_the_ending_mask_zero() {
    let found = vec![
        vec![entry(0, ONE), entry(4, ONE / 2)],
        vec![],
        vec![entry(1, 3), entry(2, 5)],
    ];
    assert_eq!(
        characteristics(&[9, 8, 7], &found),
        vec![
            Characteristic { alpha: 9, beta: 4, prob: ONE / 2 },
            Characteristic { alpha: 7, beta: 1, prob: 3 },
            Characteristic { alpha: 7, beta: 2, prob: 5 },
        ]
    );
}

#[test]
fn characteristics_pair_masks_and_rows_as_far_as_both_reach() {
    let found = vec![vec![entry(4, 1)], vec![entry(5, 2)]];
    assert_eq!(
        characteristics(&[9], &found),
        vec![Characteristic { alpha: 9, beta: 4, prob: 1 }]
    );
    assert_eq!(
        characteristics(&[9, 8, 7], &found),
        vec![
            Characteristic { alpha: 9, beta: 4, prob: 1 },
            Characteristic { alpha: 8, beta: 5, prob: 2 },
        ]
    );
    assert!(characteristics(&[], &found).is_empty());
}

#[test]
fn top_characteristics_are_the_most_probable_first() {
    let c = |alpha: u16, beta: u16, prob: u64| Characteristic { alpha, beta, prob };
    let all = vec![c(1, 1, 5), c(2, 2, 9), c(3, 3, 5), c(4, 4, 1), c(5, 5, 9)];
    assert_eq!(
        top_characteristics(&all, 3),
        vec![c(2, 2, 9), c(5, 5, 9), c(1, 1, 5)]
    );
    assert_eq!(
        top_characteristics(&all, 9),
        vec![c(2, 2, 9), c(5, 5, 9), c(1, 1, 5), c(3, 3, 5), c(4, 4, 1)]
    );
    assert!(top_characteristics(&all, 0).is_empty());
    assert!(top_characteristics(&Vec::new(), 3).is_empty());
}

#[test]
fn min_probability_is_the_smallest_or_none() {
    let c = |prob: u64| Characteristic { alpha: 1, beta: 2, prob };
    assert_eq!(min_probability(&[]), None);
    assert_eq!(min_probability(&[c(7)]), Some(7));
    assert_eq!(min_probability(&[c(7), c(3), c(9)]), Some(3));
    assert_eq!(min_probability(&[c(0), c(ONE)]), Some(0));
}
