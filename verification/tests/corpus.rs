use heys_analysis::auxil::{
    bytes_to_blocks, index_range, random_bytes_to_file_with_shifted, sample_random_bytes_from_file,
    samples_at_indices, shift_stream,
};

#[test]
fn corpus_holds_the_counter_high_byte_first() {
    let corpus = random_bytes_to_file_with_shifted(0, 0, 0, 0, 3);
    assert_eq!(corpus.plain, vec![0, 0, 0, 1, 0, 2]);
    let corpus = random_bytes_to_file_with_shifted(0, 0, 0, 0, 258);
    assert_eq!(&corpus.plain[2 * 255..], &[0, 255, 1, 0, 1, 1]);
}

#[test]
fn corpus_blocks_are_the_counters_with_bytes_swapped() {
    let corpus = random_bytes_to_file_with_shifted(1, 2, 3, 4, 300);
    let blocks = bytes_to_blocks(&corpus.plain);
    assert_eq!(blocks.len(), 300);
    for (i, block) in blocks.iter().enumerate() {
        assert_eq!(*block, (i as u16).swap_bytes());
    }
}

#[test]
fn shifted_copies_differ_by_their_shift() {
    let corpus = random_bytes_to_file_with_shifted(0x000b, 0x00b0, 0x0b00, 0xb000, 500);
    let plain = bytes_to_blocks(&corpus.plain);
    let shifted = [
        (bytes_to_blocks(&corpus.shifted_1), 0x000bu16),
        (bytes_to_blocks(&corpus.shifted_2), 0x00b0),
        (bytes_to_blocks(&corpus.shifted_3), 0x0b00),
        (bytes_to_blocks(&corpus.shifted_4), 0xb000),
    ];
    for (blocks, shift) in shifted.iter() {
        assert_eq!(blocks.len(), plain.len());
        for i in 0..plain.len() {
            assert_eq!(blocks[i], plain[i] ^ shift);
        }
    }
}

#[test]
fn corpus_of_no_blocks_is_empty() {
    let corpus = random_bytes_to_file_with_shifted(1, 2, 3, 4, 0);
    assert!(corpus.plain.is_empty());
    assert!(corpus.shifted_1.is_empty());
    assert!(corpus.shifted_2.is_empty());
    assert!(corpus.shifted_3.is_empty());
    assert!(corpus.shifted_4.is_empty());
}

#[test]
fn corpus_counter_wraps_after_all_blocks() {
    let corpus = random_bytes_to_file_with_shifted(0, 0, 0, 0, 65538);
    assert_eq!(corpus.plain.len(), 2 * 65538);
    assert_eq!(&corpus.plain[2 * 65535..], &[0xff, 0xff, 0, 0, 0, 1]);
}

#[test]
fn shift_stream_mixes_the_shift_into_every_block() {
    assert_eq!(shift_stream(&[0x01, 0x02, 0x03, 0x04], 0xff00), vec![0x01, 0xfd, 0x03, 0xfb]);
    assert_eq!(shift_stream(&[0x01, 0x02, 0x03], 0x0001), vec![0x00, 0x02]);
}

#[test]
fn index_range_counts_from_zero() {
    assert_eq!(index_range(4), vec![0, 1, 2, 3]);
    assert_eq!(index_range(0), Vec::<usize>::new());
}

#[test]
fn samples_at_indices_reads_all_ten_streams() {
    let streams: Vec<Vec<u8>> = (0..10u8)
        .map(|s| (0..8u8).map(|b| 16 * s + b).collect())
        .collect();
    let samples = samples_at_indices(
        &[2, 0],
        &streams[0],
        &streams[1],
        &streams[2],
        &streams[3],
        &streams[4],
        &streams[5],
        &streams[6],
        &streams[7],
        &streams[8],
        &streams[9],
    );
    assert_eq!(
        samples,
        vec![
            [
                [0x0504, 0x2524, 0x4544, 0x6564, 0x8584],
                [0x1514, 0x3534, 0x5554, 0x7574, 0x9594]
            ],
            [
                [0x0100, 0x2120, 0x4140, 0x6160, 0x8180],
                [0x1110, 0x3130, 0x5150, 0x7170, 0x9190]
            ],
        ]
    );
}

fn draw(blocks: usize, count: usize) -> Vec<[[u16; 5]; 2]> {
    let corpus = random_bytes_to_file_with_shifted(0x0100, 0x0200, 0x0300, 0x0400, blocks);
    let cypher = shift_stream(&corpus.plain, 0x8000);
    let cypher_1 = shift_stream(&corpus.shifted_1, 0x8000);
    let cypher_2 = shift_stream(&corpus.shifted_2, 0x8000);
    let cypher_3 = shift_stream(&corpus.shifted_3, 0x8000);
    let cypher_4 = shift_stream(&corpus.shifted_4, 0x8000);
    sample_random_bytes_from_file(
        &corpus.plain,
        &cypher,
        &corpus.shifted_1,
        &cypher_1,
        &corpus.shifted_2,
        &cypher_2,
        &corpus.shifted_3,
        &cypher_3,
        &corpus.shifted_4,
        &cypher_4,
        count,
    )
}

#[test]
fn samples_are_drawn_without_replacement() {
    let samples = draw(200, 50);
    assert_eq!(samples.len(), 50);
    let mut plains: Vec<u16> = samples.iter().map(|s| s[0][0]).collect();
    plains.sort();
    plains.dedup();
    assert_eq!(plains.len(), 50);
}

#[test]
fn every_sample_is_one_block_position_of_the_corpus() {
    let samples = draw(200, 50);
    for sample in samples.iter() {
        let plain = sample[0][0];
        assert!(plain.swap_bytes() < 200);
        assert_eq!(sample[0][1], plain ^ 0x0100);
        assert_eq!(sample[0][2], plain ^ 0x0200);
        assert_eq!(sample[0][3], plain ^ 0x0300);
        assert_eq!(sample[0][4], plain ^ 0x0400);
        for variant in 0..5 {
            assert_eq!(sample[1][variant], sample[0][variant] ^ 0x8000);
        }
    }
}

#[test]
fn a_count_above_the_corpus_draws_every_block_once() {
    let samples = draw(100, 1000);
    assert_eq!(samples.len(), 100);
    let mut counters: Vec<u16> = samples.iter().map(|s| s[0][0].swap_bytes()).collect();
    counters.sort();
    assert_eq!(counters, (0..100).collect::<Vec<u16>>());
}

#[test]
fn a_count_of_zero_draws_nothing() {
    assert!(draw(100, 0).is_empty());
    assert!(draw(0, 10).is_empty());
}

#[test]
fn the_draw_is_shuffled() {
    let samples = draw(1000, 1000);
    let counters: Vec<u16> = samples.iter().map(|s| s[0][0].swap_bytes()).collect();
    assert_ne!(counters, (0..1000).collect::<Vec<u16>>());
}
