use heys_analysis::auxil::{
    blocks_to_bytes, bytes_to_blocks, bytes_to_u16, read_block, read_key, u16_to_bytes,
};

#[test]
fn bytes_to_u16_is_little_endian() {
    assert_eq!(bytes_to_u16([0x34, 0x12]), 0x1234);
    assert_eq!(bytes_to_u16([0xff, 0x00]), 0x00ff);
    assert_eq!(bytes_to_u16([0x00, 0x00]), 0);
    assert_eq!(bytes_to_u16([0xff, 0xff]), 0xffff);
}

#[test]
fn u16_to_bytes_is_little_endian() {
    assert_eq!(u16_to_bytes(0x1234), [0x34, 0x12]);
    assert_eq!(u16_to_bytes(0xff00), [0x00, 0xff]);
    assert_eq!(u16_to_bytes(0), [0, 0]);
    assert_eq!(u16_to_bytes(0xffff), [0xff, 0xff]);
}

#[test]
fn codec_round_trips_on_every_block() {
    for value in 0..=u16::MAX {
        assert_eq!(bytes_to_u16(u16_to_bytes(value)), value);
    }
    for lo in [0u8, 1, 0x7f, 0x80, 0xff] {
        for hi in [0u8, 1, 0x7f, 0x80, 0xff] {
            assert_eq!(u16_to_bytes(bytes_to_u16([lo, hi])), [lo, hi]);
        }
    }
}

#[test]
fn read_block_reads_the_pair_at_the_index() {
    let data = [0x01, 0x02, 0x03, 0x04, 0x05];
    assert_eq!(read_block(&data, 0), 0x0201);
    assert_eq!(read_block(&data, 1), 0x0403);
}

#[test]
fn bytes_to_blocks_leaves_out_an_odd_last_byte() {
    assert_eq!(bytes_to_blocks(&[0x01, 0x02, 0x03, 0x04, 0x05]), vec![0x0201, 0x0403]);
    assert_eq!(bytes_to_blocks(&[]), Vec::<u16>::new());
    assert_eq!(bytes_to_blocks(&[0x09]), Vec::<u16>::new());
}

#[test]
fn blocks_to_bytes_writes_low_byte_first() {
    assert_eq!(blocks_to_bytes(&[0x0201, 0xbeef]), vec![0x01, 0x02, 0xef, 0xbe]);
    assert_eq!(blocks_to_bytes(&[]), Vec::<u8>::new());
}

#[test]
fn blocks_survive_a_trip_through_bytes() {
    let blocks: Vec<u16> = vec![0, 1, 0x00ff, 0xff00, 0x1234, 0xffff];
    assert_eq!(bytes_to_blocks(&blocks_to_bytes(&blocks)), blocks);
}

#[test]
fn read_key_takes_seven_little_endian_values() {
    let data: Vec<u8> = (1..=14).collect();
    assert_eq!(
        read_key(&data),
        [0x0201, 0x0403, 0x0605, 0x0807, 0x0a09, 0x0c0b, 0x0e0d]
    );
}

#[test]
fn read_key_passes_over_what_follows_the_fourteenth_byte() {
    let mut data: Vec<u8> = vec![0x11; 14];
    data.extend_from_slice(&[0xaa, 0xbb, 0xcc]);
    assert_eq!(read_key(&data), [0x1111; 7]);
}
