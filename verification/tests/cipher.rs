use heys_analysis::cipher::{
    heys_decrypt, heys_encrypt, heys_encrypt_from_file, heys_round, peel_round,
};
use heys_analysis::spn::{spermutation, Tables};

const KEYS: [u16; 7] = [0x1111, 0x2222, 0x3333, 0x4444, 0x5555, 0x6666, 0x7777];

#[test]
fn round_mixes_the_key_then_substitutes_and_permutes() {
    let tables = Tables::new();
    assert_eq!(heys_round(&tables, 0x1234, 0), 0x5601);
    assert_eq!(heys_round(&tables, 0x1234, 0x1234), 0xf000);
    assert_eq!(heys_round(&tables, 0, 0x1234), 0x5601);
}

#[test]
fn encryption_of_known_blocks() {
    let tables = Tables::new();
    assert_eq!(heys_encrypt(&tables, 0x1234, KEYS), 0xa98e);
    assert_eq!(heys_encrypt(&tables, 0x0000, KEYS), 0x88f0);
    assert_eq!(heys_encrypt(&tables, 0xffff, KEYS), 0x7279);
}

#[test]
fn encryption_under_zero_keys_is_six_transforms() {
    let tables = Tables::new();
    assert_eq!(heys_encrypt(&tables, 0xabcd, [0; 7]), 0x9620);
    for x in [0u16, 1, 0x1234, 0xabcd, 0xffff] {
        let mut expected = x;
        for _ in 0..6 {
            expected = spermutation(&tables, expected);
        }
        assert_eq!(heys_encrypt(&tables, x, [0; 7]), expected);
    }
}

#[test]
fn whitening_key_is_mixed_in_last() {
    let tables = Tables::new();
    let plain = heys_encrypt(&tables, 0x1234, [0; 7]);
    assert_eq!(heys_encrypt(&tables, 0x1234, [0, 0, 0, 0, 0, 0, 0x00ff]), plain ^ 0x00ff);
}

#[test]
fn peel_round_undoes_a_round() {
    let tables = Tables::new();
    assert_eq!(peel_round(&tables, 0x5601, 0), 0x1234);
    for (x, k) in [(0u16, 0u16), (0x1234, 0xffff), (0xabcd, 0x0f0f), (0xffff, 0x8001)] {
        assert_eq!(peel_round(&tables, heys_round(&tables, x, k), k), x);
        assert_eq!(heys_round(&tables, peel_round(&tables, x, k), k), x);
    }
}

#[test]
fn decryption_undoes_encryption() {
    let tables = Tables::new();
    assert_eq!(heys_decrypt(&tables, 0xa98e, KEYS), 0x1234);
    let mut state: u32 = 12345;
    for _ in 0..200 {
        let mut keys = [0u16; 7];
        for key in keys.iter_mut() {
            state = state.wrapping_mul(1103515245).wrapping_add(12345);
            *key = (state >> 8) as u16;
        }
        state = state.wrapping_mul(1103515245).wrapping_add(12345);
        let block = (state >> 8) as u16;
        assert_eq!(heys_decrypt(&tables, heys_encrypt(&tables, block, keys), keys), block);
        assert_eq!(heys_encrypt(&tables, heys_decrypt(&tables, block, keys), keys), block);
    }
}

#[test]
fn decryption_undoes_encryption_on_every_block_under_one_key() {
    let tables = Tables::new();
    for x in 0..=u16::MAX {
        assert_eq!(heys_decrypt(&tables, heys_encrypt(&tables, x, KEYS), KEYS), x);
    }
}

#[test]
fn stream_encryption_of_known_bytes() {
    let tables = Tables::new();
    let key_material: Vec<u8> = vec![
        0x11, 0x11, 0x22, 0x22, 0x33, 0x33, 0x44, 0x44, 0x55, 0x55, 0x66, 0x66, 0x77, 0x77,
    ];
    let plaintext: Vec<u8> = vec![0x34, 0x12, 0x00, 0x00, 0xff, 0xff];
    assert_eq!(
        heys_encrypt_from_file(&tables, &plaintext, &key_material),
        vec![0x8e, 0xa9, 0xf0, 0x88, 0x79, 0x72]
    );
}

#[test]
fn stream_encryption_leaves_out_an_odd_last_byte() {
    let tables = Tables::new();
    let key_material: Vec<u8> = vec![0; 14];
    assert_eq!(
        heys_encrypt_from_file(&tables, &[0xcd, 0xab, 0x01], &key_material),
        vec![0x20, 0x96]
    );
    assert!(heys_encrypt_from_file(&tables, &[], &key_material).is_empty());
}
