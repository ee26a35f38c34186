use heys_analysis::spn::{
    apply_substitution, check_sbox_pair, parity_of, permute, precalc_perm, precalc_shlop, spermutation,
    unspermutation, Tables, S_BLOCK, S_INV,
};

#[test]
fn substitution_of_a_known_block() {
    assert_eq!(apply_substitution(0x1234, &S_BLOCK), 0x0c49);
    assert_eq!(apply_substitution(0x0000, &S_BLOCK), 0x8888);
    assert_eq!(apply_substitution(0xffff, &S_BLOCK), 0xdddd);
}

#[test]
fn substitution_works_nibble_by_nibble() {
    for n in 0..16u16 {
        assert_eq!(apply_substitution(n, &S_BLOCK) & 0xf, S_BLOCK[n as usize]);
        assert_eq!(apply_substitution(n << 12, &S_BLOCK) >> 12, S_BLOCK[n as usize]);
    }
}

#[test]
fn inverse_sbox_undoes_the_sbox_on_every_block() {
    for x in 0..=u16::MAX {
        assert_eq!(apply_substitution(apply_substitution(x, &S_BLOCK), &S_INV), x);
        assert_eq!(apply_substitution(apply_substitution(x, &S_INV), &S_BLOCK), x);
    }
}

#[test]
fn permutation_of_known_blocks() {
    assert_eq!(permute(0x0001), 0x0001);
    assert_eq!(permute(0x0002), 0x0010);
    assert_eq!(permute(0x8000), 0x8000);
    assert_eq!(permute(0x00f0), 0x2222);
    assert_eq!(permute(0x1234), 0x016a);
}

#[test]
fn permutation_is_an_involution_on_every_block() {
    for x in 0..=u16::MAX {
        assert_eq!(permute(permute(x)), x);
    }
}

#[test]
fn parity_counts_the_bits_modulo_two() {
    assert_eq!(parity_of(0), 0);
    assert_eq!(parity_of(1), 1);
    assert_eq!(parity_of(0x8000), 1);
    assert_eq!(parity_of(0x8001), 0);
    assert_eq!(parity_of(0xffff), 0);
    assert_eq!(parity_of(0x7fff), 1);
    for x in 0..=u16::MAX {
        assert_eq!(parity_of(x) as u32, x.count_ones() % 2);
    }
}

#[test]
fn tables_hold_the_functions_that_they_cache() {
    let (permutation, spermutation_table) = precalc_perm();
    let parity = precalc_shlop();
    assert_eq!(permutation.len(), 65536);
    assert_eq!(spermutation_table.len(), 65536);
    assert_eq!(parity.len(), 65536);
    assert_eq!(permutation[0x1234], 0x016a);
    assert_eq!(spermutation_table[0], 0xf000);
    assert_eq!(spermutation_table[0x1234], 0x5601);
    assert_eq!(parity[0x0007], 1);
    for x in 0..=u16::MAX {
        assert_eq!(permutation[x as usize], permute(x));
        assert_eq!(
            spermutation_table[x as usize],
            permute(apply_substitution(x, &S_BLOCK))
        );
        assert_eq!(parity[x as usize], parity_of(x));
    }
}

#[test]
fn table_lookups_agree_with_the_direct_computation() {
    let tables = Tables::new();
    for x in [0u16, 1, 0x1234, 0x8000, 0xabcd, 0xffff] {
        assert_eq!(tables.permute_bits(x), permute(x));
        assert_eq!(tables.combined_transform(x), spermutation(&tables, x));
        assert_eq!(tables.parity(x), parity_of(x));
    }
}

#[test]
fn spermutation_of_known_blocks() {
    let tables = Tables::new();
    assert_eq!(spermutation(&tables, 0), 0xf000);
    assert_eq!(spermutation(&tables, 0x1234), 0x5601);
}

#[test]
fn unspermutation_undoes_spermutation_on_every_block() {
    let tables = Tables::new();
    assert_eq!(unspermutation(&tables, 0x5601), 0x1234);
    for x in 0..=u16::MAX {
        assert_eq!(unspermutation(&tables, spermutation(&tables, x)), x);
        assert_eq!(spermutation(&tables, unspermutation(&tables, x)), x);
    }
}

#[test]
fn sbox_and_its_inverse_pass_the_check() {
    assert!(check_sbox_pair(&S_BLOCK, &S_INV));
    assert!(check_sbox_pair(&S_INV, &S_BLOCK));
}

#[test]
fn check_refuses_what_is_no_sbox_pair() {
    assert!(!check_sbox_pair(&S_BLOCK, &S_BLOCK));
    let mut twice = S_BLOCK;
    twice[1] = twice[0];
    assert!(!check_sbox_pair(&twice, &S_INV));
    let mut wide = S_BLOCK;
    wide[3] = 16;
    assert!(!check_sbox_pair(&wide, &S_INV));
    let mut wide_inverse = S_INV;
    wide_inverse[15] = 0x1b;
    assert!(!check_sbox_pair(&S_BLOCK, &wide_inverse));
    let identity: [u16; 16] = [0, 1, 2, 3, 4, 5, 6, 7, 8, 9, 10, 11, 12, 13, 14, 15];
    assert!(check_sbox_pair(&identity, &identity));
}
