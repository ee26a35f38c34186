//! The cipher: six keyed rounds of substitution and permutation, then a whitening key.

use crate::auxil::{blocks_of, blocks_to_bytes, bytes_of, bytes_to_blocks, read_key};
use crate::spn::{
    apply_substitution, combined_transform, inverse_transform, lemma_transform_round_trip,
    unspermutation, Tables, S_BLOCK,
};
use vstd::prelude::*;

verus! {

/// The number of keyed rounds.
pub const ROUNDS: usize = 6;

/// The number of round keys: one for each round, and the whitening key.
pub const KEYS: usize = 7;

/// One round: the key is mixed in, then substitution and permutation.
pub open spec fn round(x: u16, k: u16) -> u16 {
    combined_transform(x ^ k)
}

/// The block after the first `n` rounds, under the keys `keys[0]` to `keys[n - 1]`.
pub open spec fn encrypt_rounds(x: u16, keys: Seq<u16>, n: nat) -> u16
    decreases n,
{
    if n == 0 {
        x
    } else {
        round(encrypt_rounds(x, keys, (n - 1) as nat), keys[n - 1])
    }
}

/// The ciphertext of `x`: six rounds, then the whitening key `keys[6]`.
pub open spec fn encrypt_block(x: u16, keys: Seq<u16>) -> u16 {
    encrypt_rounds(x, keys, ROUNDS as nat) ^ keys[ROUNDS as int]
}

/// One round undone: permutation, inverse substitution, then the key.
pub open spec fn decrypt_round(y: u16, k: u16) -> u16 {
    inverse_transform(y) ^ k
}

/// The block before the last `n` of the rounds `0` to `n - 1`, peeled from the last one down.
pub open spec fn decrypt_rounds(y: u16, keys: Seq<u16>, n: nat) -> u16
    decreases n,
{
    if n == 0 {
        y
    } else {
        decrypt_rounds(decrypt_round(y, keys[n - 1]), keys, (n - 1) as nat)
    }
}

/// The plaintext of `y`: the whitening key taken off, then six rounds undone.
pub open spec fn decrypt_block(y: u16, keys: Seq<u16>) -> u16 {
    decrypt_rounds(y ^ keys[ROUNDS as int], keys, ROUNDS as nat)
}

/// One round of the cipher.
pub fn heys_round(tables: &Tables, x: u16, k: u16) -> (y: u16)
    ensures
        y == round(x, k),
{
    let mixed = x ^ k;
    let substituted = apply_substitution(mixed, &S_BLOCK);
    tables.permute_bits(substituted)
}

/// Encrypts one block under seven round keys.
pub fn heys_encrypt(tables: &Tables, x: u16, k: [u16; 7]) -> (y: u16)
    ensures
        y == encrypt_block(x, k@),
{
    let mut state = x;
    let mut i: usize = 0;
    while i < ROUNDS
        invariant
            i <= ROUNDS,
            state == encrypt_rounds(x, k@, i as nat),
        decreases ROUNDS - i,
    {
        state = heys_round(tables, state, k[i]);
        i += 1;
    }
    state ^ k[6]
}

/// The ciphertext of each block of a sequence.
pub open spec fn encrypt_blocks(blocks: Seq<u16>, keys: Seq<u16>) -> Seq<u16> {
    Seq::new(blocks.len(), |i: int| encrypt_block(blocks[i], keys))
}

/// Encrypts a stream of plaintext bytes, block by block, under the round keys that the key
/// material holds, and gives the stream of ciphertext bytes. An odd last byte of the plaintext
/// is left out.
pub fn heys_encrypt_from_file(tables: &Tables, plaintext: &[u8], key_material: &[u8]) -> (cyphertext: Vec<u8>)
    requires
        key_material@.len() >= 14,
    ensures
        cyphertext@ == bytes_of(
            encrypt_blocks(blocks_of(plaintext@), blocks_of(key_material@).subrange(0, 7)),
        ),
{
    let data = bytes_to_blocks(plaintext);
    let keys = read_key(key_material);
    let mut encrypted: Vec<u16> = Vec::new();
    let mut i: usize = 0;
    while i < data.len()
        invariant
            i <= data@.len(),
            encrypted@.len() == i,
            forall|j: int| 0 <= j < i ==> #[trigger] encrypted@[j] == encrypt_block(data@[j], keys@),
        decreases data@.len() - i,
    {
        encrypted.push(heys_encrypt(tables, data[i], keys));
        i += 1;
    }
    assert(encrypted@ =~= encrypt_blocks(data@, keys@));
    let bytes: usize = plaintext.len();
    assert(2 * encrypted@.len() <= bytes);
    blocks_to_bytes(encrypted.as_slice())
}

/// Undoes one round under its key.
pub fn peel_round(tables: &Tables, y: u16, k: u16) -> (x: u16)
    ensures
        x == decrypt_round(y, k),
        round(x, k) == y,
{
    proof {
        lemma_round_round_trip_back(y, k);
    }
    unspermutation(tables, y) ^ k
}

/// Decrypts one block under seven round keys.
pub fn heys_decrypt(tables: &Tables, y: u16, k: [u16; 7]) -> (x: u16)
    ensures
        x == decrypt_block(y, k@),
        encrypt_block(x, k@) == y,
{
    let mut state = y ^ k[6];
    let mut i: usize = ROUNDS;
    while i > 0
        invariant
            i <= ROUNDS,
            decrypt_rounds(state, k@, i as nat) == decrypt_block(y, k@),
        decreases i,
    {
        i -= 1;
        state = peel_round(tables, state, k[i]);
    }
    proof {
        lemma_encrypt_decrypt(y, k@);
    }
    state
}

/// Mixing a key in twice leaves the block as it was.
pub proof fn lemma_xor_cancels(x: u16, k: u16)
    ensures
        (x ^ k) ^ k == x,
{
    assert((x ^ k) ^ k == x) by (bit_vector);
}

/// `decrypt_round` undoes `round` under the same key.
pub proof fn lemma_round_round_trip(x: u16, k: u16)
    ensures
        decrypt_round(round(x, k), k) == x,
{
    lemma_transform_round_trip(x ^ k);
    lemma_xor_cancels(x, k);
}

/// `round` undoes `decrypt_round` under the same key.
pub proof fn lemma_round_round_trip_back(y: u16, k: u16)
    ensures
        round(decrypt_round(y, k), k) == y,
{
    lemma_transform_round_trip(y);
    lemma_xor_cancels(inverse_transform(y), k);
}

/// Peeling `n` rounds off what `n` rounds made gives the block back.
pub proof fn lemma_rounds_round_trip(x: u16, keys: Seq<u16>, n: nat)
    ensures
        decrypt_rounds(encrypt_rounds(x, keys, n), keys, n) == x,
    decreases n,
{
    if n > 0 {
        let before = encrypt_rounds(x, keys, (n - 1) as nat);
        lemma_round_round_trip(before, keys[n - 1]);
        lemma_rounds_round_trip(x, keys, (n - 1) as nat);
    }
}

/// Applying `n` rounds to what peeling `n` rounds gave makes the block again.
pub proof fn lemma_rounds_round_trip_back(y: u16, keys: Seq<u16>, n: nat)
    ensures
        encrypt_rounds(decrypt_rounds(y, keys, n), keys, n) == y,
    decreases n,
{
    if n > 0 {
        let peeled = decrypt_round(y, keys[n - 1]);
        lemma_rounds_round_trip_back(peeled, keys, (n - 1) as nat);
        lemma_rounds_prefix(decrypt_rounds(peeled, keys, (n - 1) as nat), keys, n);
        lemma_round_round_trip_back(y, keys[n - 1]);
    }
}

/// The first `n` rounds are the first `n - 1` rounds followed by round `n - 1`.
proof fn lemma_rounds_prefix(x: u16, keys: Seq<u16>, n: nat)
    requires
        n > 0,
    ensures
        encrypt_rounds(x, keys, n) == round(encrypt_rounds(x, keys, (n - 1) as nat), keys[n - 1]),
{
}

/// Decryption undoes encryption, for every block and every sequence of round keys.
pub proof fn lemma_decrypt_encrypt(x: u16, keys: Seq<u16>)
    ensures
        decrypt_block(encrypt_block(x, keys), keys) == x,
{
    let last = encrypt_rounds(x, keys, ROUNDS as nat);
    lemma_xor_cancels(last, keys[ROUNDS as int]);
    lemma_rounds_round_trip(x, keys, ROUNDS as nat);
}

/// Encryption undoes decryption, for every block and every sequence of round keys.
pub proof fn lemma_encrypt_decrypt(y: u16, keys: Seq<u16>)
    ensures
        encrypt_block(decrypt_block(y, keys), keys) == y,
{
    let peeled = y ^ keys[ROUNDS as int];
    lemma_rounds_round_trip_back(peeled, keys, ROUNDS as nat);
    lemma_xor_cancels(y, keys[ROUNDS as int]);
}

/// Under the all-zero keys, encryption is `combined_transform` six times over.
pub proof fn lemma_encrypt_zero_keys(x: u16, keys: Seq<u16>)
    requires
        keys.len() == KEYS,
        forall|i: int| 0 <= i < KEYS ==> keys[i] == 0,
    ensures
        encrypt_block(x, keys) == combined_transform(
            combined_transform(
                combined_transform(combined_transform(combined_transform(combined_transform(x)))),
            ),
        ),
{
    assert forall|v: u16| #[trigger] (v ^ 0) == v by {
        assert(v ^ 0 == v) by (bit_vector);
    }
    reveal_with_fuel(encrypt_rounds, 7);
}

} // verus!
