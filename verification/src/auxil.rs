//! Block streams and sample sets: 16-bit blocks as little-endian byte pairs, the round keys,
//! the plaintext corpus with its shifted copies, and random samples drawn from a corpus.

use rand::seq::SliceRandom;
use vstd::prelude::*;

verus! {

/// The value that a little-endian byte pair stands for.
pub open spec fn le_value(lo: u8, hi: u8) -> u16 {
    (hi as int * 256 + lo as int) as u16
}

/// The low byte of a block.
pub open spec fn low_byte(value: u16) -> u8 {
    (value % 256) as u8
}

/// The high byte of a block.
pub open spec fn high_byte(value: u16) -> u8 {
    (value / 256) as u8
}

/// The number of whole blocks in a byte stream; an odd last byte is not counted.
pub open spec fn block_count(bytes: Seq<u8>) -> nat {
    bytes.len() / 2
}

/// Block `i` of a byte stream.
pub open spec fn block_at(bytes: Seq<u8>, i: int) -> u16 {
    le_value(bytes[2 * i], bytes[2 * i + 1])
}

/// The blocks of a byte stream, in order.
pub open spec fn blocks_of(bytes: Seq<u8>) -> Seq<u16> {
    Seq::new(block_count(bytes), |i: int| block_at(bytes, i))
}

/// The byte stream of a sequence of blocks: for each block its low byte, then its high byte.
pub open spec fn bytes_of(blocks: Seq<u16>) -> Seq<u8> {
    Seq::new(
        2 * blocks.len(),
        |j: int|
            if j % 2 == 0 {
                low_byte(blocks[j / 2])
            } else {
                high_byte(blocks[j / 2])
            },
    )
}

/// Decodes one block from its two little-endian bytes.
pub fn bytes_to_u16(pair: [u8; 2]) -> (value: u16)
    ensures
        value == le_value(pair[0], pair[1]),
        low_byte(value) == pair[0],
        high_byte(value) == pair[1],
{
    let lo: u16 = pair[0] as u16;
    let hi: u16 = pair[1] as u16;
    assert((hi << 8) ^ lo == hi * 256 + lo) by (bit_vector)
        requires
            lo < 256,
            hi < 256,
    ;
    (hi << 8) ^ lo
}

/// Encodes one block as its two little-endian bytes.
pub fn u16_to_bytes(value: u16) -> (pair: [u8; 2])
    ensures
        pair[0] == low_byte(value),
        pair[1] == high_byte(value),
        le_value(pair[0], pair[1]) == value,
{
    assert(value & 0xFF == value % 256 && value >> 8 == value / 256) by (bit_vector);
    let lo: u8 = (value & 0xFF) as u8;
    let hi: u8 = (value >> 8) as u8;
    [lo, hi]
}

/// Decoding undoes encoding, and encoding undoes decoding.
pub proof fn lemma_le_round_trip(value: u16, lo: u8, hi: u8)
    ensures
        le_value(low_byte(value), high_byte(value)) == value,
        low_byte(le_value(lo, hi)) == lo,
        high_byte(le_value(lo, hi)) == hi,
{
}

/// The blocks of the byte stream of `blocks` are `blocks`.
pub proof fn lemma_blocks_of_bytes_of(blocks: Seq<u16>)
    ensures
        blocks_of(bytes_of(blocks)) == blocks,
{
    let bytes = bytes_of(blocks);
    assert(block_count(bytes) == blocks.len());
    assert forall|i: int| 0 <= i < blocks.len() implies block_at(bytes, i) == blocks[i] by {
        assert(bytes[2 * i] == low_byte(blocks[i]));
        assert(bytes[2 * i + 1] == high_byte(blocks[i]));
        lemma_le_round_trip(blocks[i], 0, 0);
    }
    assert(blocks_of(bytes) =~= blocks);
}

/// Reads block `i` of a byte stream.
pub fn read_block(data: &[u8], i: usize) -> (value: u16)
    requires
        i < block_count(data@),
    ensures
        value == block_at(data@, i as int),
{
    let len: usize = data.len();
    assert(2 * i + 1 < len);
    bytes_to_u16([data[2 * i], data[2 * i + 1]])
}

/// Decodes a byte stream into its blocks; an odd last byte is left out.
pub fn bytes_to_blocks(data: &[u8]) -> (blocks: Vec<u16>)
    ensures
        blocks@ == blocks_of(data@),
{
    let n: usize = data.len() / 2;
    let mut blocks: Vec<u16> = Vec::new();
    let mut i: usize = 0;
    while i < n
        invariant
            i <= n,
            n == block_count(data@),
            blocks@.len() == i,
            forall|j: int| 0 <= j < i ==> #[trigger] blocks@[j] == block_at(data@, j),
        decreases n - i,
    {
        blocks.push(read_block(data, i));
        i += 1;
    }
    assert(blocks@ =~= blocks_of(data@));
    blocks
}

/// Encodes blocks as a byte stream.
pub fn blocks_to_bytes(blocks: &[u16]) -> (data: Vec<u8>)
    requires
        2 * blocks@.len() <= usize::MAX,
    ensures
        data@ == bytes_of(blocks@),
{
    let n: usize = blocks.len();
    let mut data: Vec<u8> = Vec::new();
    let mut i: usize = 0;
    while i < n
        invariant
            i <= n,
            n == blocks@.len(),
            2 * n <= usize::MAX,
            data@.len() == 2 * i,
            forall|j: int| 0 <= j < 2 * i ==> #[trigger] data@[j] == bytes_of(blocks@)[j],
        decreases n - i,
    {
        let pair = u16_to_bytes(blocks[i]);
        data.push(pair[0]);
        data.push(pair[1]);
        i += 1;
    }
    assert(data@ =~= bytes_of(blocks@));
    data
}

/// Reads the seven round keys from the first fourteen bytes of the key material.
pub fn read_key(data: &[u8]) -> (keys: [u16; 7])
    requires
        data@.len() >= 14,
    ensures
        keys@ == blocks_of(data@).subrange(0, 7),
{
    let mut keys: [u16; 7] = [0;7];
    let mut i: usize = 0;
    while i < 7
        invariant
            i <= 7,
            data@.len() >= 14,
            forall|j: int| 0 <= j < i ==> #[trigger] keys@[j] == block_at(data@, j),
        decreases 7 - i,
    {
        keys[i] = read_block(data, i);
        i += 1;
    }
    assert(keys@ =~= blocks_of(data@).subrange(0, 7));
    keys
}

/// The counter of block `i` of the plaintext corpus: `i`, wrapped to 16 bits.
pub open spec fn counter(i: int) -> u16 {
    (i % 65536) as u16
}

/// The plaintext corpus of `size` blocks. Block `i` holds the high byte of its counter, then the
/// low byte: read as a little-endian block, it is the counter with its bytes swapped.
pub open spec fn corpus_bytes(size: nat) -> Seq<u8> {
    Seq::new(
        2 * size,
        |j: int|
            if j % 2 == 0 {
                high_byte(counter(j / 2))
            } else {
                low_byte(counter(j / 2))
            },
    )
}

/// The byte stream whose blocks are those of `plain`, each with `shift` mixed in.
pub open spec fn shifted_bytes(plain: Seq<u8>, shift: u16) -> Seq<u8> {
    bytes_of(Seq::new(block_count(plain), |i: int| block_at(plain, i) ^ shift))
}

/// A plaintext corpus and its four copies shifted by fixed differences.
pub struct ShiftedCorpus {
    pub plain: Vec<u8>,
    pub shifted_1: Vec<u8>,
    pub shifted_2: Vec<u8>,
    pub shifted_3: Vec<u8>,
    pub shifted_4: Vec<u8>,
}

/// The byte stream of the blocks of `plain`, each with `shift` mixed in.
pub fn shift_stream(plain: &[u8], shift: u16) -> (shifted: Vec<u8>)
    ensures
        shifted@ == shifted_bytes(plain@, shift),
{
    let n: usize = plain.len() / 2;
    let ghost blocks = Seq::new(block_count(plain@), |i: int| block_at(plain@, i) ^ shift);
    let mut shifted: Vec<u8> = Vec::new();
    let mut i: usize = 0;
    while i < n
        invariant
            i <= n,
            n == block_count(plain@),
            blocks == Seq::new(block_count(plain@), |i: int| block_at(plain@, i) ^ shift),
            shifted@.len() == 2 * i,
            forall|j: int| 0 <= j < 2 * i ==> #[trigger] shifted@[j] == bytes_of(blocks)[j],
        decreases n - i,
    {
        let value = read_block(plain, i);
        let pair = u16_to_bytes(value ^ shift);
        shifted.push(pair[0]);
        shifted.push(pair[1]);
        i += 1;
    }
    assert(shifted@ =~= bytes_of(blocks));
    shifted
}

/// Builds the plaintext corpus of `size` blocks and its copies shifted by the four differences.
pub fn random_bytes_to_file_with_shifted(
    shift_1: u16,
    shift_2: u16,
    shift_3: u16,
    shift_4: u16,
    size: usize,
) -> (corpus: ShiftedCorpus)
    requires
        2 * size <= usize::MAX,
    ensures
        corpus.plain@ == corpus_bytes(size as nat),
        corpus.shifted_1@ == shifted_bytes(corpus.plain@, shift_1),
        corpus.shifted_2@ == shifted_bytes(corpus.plain@, shift_2),
        corpus.shifted_3@ == shifted_bytes(corpus.plain@, shift_3),
        corpus.shifted_4@ == shifted_bytes(corpus.plain@, shift_4),
{
    let mut buffer: Vec<u8> = Vec::new();
    let mut cnt: u16 = 0;
    let mut itr: u8 = 0;
    let mut j: usize = 0;
    while j < 2 * size
        invariant
            j <= 2 * size <= usize::MAX,
            itr as int == j % 2,
            cnt == counter(j as int / 2),
            buffer@.len() == j,
            forall|b: int| 0 <= b < j ==> #[trigger] buffer@[b] == corpus_bytes(size as nat)[b],
        decreases 2 * size - j,
    {
        let pair = u16_to_bytes(cnt);
        if itr == 0 {
            itr = 1;
            buffer.push(pair[1]);
        } else {
            itr = 0;
            cnt = cnt.wrapping_add(1);
            buffer.push(pair[0]);
        }
        j += 1;
    }
    assert(buffer@ =~= corpus_bytes(size as nat));
    let shifted_1 = shift_stream(buffer.as_slice(), shift_1);
    let shifted_2 = shift_stream(buffer.as_slice(), shift_2);
    let shifted_3 = shift_stream(buffer.as_slice(), shift_3);
    let shifted_4 = shift_stream(buffer.as_slice(), shift_4);
    ShiftedCorpus { plain: buffer, shifted_1, shifted_2, shifted_3, shifted_4 }
}

/// One sample: `sample[0]` holds the plaintext block and its four shifted variants,
/// `sample[1]` the ciphertext of each.
pub open spec fn is_sample_at(
    sample: [[u16; 5]; 2],
    plains: Seq<Seq<u8>>,
    cyphers: Seq<Seq<u8>>,
    i: int,
) -> bool {
    forall|v: int|
        0 <= v < 5 ==> sample[0][v] == block_at(#[trigger] plains[v], i) && sample[1][v]
            == block_at(cyphers[v], i)
}

/// `samples` holds, in order, the samples at the block indices `indices`.
pub open spec fn are_samples_at(
    samples: Seq<[[u16; 5]; 2]>,
    plains: Seq<Seq<u8>>,
    cyphers: Seq<Seq<u8>>,
    indices: Seq<usize>,
) -> bool {
    &&& samples.len() == indices.len()
    &&& forall|k: int|
        0 <= k < indices.len() ==> is_sample_at(#[trigger] samples[k], plains, cyphers, indices[k] as int)
}

/// `indices` is a draw of `count` block indices below `n` without replacement, or of all `n`
/// where `count` is larger.
pub open spec fn is_draw(indices: Seq<usize>, n: nat, count: nat) -> bool {
    &&& indices.len() == if count < n {
        count
    } else {
        n
    }
    &&& indices.no_duplicates()
    &&& forall|k: int| 0 <= k < indices.len() ==> #[trigger] indices[k] < n
}

/// The block indices `0` to `n - 1`, in order.
pub fn index_range(n: usize) -> (indices: Vec<usize>)
    ensures
        indices@ == Seq::new(n as nat, |i: int| i as usize),
{
    let mut indices: Vec<usize> = Vec::new();
    let mut i: usize = 0;
    while i < n
        invariant
            i <= n,
            indices@.len() == i,
            forall|j: int| 0 <= j < i ==> #[trigger] indices@[j] == j,
        decreases n - i,
    {
        indices.push(i);
        i += 1;
    }
    assert(indices@ =~= Seq::new(n as nat, |i: int| i as usize));
    indices
}

/// `rand::rngs::ThreadRng`: the random generator of a thread, carried through as it is.
#[verifier::external_type_specification]
#[verifier::external_body]
pub struct ExThreadRng(rand::rngs::ThreadRng);

/// `rand::rng`: a handle to the generator of the calling thread. Nothing is claimed of it.
pub assume_specification[ rand::rng ]() -> (rng: rand::rngs::ThreadRng);

/// `rand::seq::SliceRandom::shuffle` on the vector's items: it swaps items in place, so the
/// vector holds the same items afterwards, each as often as before, in some order.
#[verifier::external_body]
fn shuffle(indices: &mut Vec<usize>, rng: &mut rand::rngs::ThreadRng)
    ensures
        final(indices)@.to_multiset() == old(indices)@.to_multiset(),
{
    indices.shuffle(rng);
}

/// The samples at the given block indices of a corpus of five plaintext streams and their five
/// ciphertext streams.
pub fn samples_at_indices(
    indices: &[usize],
    plain: &[u8],
    cypher: &[u8],
    shifted_1: &[u8],
    cypher_shifted_1: &[u8],
    shifted_2: &[u8],
    cypher_shifted_2: &[u8],
    shifted_3: &[u8],
    cypher_shifted_3: &[u8],
    shifted_4: &[u8],
    cypher_shifted_4: &[u8],
) -> (samples: Vec<[[u16; 5]; 2]>)
    requires
        forall|k: int|
            0 <= k < indices@.len() ==> {
                &&& #[trigger] indices@[k] < block_count(plain@)
                &&& indices@[k] < block_count(cypher@)
                &&& indices@[k] < block_count(shifted_1@)
                &&& indices@[k] < block_count(cypher_shifted_1@)
                &&& indices@[k] < block_count(shifted_2@)
                &&& indices@[k] < block_count(cypher_shifted_2@)
                &&& indices@[k] < block_count(shifted_3@)
                &&& indices@[k] < block_count(cypher_shifted_3@)
                &&& indices@[k] < block_count(shifted_4@)
                &&& indices@[k] < block_count(cypher_shifted_4@)
            },
    ensures
        are_samples_at(
            samples@,
            seq![plain@, shifted_1@, shifted_2@, shifted_3@, shifted_4@],
            seq![cypher@, cypher_shifted_1@, cypher_shifted_2@, cypher_shifted_3@, cypher_shifted_4@],
            indices@,
        ),
{
    let ghost plains = seq![plain@, shifted_1@, shifted_2@, shifted_3@, shifted_4@];
    let ghost cyphers = seq![
        cypher@,
        cypher_shifted_1@,
        cypher_shifted_2@,
        cypher_shifted_3@,
        cypher_shifted_4@,
    ];
    let mut samples: Vec<[[u16; 5]; 2]> = Vec::new();
    let mut k: usize = 0;
    while k < indices.len()
        invariant
            k <= indices@.len(),
            plains == seq![plain@, shifted_1@, shifted_2@, shifted_3@, shifted_4@],
            cyphers == seq![
                cypher@,
                cypher_shifted_1@,
                cypher_shifted_2@,
                cypher_shifted_3@,
                cypher_shifted_4@,
            ],
            forall|k: int|
                0 <= k < indices@.len() ==> {
                    &&& #[trigger] indices@[k] < block_count(plain@)
                    &&& indices@[k] < block_count(cypher@)
                    &&& indices@[k] < block_count(shifted_1@)
                    &&& indices@[k] < block_count(cypher_shifted_1@)
                    &&& indices@[k] < block_count(shifted_2@)
                    &&& indices@[k] < block_count(cypher_shifted_2@)
                    &&& indices@[k] < block_count(shifted_3@)
                    &&& indices@[k] < block_count(cypher_shifted_3@)
                    &&& indices@[k] < block_count(shifted_4@)
                    &&& indices@[k] < block_count(cypher_shifted_4@)
                },
            are_samples_at(samples@, plains, cyphers, indices@.take(k as int)),
        decreases indices@.len() - k,
    {
        let i = indices[k];
        let plains_at: [u16; 5] = [
            read_block(plain, i),
            read_block(shifted_1, i),
            read_block(shifted_2, i),
            read_block(shifted_3, i),
            read_block(shifted_4, i),
        ];
        let cyphers_at: [u16; 5] = [
            read_block(cypher, i),
            read_block(cypher_shifted_1, i),
            read_block(cypher_shifted_2, i),
            read_block(cypher_shifted_3, i),
            read_block(cypher_shifted_4, i),
        ];
        let sample: [[u16; 5]; 2] = [plains_at, cyphers_at];
        assert(is_sample_at(sample, plains, cyphers, i as int));
        samples.push(sample);
        k += 1;
    }
    assert(indices@.take(k as int) =~= indices@);
    samples
}

/// Draws `count` samples at random, without replacement, from a corpus of five plaintext
/// streams and their five ciphertext streams; all of them where `count` is larger than the
/// number of blocks of `plain`. Which blocks are drawn is left to the random generator.
pub fn sample_random_bytes_from_file(
    plain: &[u8],
    cypher: &[u8],
    shifted_1: &[u8],
    cypher_shifted_1: &[u8],
    shifted_2: &[u8],
    cypher_shifted_2: &[u8],
    shifted_3: &[u8],
    cypher_shifted_3: &[u8],
    shifted_4: &[u8],
    cypher_shifted_4: &[u8],
    count: usize,
) -> (samples: Vec<[[u16; 5]; 2]>)
    requires
        block_count(cypher@) >= block_count(plain@),
        block_count(shifted_1@) >= block_count(plain@),
        block_count(cypher_shifted_1@) >= block_count(plain@),
        block_count(shifted_2@) >= block_count(plain@),
        block_count(cypher_shifted_2@) >= block_count(plain@),
        block_count(shifted_3@) >= block_count(plain@),
        block_count(cypher_shifted_3@) >= block_count(plain@),
        block_count(shifted_4@) >= block_count(plain@),
        block_count(cypher_shifted_4@) >= block_count(plain@),
    ensures
        exists|indices: Seq<usize>|
            {
                &&& #[trigger] is_draw(indices, block_count(plain@), count as nat)
                &&& are_samples_at(
                    samples@,
                    seq![plain@, shifted_1@, shifted_2@, shifted_3@, shifted_4@],
                    seq![
                        cypher@,
                        cypher_shifted_1@,
                        cypher_shifted_2@,
                        cypher_shifted_3@,
                        cypher_shifted_4@,
                    ],
                    indices,
                )
            },
{
    let n: usize = plain.len() / 2;
    let mut rng = rand::rng();
    let mut indices = index_range(n);
    let ghost ordered = indices@;
    shuffle(&mut indices, &mut rng);
    let ghost shuffled = indices@;
    indices.truncate(count);
    proof {
        lemma_permutation_of_range(ordered, shuffled, n as nat);
        assert(indices@ == shuffled.take(if count < n { count as int } else { n as int }));
        assert(is_draw(indices@, block_count(plain@), count as nat));
    }
    samples_at_indices(
        indices.as_slice(),
        plain,
        cypher,
        shifted_1,
        cypher_shifted_1,
        shifted_2,
        cypher_shifted_2,
        shifted_3,
        cypher_shifted_3,
        shifted_4,
        cypher_shifted_4,
    )
}

/// A rearrangement of the indices `0` to `n - 1` holds `n` different indices below `n`.
proof fn lemma_permutation_of_range(ordered: Seq<usize>, shuffled: Seq<usize>, n: nat)
    requires
        ordered == Seq::new(n, |i: int| i as usize),
        n <= usize::MAX,
        shuffled.to_multiset() == ordered.to_multiset(),
    ensures
        shuffled.len() == n,
        shuffled.no_duplicates(),
        forall|k: int| 0 <= k < shuffled.len() ==> #[trigger] shuffled[k] < n,
{
    broadcast use vstd::seq_lib::to_multiset_len, vstd::seq_lib::to_multiset_contains;

    assert(ordered.no_duplicates());
    ordered.lemma_multiset_has_no_duplicates();
    shuffled.lemma_multiset_has_no_duplicates_conv();
    assert(shuffled.len() == shuffled.to_multiset().len());
    assert(ordered.len() == ordered.to_multiset().len());
    assert forall|k: int| 0 <= k < shuffled.len() implies #[trigger] shuffled[k] < n by {
        let x = shuffled[k];
        assert(shuffled.contains(x));
        assert(shuffled.to_multiset().count(x) > 0);
        assert(ordered.contains(x));
        let w = choose|w: int| 0 <= w < ordered.len() && ordered[w] == x;
        assert(ordered[w] == w);
    }
}

} // verus!
