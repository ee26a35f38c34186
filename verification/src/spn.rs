//! The primitives of the substitution-permutation network: the 4-bit S-box
//! and its inverse, the bit permutation, the parity of a block, and the
//! lookup tables that cache them over the whole 16-bit domain.

use vstd::prelude::*;

verus! {

/// The number of 16-bit blocks.
pub const BLOCKS: usize = 65536;

/// The cipher's 4-bit S-box.
pub const S_BLOCK: [u16; 16] = [
    0x8, 0x0, 0xC, 0x4, 0x9, 0x6, 0x7, 0xB, 0x2, 0x3, 0x1, 0xF, 0x5, 0xE, 0xA, 0xD,
];

/// The inverse of the S-box.
pub const S_INV: [u16; 16] = [
    0x1, 0xA, 0x8, 0x9, 0x3, 0xC, 0x5, 0x6, 0x0, 0x4, 0xE, 0x7, 0x2, 0xF, 0xD, 0xB,
];

/// Bit `i` of `x`, as 0 or 1.
pub open spec fn bit(x: u16, i: u16) -> u16 {
    (x >> i) & 1
}

/// Nibble `i` of `x`: bits `4 * i` to `4 * i + 3`.
pub open spec fn nibble(x: u16, i: u16) -> u16 {
    (x >> (4 * i) as u16) & 0xF
}

/// A table is an S-box when it has 16 entries, each a nibble.
pub open spec fn is_sbox(s: Seq<u16>) -> bool {
    &&& s.len() == 16
    &&& forall|n: int| 0 <= n < 16 ==> #[trigger] s[n] < 16
}

/// `inv` undoes `s` on every nibble.
pub open spec fn is_inverse_of(inv: Seq<u16>, s: Seq<u16>) -> bool {
    &&& is_sbox(s)
    &&& is_sbox(inv)
    &&& forall|n: int| 0 <= n < 16 ==> inv[#[trigger] s[n] as int] == n
}

/// The table `s` applied to each of the four nibbles of `x`.
pub open spec fn substitute(x: u16, s: Seq<u16>) -> u16 {
    s[nibble(x, 0) as int] ^ (s[nibble(x, 1) as int] << 4) ^ (s[nibble(x, 2) as int] << 8) ^ (
    s[nibble(x, 3) as int] << 12)
}

/// The four bits of the lowest nibble of `n`, bit `j` moved to position `4 * j`.
pub open spec fn spread(n: u16) -> u16 {
    (n & 1) ^ ((n & 2) << 3) ^ ((n & 4) << 6) ^ ((n & 8) << 9)
}

/// The bit permutation: bit `j` of nibble `i` goes to bit `i` of nibble `j`.
pub open spec fn permute_bits(x: u16) -> u16 {
    spread(x) ^ (spread(x >> 4) << 1) ^ (spread(x >> 8) << 2) ^ (spread(x >> 12) << 3)
}

/// Substitution followed by permutation: what one round does after the key is mixed in.
pub open spec fn combined_transform(x: u16) -> u16 {
    permute_bits(substitute(x, S_BLOCK@))
}

/// Permutation followed by inverse substitution: what undoes `combined_transform`.
pub open spec fn inverse_transform(y: u16) -> u16 {
    substitute(permute_bits(y), S_INV@)
}

/// The number of bits of `x` that are set.
pub open spec fn ones(x: u16) -> int {
    bit(x, 0) + bit(x, 1) + bit(x, 2) + bit(x, 3) + bit(x, 4) + bit(x, 5) + bit(x, 6) + bit(x, 7)
        + bit(x, 8) + bit(x, 9) + bit(x, 10) + bit(x, 11) + bit(x, 12) + bit(x, 13) + bit(x, 14)
        + bit(x, 15)
}

/// The parity of `x`: 1 when an odd number of its bits is set, else 0.
pub open spec fn parity(x: u16) -> u16 {
    (ones(x) % 2) as u16
}

/// The inner product of `mask` and `x` over GF(2).
pub open spec fn dot(mask: u16, x: u16) -> u16 {
    parity(mask & x)
}

/// Applies the table `s` to each of the four nibbles of `x`.
pub fn apply_substitution(x: u16, s: &[u16; 16]) -> (y: u16)
    ensures
        y == substitute(x, s@),
        is_sbox(s@) ==> forall|i: u16| 0 <= i < 4 ==> nibble(y, i) == s@[#[trigger] nibble(x, i) as int],
{
    let a: usize = (x & 0xF) as usize;
    let b: usize = ((x >> 4) & 0xF) as usize;
    let c: usize = ((x >> 8) & 0xF) as usize;
    let d: usize = (x >> 12) as usize;
    proof {
        lemma_nibbles(x);
    }
    let y = s[a] ^ (s[b] << 4) ^ (s[c] << 8) ^ (s[d] << 12);
    proof {
        if is_sbox(s@) {
            lemma_substitute_nibbles(x, s@);
        }
    }
    y
}

/// Whether `s` is an S-box and `inv` its inverse: what a configuration must meet before any
/// table is built from it.
pub fn check_sbox_pair(s: &[u16; 16], inv: &[u16; 16]) -> (ok: bool)
    ensures
        ok == is_inverse_of(inv@, s@),
{
    let mut n: usize = 0;
    while n < 16
        invariant
            n <= 16,
            forall|i: int| 0 <= i < n ==> #[trigger] s@[i] < 16,
            forall|i: int| 0 <= i < n ==> #[trigger] inv@[i] < 16,
            forall|i: int| 0 <= i < n ==> inv@[#[trigger] s@[i] as int] == i,
        decreases 16 - n,
    {
        if s[n] >= 16 || inv[n] >= 16 {
            return false;
        }
        if inv[s[n] as usize] as usize != n {
            return false;
        }
        n += 1;
    }
    true
}

/// The four nibbles of a block, written with the shifts that the code uses, and put together again.
pub proof fn lemma_nibbles(x: u16)
    ensures
        nibble(x, 0) == x & 0xF,
        nibble(x, 1) == (x >> 4) & 0xF,
        nibble(x, 2) == (x >> 8) & 0xF,
        nibble(x, 3) == x >> 12,
        forall|i: u16| 0 <= i < 4 ==> #[trigger] nibble(x, i) < 16,
        x == nibble(x, 0) ^ (nibble(x, 1) << 4) ^ (nibble(x, 2) << 8) ^ (nibble(x, 3) << 12),
{
    assert((x >> (4 * 0u16) as u16) & 0xF == x & 0xF) by (bit_vector);
    assert((x >> (4 * 1u16) as u16) & 0xF == (x >> 4) & 0xF) by (bit_vector);
    assert((x >> (4 * 2u16) as u16) & 0xF == (x >> 8) & 0xF) by (bit_vector);
    assert((x >> (4 * 3u16) as u16) & 0xF == x >> 12) by (bit_vector);
    assert forall|i: u16| 0 <= i < 4 implies #[trigger] nibble(x, i) < 16 by {
        assert((x >> (4 * i) as u16) & 0xF < 16) by (bit_vector);
    }
    assert(x == (x & 0xF) ^ (((x >> 4) & 0xF) << 4) ^ (((x >> 8) & 0xF) << 8) ^ ((x >> 12) << 12))
        by (bit_vector);
}

/// Under an S-box, each nibble of the result is the table's entry for the same nibble of the input.
pub proof fn lemma_substitute_nibbles(x: u16, s: Seq<u16>)
    requires
        is_sbox(s),
    ensures
        forall|i: u16| 0 <= i < 4 ==> nibble(substitute(x, s), i) == s[#[trigger] nibble(x, i) as int],
{
    lemma_nibbles(x);
    let a = s[nibble(x, 0) as int];
    let b = s[nibble(x, 1) as int];
    let c = s[nibble(x, 2) as int];
    let d = s[nibble(x, 3) as int];
    let y = a ^ (b << 4) ^ (c << 8) ^ (d << 12);
    assert(nibble(x, 0) < 16 && nibble(x, 1) < 16 && nibble(x, 2) < 16 && nibble(x, 3) < 16);
    assert(y == substitute(x, s));
    lemma_nibbles(y);
    assert(y & 0xF == a && (y >> 4) & 0xF == b && (y >> 8) & 0xF == c && y >> 12 == d)
        by (bit_vector)
        requires
            y == a ^ (b << 4) ^ (c << 8) ^ (d << 12),
            a < 16,
            b < 16,
            c < 16,
            d < 16,
    ;
    assert forall|i: u16| 0 <= i < 4 implies nibble(substitute(x, s), i) == s[#[trigger] nibble(
        x,
        i,
    ) as int] by {
        if i == 0 {
        } else if i == 1 {
        } else if i == 2 {
        } else {
            assert(i == 3);
        }
    }
}

/// The S-box and its inverse are S-boxes, and each undoes the other.
pub proof fn lemma_sbox_pair()
    ensures
        is_inverse_of(S_INV@, S_BLOCK@),
        is_inverse_of(S_BLOCK@, S_INV@),
{
    let s = S_BLOCK@;
    let t = S_INV@;
    assert(s.len() == 16 && t.len() == 16);
    assert forall|n: int| 0 <= n < 16 implies #[trigger] s[n] < 16 && t[s[n] as int] == n by {
        assert(s[0] == 0x8 && s[1] == 0x0 && s[2] == 0xC && s[3] == 0x4);
        assert(s[4] == 0x9 && s[5] == 0x6 && s[6] == 0x7 && s[7] == 0xB);
        assert(s[8] == 0x2 && s[9] == 0x3 && s[10] == 0x1 && s[11] == 0xF);
        assert(s[12] == 0x5 && s[13] == 0xE && s[14] == 0xA && s[15] == 0xD);
        assert(t[0] == 0x1 && t[1] == 0xA && t[2] == 0x8 && t[3] == 0x9);
        assert(t[4] == 0x3 && t[5] == 0xC && t[6] == 0x5 && t[7] == 0x6);
        assert(t[8] == 0x0 && t[9] == 0x4 && t[10] == 0xE && t[11] == 0x7);
        assert(t[12] == 0x2 && t[13] == 0xF && t[14] == 0xD && t[15] == 0xB);
    }
    assert forall|n: int| 0 <= n < 16 implies #[trigger] t[n] < 16 && s[t[n] as int] == n by {
        assert(s[0] == 0x8 && s[1] == 0x0 && s[2] == 0xC && s[3] == 0x4);
        assert(s[4] == 0x9 && s[5] == 0x6 && s[6] == 0x7 && s[7] == 0xB);
        assert(s[8] == 0x2 && s[9] == 0x3 && s[10] == 0x1 && s[11] == 0xF);
        assert(s[12] == 0x5 && s[13] == 0xE && s[14] == 0xA && s[15] == 0xD);
        assert(t[0] == 0x1 && t[1] == 0xA && t[2] == 0x8 && t[3] == 0x9);
        assert(t[4] == 0x3 && t[5] == 0xC && t[6] == 0x5 && t[7] == 0x6);
        assert(t[8] == 0x0 && t[9] == 0x4 && t[10] == 0xE && t[11] == 0x7);
        assert(t[12] == 0x2 && t[13] == 0xF && t[14] == 0xD && t[15] == 0xB);
    }
}

/// Substituting with a table and then with its inverse gives the block back.
pub proof fn lemma_substitute_inverse(x: u16, s: Seq<u16>, inv: Seq<u16>)
    requires
        is_inverse_of(inv, s),
    ensures
        substitute(substitute(x, s), inv) == x,
{
    let y = substitute(x, s);
    lemma_nibbles(x);
    lemma_nibbles(y);
    lemma_substitute_nibbles(x, s);
    assert(inv[nibble(y, 0) as int] == nibble(x, 0));
    assert(inv[nibble(y, 1) as int] == nibble(x, 1));
    assert(inv[nibble(y, 2) as int] == nibble(x, 2));
    assert(inv[nibble(y, 3) as int] == nibble(x, 3));
}

/// The inverse S-box undoes the S-box on every block, nibble by nibble, and the S-box undoes
/// its inverse.
pub proof fn lemma_sbox_round_trip(x: u16)
    ensures
        substitute(substitute(x, S_BLOCK@), S_INV@) == x,
        substitute(substitute(x, S_INV@), S_BLOCK@) == x,
        forall|i: u16| 0 <= i < 4 ==> S_INV@[S_BLOCK@[#[trigger] nibble(x, i) as int] as int] == nibble(x, i),
{
    lemma_sbox_pair();
    lemma_substitute_inverse(x, S_BLOCK@, S_INV@);
    lemma_substitute_inverse(x, S_INV@, S_BLOCK@);
    lemma_nibbles(x);
}

/// The bit permutation moves bit `j` of nibble `i` to bit `i` of nibble `j`.
pub proof fn lemma_permute_bits_moves(x: u16, i: u16, j: u16)
    requires
        i < 4,
        j < 4,
    ensures
        bit(permute_bits(x), (4 * j + i) as u16) == bit(x, (4 * i + j) as u16),
{
    assert(bit(permute_bits(x), (4 * j + i) as u16) == bit(x, (4 * i + j) as u16)) by (bit_vector)
        requires
            i < 4,
            j < 4,
    ;
}

/// The bit permutation is an involution: applied twice, it gives the block back.
pub proof fn lemma_permute_bits_involution(x: u16)
    ensures
        permute_bits(permute_bits(x)) == x,
{
    assert(permute_bits(permute_bits(x)) == x) by (bit_vector);
}

/// `inverse_transform` undoes `combined_transform`, and the other way round.
pub proof fn lemma_transform_round_trip(x: u16)
    ensures
        inverse_transform(combined_transform(x)) == x,
        combined_transform(inverse_transform(x)) == x,
{
    lemma_permute_bits_involution(substitute(x, S_BLOCK@));
    lemma_sbox_round_trip(x);
    lemma_permute_bits_involution(x);
    lemma_sbox_round_trip(permute_bits(x));
}

/// A table over the whole 16-bit domain whose entry for `x` is `f(x)`.
pub open spec fn tabulates(table: Seq<u16>, f: spec_fn(u16) -> u16) -> bool {
    &&& table.len() == BLOCKS
    &&& forall|x: int| 0 <= x < BLOCKS ==> #[trigger] table[x] == f(x as u16)
}

/// The bit permutation of one block, computed nibble by nibble.
pub fn permute(x: u16) -> (y: u16)
    ensures
        y == permute_bits(x),
{
    let mut y: u16 = 0;
    let mut i: u16 = 0;
    while i < 4
        invariant
            i <= 4,
            i == 0 ==> y == 0,
            i == 1 ==> y == spread(x),
            i == 2 ==> y == spread(x) ^ (spread(x >> 4) << 1),
            i == 3 ==> y == spread(x) ^ (spread(x >> 4) << 1) ^ (spread(x >> 8) << 2),
            i == 4 ==> y == permute_bits(x),
        decreases 4 - i,
    {
        let n: u16 = x >> (i * 4);
        let moved: u16 = ((n & 0b0001) ^ ((n & 0b0010) << 3) ^ ((n & 0b0100) << 6) ^ ((n & 0b1000)
            << 9)) << i;
        assert(0u16 ^ (spread(x >> 0) << 0) == spread(x)) by (bit_vector);
        y ^= moved;
        i += 1;
    }
    y
}

/// Builds the permutation table and, from it, the table of substitution followed by
/// permutation.
pub fn precalc_perm() -> (tables: (Vec<u16>, Vec<u16>))
    ensures
        tabulates(tables.0@, |x: u16| permute_bits(x)),
        tabulates(tables.1@, |x: u16| combined_transform(x)),
{
    let mut permutation: Vec<u16> = Vec::new();
    let mut x: usize = 0;
    while x < BLOCKS
        invariant
            x <= BLOCKS,
            permutation@.len() == x,
            forall|v: int| 0 <= v < x ==> #[trigger] permutation@[v] == permute_bits(v as u16),
        decreases BLOCKS - x,
    {
        permutation.push(permute(x as u16));
        x += 1;
    }
    let mut spermutation: Vec<u16> = Vec::new();
    let mut x: usize = 0;
    while x < BLOCKS
        invariant
            x <= BLOCKS,
            tabulates(permutation@, |v: u16| permute_bits(v)),
            spermutation@.len() == x,
            forall|v: int| 0 <= v < x ==> #[trigger] spermutation@[v] == combined_transform(v as u16),
        decreases BLOCKS - x,
    {
        let substituted = apply_substitution(x as u16, &S_BLOCK);
        spermutation.push(permutation[substituted as usize]);
        x += 1;
    }
    (permutation, spermutation)
}

/// The parity of one block.
pub fn parity_of(x: u16) -> (p: u16)
    ensures
        p == parity(x),
        p <= 1,
{
    let a: u16 = x ^ (x >> 8);
    let b: u16 = a ^ (a >> 4);
    let c: u16 = b ^ (b >> 2);
    let d: u16 = c ^ (c >> 1);
    assert(d & 1 == ((bit(x, 0) + bit(x, 1) + bit(x, 2) + bit(x, 3) + bit(x, 4) + bit(x, 5) + bit(
        x,
        6,
    ) + bit(x, 7) + bit(x, 8) + bit(x, 9) + bit(x, 10) + bit(x, 11) + bit(x, 12) + bit(x, 13)
        + bit(x, 14) + bit(x, 15)) % 2) as u16 && d & 1 <= 1) by (bit_vector)
        requires
            a == x ^ (x >> 8),
            b == a ^ (a >> 4),
            c == b ^ (b >> 2),
            d == c ^ (c >> 1),
    ;
    d & 1
}

/// Builds the parity table.
pub fn precalc_shlop() -> (table: Vec<u16>)
    ensures
        tabulates(table@, |x: u16| parity(x)),
{
    let mut table: Vec<u16> = Vec::new();
    let mut x: usize = 0;
    while x < BLOCKS
        invariant
            x <= BLOCKS,
            table@.len() == x,
            forall|v: int| 0 <= v < x ==> #[trigger] table@[v] == parity(v as u16),
        decreases BLOCKS - x,
    {
        table.push(parity_of(x as u16));
        x += 1;
    }
    table
}

/// The lookup tables of the cipher: built once, read-only afterwards.
pub struct Tables {
    permutation: Vec<u16>,
    spermutation: Vec<u16>,
    parity: Vec<u16>,
}

impl Tables {
    /// Each table holds, for every block, the value of the function that it caches.
    #[verifier::type_invariant]
    pub closed spec fn valid(&self) -> bool {
        &&& tabulates(self.permutation@, |x: u16| permute_bits(x))
        &&& tabulates(self.spermutation@, |x: u16| combined_transform(x))
        &&& tabulates(self.parity@, |x: u16| parity(x))
    }

    /// Builds the three tables.
    pub fn new() -> (tables: Tables)
        ensures
            tables.valid(),
    {
        let (permutation, spermutation) = precalc_perm();
        let parity = precalc_shlop();
        Tables { permutation, spermutation, parity }
    }

    /// The bit permutation of `x`, read from its table.
    pub fn permute_bits(&self, x: u16) -> (y: u16)
        ensures
            y == permute_bits(x),
    {
        proof {
            use_type_invariant(self);
        }
        self.permutation[x as usize]
    }

    /// Substitution followed by permutation of `x`, read from its table.
    pub fn combined_transform(&self, x: u16) -> (y: u16)
        ensures
            y == combined_transform(x),
    {
        proof {
            use_type_invariant(self);
        }
        self.spermutation[x as usize]
    }

    /// The parity of `x`, read from its table.
    pub fn parity(&self, x: u16) -> (p: u16)
        ensures
            p == parity(x),
            p <= 1,
    {
        proof {
            use_type_invariant(self);
            lemma_parity_is_bit(x);
        }
        self.parity[x as usize]
    }
}

/// Parity is linear: the parity of a sum over GF(2) is the sum of the parities.
pub proof fn lemma_parity_linear(a: u16, b: u16)
    ensures
        parity(a ^ b) == parity(a) ^ parity(b),
{
    assert(parity(a ^ b) == parity(a) ^ parity(b)) by (bit_vector);
}

/// A parity is 0 or 1.
pub proof fn lemma_parity_is_bit(x: u16)
    ensures
        parity(x) <= 1,
{
}

/// Substitution, then permutation, of one block.
pub fn spermutation(tables: &Tables, x: u16) -> (y: u16)
    ensures
        y == combined_transform(x),
{
    let substituted = apply_substitution(x, &S_BLOCK);
    tables.permute_bits(substituted)
}

/// Permutation, then inverse substitution, of one block: undoes `spermutation`.
pub fn unspermutation(tables: &Tables, x: u16) -> (y: u16)
    ensures
        y == inverse_transform(x),
        combined_transform(y) == x,
{
    let permuted = tables.permute_bits(x);
    proof {
        lemma_transform_round_trip(x);
    }
    apply_substitution(permuted, &S_INV)
}

} // verus!
