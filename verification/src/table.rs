//! Probabilities as fixed-point numbers, sparse rows of them, and the probability table of
//! the cipher's round function: for each input mask or difference, the probability of each
//! output mask or difference.

use crate::spn::BLOCKS;
use crate::sums::sum_to;
use vstd::prelude::*;

verus! {

/// The probability 1. A probability is a fixed-point number of 62 fractional bits: the integer
/// `p` stands for `p / ONE`.
pub const ONE: u64 = 0x4000_0000_0000_0000;

/// The product of two probabilities, rounded down to the next fixed-point number.
pub open spec fn prob_mul(p: u64, q: u64) -> u64 {
    ((p as int * q as int) / ONE as int) as u64
}

/// A sum of probabilities, cut off at 1.
pub open spec fn clamp(sum: int) -> u64 {
    if sum >= ONE {
        ONE
    } else if sum <= 0 {
        0
    } else {
        sum as u64
    }
}

/// The product of two probabilities is a probability, no larger than either, and positive only
/// where both are.
pub proof fn lemma_prob_mul(p: u64, q: u64)
    requires
        p <= ONE,
        q <= ONE,
    ensures
        p as int * q as int / ONE as int <= p,
        p as int * q as int / ONE as int <= q,
        0 <= p as int * q as int / ONE as int,
        prob_mul(p, q) == p as int * q as int / ONE as int,
        prob_mul(p, q) > 0 ==> p > 0 && q > 0,
        p == ONE ==> prob_mul(p, q) == q,
        q == ONE ==> prob_mul(p, q) == p,
{
    let pq = p as int * q as int;
    let one = ONE as int;
    assert(0 <= pq <= p * one && pq <= one * q) by (nonlinear_arith)
        requires
            pq == p as int * q as int,
            0 <= p <= one,
            0 <= q <= one,
    ;
    assert(p == 0 || q == 0 ==> pq == 0) by (nonlinear_arith)
        requires
            pq == p as int * q as int,
    ;
    assert(p == one ==> pq == one * q) by (nonlinear_arith)
        requires
            pq == p as int * q as int,
    ;
    assert(q == one ==> pq == one * p) by (nonlinear_arith)
        requires
            pq == p as int * q as int,
    ;
}

/// The product of 0 and a probability is 0.
pub proof fn lemma_prob_mul_zero(q: u64)
    ensures
        prob_mul(0, q) == 0,
        prob_mul(q, 0) == 0,
{
    assert(0 * q as int == 0 && q as int * 0 == 0) by (nonlinear_arith);
}

/// Multiplies two probabilities.
pub fn multiply(p: u64, q: u64) -> (r: u64)
    requires
        p <= ONE,
        q <= ONE,
    ensures
        r == prob_mul(p, q),
        r <= p,
        r <= q,
{
    proof {
        lemma_prob_mul(p, q);
        assert(p as int * q as int <= 0x4000_0000_0000_0000 * 0x4000_0000_0000_0000)
            by (nonlinear_arith)
            requires
                p <= 0x4000_0000_0000_0000,
                q <= 0x4000_0000_0000_0000,
        ;
    }
    let wide: u128 = (p as u128) * (q as u128);
    (wide / (ONE as u128)) as u64
}

/// Adds a probability to a sum of probabilities that was cut off at 1, and cuts off again.
pub fn add_clamped(sum: u64, p: u64) -> (r: u64)
    requires
        sum <= ONE,
        p <= ONE,
    ensures
        r == clamp(sum + p),
        r <= ONE,
{
    if p >= ONE - sum {
        ONE
    } else {
        sum + p
    }
}

/// One entry of a sparse row: an output mask or difference, and its probability.
#[derive(Clone, Copy, Debug, PartialEq, Eq, Structural)]
pub struct Entry {
    pub mask: u16,
    pub prob: u64,
}

/// A sparse row: its masks ascend strictly, and each entry holds a probability above 0.
pub open spec fn is_row(row: Seq<Entry>) -> bool {
    &&& forall|i: int, j: int| 0 <= i < j < row.len() ==> row[i].mask < row[j].mask
    &&& forall|i: int| 0 <= i < row.len() ==> 0 < #[trigger] row[i].prob <= ONE
}

/// Whether the row has an entry for `mask`.
pub open spec fn row_has(row: Seq<Entry>, mask: u16) -> bool {
    exists|j: int| 0 <= j < row.len() && #[trigger] row[j].mask == mask
}

/// The probability that the row holds for `mask`: 0 where it has no entry.
pub open spec fn row_prob(row: Seq<Entry>, mask: u16) -> u64 {
    if row_has(row, mask) {
        row[choose|j: int| 0 <= j < row.len() && #[trigger] row[j].mask == mask].prob
    } else {
        0
    }
}

/// The row is the sparse form of `dense`: it holds exactly the probabilities of `dense` that
/// are above 0.
pub open spec fn is_sparse_form(row: Seq<Entry>, dense: spec_fn(u16) -> u64) -> bool {
    &&& is_row(row)
    &&& forall|mask: u16| #[trigger] row_prob(row, mask) == dense(mask)
}

/// The entry at a position of a row is what the row holds for its mask.
pub proof fn lemma_row_prob_at(row: Seq<Entry>, j: int)
    requires
        is_row(row),
        0 <= j < row.len(),
    ensures
        row_has(row, row[j].mask),
        row_prob(row, row[j].mask) == row[j].prob,
{
    let mask = row[j].mask;
    let c = choose|c: int| 0 <= c < row.len() && #[trigger] row[c].mask == mask;
    if c < j {
        assert(row[c].mask < row[j].mask);
    } else if j < c {
        assert(row[j].mask < row[c].mask);
    }
}

/// A row extended by an entry whose mask is above all of its masks holds that entry too, and
/// for every other mask what it held before.
pub proof fn lemma_row_push(row: Seq<Entry>, entry: Entry)
    requires
        is_row(row),
        0 < entry.prob <= ONE,
        forall|j: int| 0 <= j < row.len() ==> #[trigger] row[j].mask < entry.mask,
    ensures
        is_row(row.push(entry)),
        forall|mask: u16| #[trigger]
            row_prob(row.push(entry), mask) == if mask == entry.mask {
                entry.prob
            } else {
                row_prob(row, mask)
            },
{
    let longer = row.push(entry);
    assert(is_row(longer));
    assert forall|mask: u16| #[trigger]
        row_prob(longer, mask) == if mask == entry.mask {
            entry.prob
        } else {
            row_prob(row, mask)
        } by {
        if mask == entry.mask {
            lemma_row_prob_at(longer, row.len() as int);
        } else if row_has(row, mask) {
            let j = choose|j: int| 0 <= j < row.len() && #[trigger] row[j].mask == mask;
            assert(longer[j].mask == mask);
            lemma_row_prob_at(longer, j);
            lemma_row_prob_at(row, j);
        } else {
            if row_has(longer, mask) {
                let j = choose|j: int| 0 <= j < longer.len() && #[trigger] longer[j].mask == mask;
                assert(row[j].mask == mask);
            }
        }
    }
}

/// A row has no entry for a mask above its last one.
proof fn lemma_row_above_last(row: Seq<Entry>, mask: u16)
    requires
        is_row(row),
        row.len() > 0 ==> row[row.len() - 1].mask < mask,
    ensures
        !row_has(row, mask),
        row_prob(row, mask) == 0,
{
    if row_has(row, mask) {
        let j = choose|j: int| 0 <= j < row.len() && #[trigger] row[j].mask == mask;
        if j < row.len() - 1 {
            assert(row[j].mask < row[row.len() - 1].mask);
        }
    }
}

/// Two rows that hold the same probability for every mask are the same row.
pub proof fn lemma_row_unique(a: Seq<Entry>, b: Seq<Entry>)
    requires
        is_row(a),
        is_row(b),
        forall|mask: u16| #[trigger] row_prob(a, mask) == row_prob(b, mask),
    ensures
        a == b,
    decreases a.len() + b.len(),
{
    if a.len() == 0 && b.len() == 0 {
        assert(a =~= b);
    } else if a.len() == 0 {
        lemma_row_prob_at(b, 0);
        assert(!row_has(a, b[0].mask));
        assert(row_prob(a, b[0].mask) == 0);
        assert(false);
    } else if b.len() == 0 {
        lemma_row_prob_at(a, 0);
        assert(!row_has(b, a[0].mask));
        assert(row_prob(b, a[0].mask) == 0);
        assert(false);
    } else {
        let la = a.len() - 1;
        let lb = b.len() - 1;
        lemma_row_prob_at(a, la);
        lemma_row_prob_at(b, lb);
        if a[la].mask < b[lb].mask {
            lemma_row_above_last(a, b[lb].mask);
            assert(row_prob(a, b[lb].mask) == row_prob(b, b[lb].mask));
            assert(false);
        } else if b[lb].mask < a[la].mask {
            lemma_row_above_last(b, a[la].mask);
            assert(row_prob(a, a[la].mask) == row_prob(b, a[la].mask));
            assert(false);
        } else {
            let top = a[la].mask;
            let a0 = a.drop_last();
            let b0 = b.drop_last();
            assert(a =~= a0.push(a[la]));
            assert(b =~= b0.push(b[lb]));
            assert(is_row(a0));
            assert(is_row(b0));
            lemma_row_push(a0, a[la]);
            lemma_row_push(b0, b[lb]);
            assert forall|mask: u16| #[trigger] row_prob(a0, mask) == row_prob(b0, mask) by {
                if mask == top {
                    lemma_row_above_last(a0, top);
                    lemma_row_above_last(b0, top);
                } else {
                    assert(row_prob(a0.push(a[la]), mask) == row_prob(a0, mask));
                    assert(row_prob(b0.push(b[lb]), mask) == row_prob(b0, mask));
                    assert(row_prob(a, mask) == row_prob(b, mask));
                }
            }
            lemma_row_unique(a0, b0);
            assert(row_prob(a, top) == row_prob(b, top));
            assert(a[la].prob == b[lb].prob);
            assert(a[la] == b[lb]);
            assert(a =~= b);
        }
    }
}

/// A dense vector has one sparse form: whatever computes the sparse form of the same
/// probabilities computes the same row, entry for entry.
pub proof fn lemma_sparse_form_unique(a: Seq<Entry>, b: Seq<Entry>, dense: spec_fn(u16) -> u64)
    requires
        is_sparse_form(a, dense),
        is_sparse_form(b, dense),
    ensures
        a == b,
{
    lemma_row_unique(a, b);
}

/// The sum of the probabilities that a row holds.
pub open spec fn row_sum(row: Seq<Entry>) -> int
    decreases row.len(),
{
    if row.len() == 0 {
        0
    } else {
        row_sum(row.drop_last()) + row.last().prob
    }
}

/// The entries of a dense vector, as a function of the place.
pub open spec fn dense_fn(dense: Seq<u64>) -> spec_fn(int) -> int {
    |i: int| dense[i] as int
}

/// The sparse form of a dense vector of probabilities, one for each mask. Its sum is the sum of
/// the dense vector.
pub fn compact(dense: &Vec<u64>) -> (row: Vec<Entry>)
    requires
        dense@.len() == BLOCKS,
        forall|m: int| 0 <= m < BLOCKS ==> #[trigger] dense@[m] <= ONE,
    ensures
        is_sparse_form(row@, |mask: u16| dense@[mask as int]),
        row_sum(row@) == sum_to(dense_fn(dense@), BLOCKS as int),
{
    let mut row: Vec<Entry> = Vec::new();
    let mut m: usize = 0;
    while m < BLOCKS
        invariant
            m <= BLOCKS,
            dense@.len() == BLOCKS,
            forall|m: int| 0 <= m < BLOCKS ==> #[trigger] dense@[m] <= ONE,
            is_row(row@),
            forall|j: int| 0 <= j < row@.len() ==> #[trigger] row@[j].mask < m,
            forall|mask: u16| #[trigger]
                row_prob(row@, mask) == if mask < m {
                    dense@[mask as int]
                } else {
                    0
                },
            row_sum(row@) == sum_to(dense_fn(dense@), m as int),
        decreases BLOCKS - m,
    {
        let prob = dense[m];
        if prob > 0 {
            let entry = Entry { mask: m as u16, prob };
            proof {
                lemma_row_push(row@, entry);
                assert(row@.push(entry).drop_last() =~= row@);
            }
            row.push(entry);
        }
        m += 1;
    }
    row
}

/// A table: one row for each of the 65536 input masks or differences.
pub open spec fn is_table(rows: Seq<Seq<Entry>>) -> bool {
    &&& rows.len() == BLOCKS
    &&& forall|alpha: int| 0 <= alpha < BLOCKS ==> is_row(#[trigger] rows[alpha])
}

/// The probability that the table holds for the pair of `alpha` and `beta`.
pub open spec fn table_prob(rows: Seq<Seq<Entry>>, alpha: u16, beta: u16) -> u64 {
    row_prob(rows[alpha as int], beta)
}

/// The rows of a vector of rows.
pub open spec fn rows_view(rows: Seq<Vec<Entry>>) -> Seq<Seq<Entry>> {
    Seq::new(rows.len(), |alpha: int| rows[alpha]@)
}

/// The probability table of one round: for each input mask or difference the sparse row of
/// the output masks or differences that follow it with a probability above 0.
pub struct ProbabilityTable {
    rows: Vec<Vec<Entry>>,
}

impl ProbabilityTable {
    #[verifier::type_invariant]
    pub closed spec fn valid(&self) -> bool {
        is_table(rows_view(self.rows@))
    }

    /// The rows of the table, by input mask or difference.
    pub closed spec fn view(&self) -> Seq<Seq<Entry>> {
        rows_view(self.rows@)
    }

    /// Takes the rows as a table where they form one: 65536 rows, each with strictly ascending
    /// masks and probabilities above 0 and at most 1.
    pub fn from_rows(rows: Vec<Vec<Entry>>) -> (table: Option<ProbabilityTable>)
        ensures
            table.is_some() == is_table(rows_view(rows@)),
            table.is_some() ==> table.unwrap()@ == rows_view(rows@),
    {
        if rows.len() != BLOCKS {
            return None;
        }
        let mut alpha: usize = 0;
        while alpha < BLOCKS
            invariant
                alpha <= BLOCKS,
                rows@.len() == BLOCKS,
                forall|a: int| 0 <= a < alpha ==> is_row(#[trigger] rows_view(rows@)[a]),
            decreases BLOCKS - alpha,
        {
            if !check_row(&rows[alpha]) {
                assert(!is_row(rows_view(rows@)[alpha as int]));
                return None;
            }
            assert(is_row(rows_view(rows@)[alpha as int]));
            alpha += 1;
        }
        Some(ProbabilityTable { rows })
    }

    /// Takes rows that form a table.
    pub(crate) fn from_valid_rows(rows: Vec<Vec<Entry>>) -> (table: ProbabilityTable)
        requires
            is_table(rows_view(rows@)),
        ensures
            table@ == rows_view(rows@),
    {
        ProbabilityTable { rows }
    }

    /// The row of one input mask or difference.
    pub fn row(&self, alpha: u16) -> (row: &Vec<Entry>)
        ensures
            row@ == self@[alpha as int],
            is_row(row@),
            is_table(self@),
    {
        proof {
            use_type_invariant(self);
            assert(is_row(rows_view(self.rows@)[alpha as int]));
        }
        &self.rows[alpha as usize]
    }

    /// Hands out the rows.
    pub fn into_rows(self) -> (rows: Vec<Vec<Entry>>)
        ensures
            rows_view(rows@) == self@,
            is_table(self@),
    {
        proof {
            use_type_invariant(&self);
        }
        self.rows
    }
}

/// Whether the entries form a row.
pub fn check_row(row: &Vec<Entry>) -> (ok: bool)
    ensures
        ok == is_row(row@),
{
    let mut j: usize = 0;
    while j < row.len()
        invariant
            j <= row@.len(),
            is_row(row@.take(j as int)),
        decreases row@.len() - j,
    {
        let entry = row[j];
        if entry.prob == 0 || entry.prob > ONE {
            return false;
        }
        if j > 0 && row[j - 1].mask >= entry.mask {
            assert(!(row@[j - 1].mask < row@[j as int].mask));
            return false;
        }
        proof {
            let before = row@.take(j as int);
            let now = row@.take(j + 1);
            assert forall|a: int, b: int| 0 <= a < b < now.len() implies now[a].mask < now[b].mask by {
                if b < j {
                    assert(before[a].mask < before[b].mask);
                } else if a < j - 1 {
                    assert(before[a].mask < before[j - 1].mask);
                }
            }
        }
        j += 1;
    }
    assert(row@.take(j as int) =~= row@);
    true
}

/// All 65536 masks, in ascending order.
pub fn all_masks() -> (masks: Vec<u16>)
    ensures
        masks@.len() == BLOCKS,
        forall|m: int| 0 <= m < BLOCKS ==> #[trigger] masks@[m] == m,
{
    let mut masks: Vec<u16> = Vec::new();
    let mut m: usize = 0;
    while m < BLOCKS
        invariant
            m <= BLOCKS,
            masks@.len() == m,
            forall|i: int| 0 <= i < m ==> #[trigger] masks@[i] == i,
        decreases BLOCKS - m,
    {
        masks.push(m as u16);
        m += 1;
    }
    masks
}

} // verus!
