use vstd::prelude::*;
use crate::galois::{digits, field_ok, number, power, PolyWithinGF};
use crate::int_mod::{invertible, is_inverse, IntMod};
use crate::polynomial::{poly_wf, Polynomial};
use crate::qr_errors::{EncodingError, ErrorKind};
use crate::reed_solomon::{message_elements, rs_encode, ReedSolomonEncoder};

verus! {

/// The error-correction levels; detection-only exists for Micro M1 alone.
#[derive(Clone, Copy, Debug, PartialEq, Eq, Structural, PartialOrd, Ord)]
pub enum CorrectionLevels {
    DetectionOnly,
    L,
    M,
    Q,
    H,
}

/// The QR code's field: GF(256) modulo x^8 + x^4 + x^3 + x^2 + 1, with
/// alpha = x.
pub type QrElement = PolyWithinGF<2, 8, 285, 2>;

/// The QR code's field parameters describe a field.
pub proof fn lemma_qr_field()
    ensures
        field_ok::<2, 8, 285>(),
{
    assert forall|x: nat| 0 < x < 2 implies #[trigger] invertible(x, 2) by {
        assert(is_inverse(x, 1, 2));
    }
    reveal_with_fuel(digits, 10);
    reveal_with_fuel(power, 9);
    assert(digits::<2>(285).len() == 9);
    assert(power(2, 8) == 256);
}

/// The parity codewords of one block: the last `ecc` of its systematic
/// Reed-Solomon encoding over the QR field.
pub open spec fn parity_spec(data: Seq<u8>, ecc: nat) -> Seq<u8> {
    Seq::new(
        ecc,
        |i: int| number::<2>(rs_encode(qr_message_elements(data), ecc)[data.len() + i].elem()) as u8,
    )
}

/// A block's data codewords as field elements.
pub open spec fn qr_message_elements(data: Seq<u8>) -> Seq<QrElement> {
    Seq::new(data.len(), |i: int| QrElement { value: data[i] as u32 })
}

/// One block: its data codewords and its error-correction codewords.
#[derive(Clone, Debug)]
pub struct ErrorCorrectionBlock {
    pub data_codeword_count: usize,
    pub error_correction_codeword_count: usize,
    pub data_codewords: Vec<u8>,
    pub ec_codewords: Vec<u8>,
}

impl ErrorCorrectionBlock {
    /// Computes the block's error-correction codewords from its data.
    pub fn generate_error_correction(&mut self)
        requires
            old(self).data_codewords@.len() + old(self).error_correction_codeword_count <= usize::MAX,
        ensures
            final(self).ec_codewords@ == parity_spec(old(self).data_codewords@, old(self).error_correction_codeword_count as nat),
            final(self).data_codewords == old(self).data_codewords,
            final(self).data_codeword_count == old(self).data_codeword_count,
            final(self).error_correction_codeword_count == old(self).error_correction_codeword_count,
    {
        proof {
            lemma_qr_field();
        }
        let rs = ReedSolomonEncoder::<2, 8, 285, 2>::new();
        let k = self.data_codewords.len();
        let ecc = self.error_correction_codeword_count;
        let mut polys: Vec<Polynomial<IntMod<2>>> = Vec::new();
        let mut i: usize = 0;
        while i < k
            invariant
                k == self.data_codewords@.len(),
                i <= k,
                polys@.len() == i,
                forall|t: int| 0 <= t < i ==> (#[trigger] polys@[t])@ == digits::<2>(self.data_codewords@[t] as nat),
                forall|t: int| 0 <= t < i ==> poly_wf((#[trigger] polys@[t])@),
            decreases k - i,
        {
            polys.push(Polynomial::<IntMod<2>>::from_number(self.data_codewords[i] as u32));
            i += 1;
        }
        let ghost msg = polys@;
        let encoded = rs.encode(polys, ecc);
        proof {
            assert(message_elements::<2, 8, 285, 2>(msg) =~= qr_message_elements(self.data_codewords@)) by {
                assert forall|t: int| 0 <= t < k implies message_elements::<2, 8, 285, 2>(msg)[t] == qr_message_elements(self.data_codewords@)[t] by {
                    lemma_byte_element(self.data_codewords@[t]);
                }
            }
        }
        let mut parity: Vec<u8> = Vec::new();
        let mut j: usize = 0;
        while j < ecc
            invariant
                encoded@.len() == k + ecc,
                k + ecc <= usize::MAX,
                forall|t: int| 0 <= t < encoded@.len() ==> poly_wf((#[trigger] encoded@[t])@) && encoded@[t]@.len() <= 8,
                forall|t: int| 0 <= t < encoded@.len() ==> (#[trigger] encoded@[t])@ == rs_encode(qr_message_elements(self.data_codewords@), ecc as nat)[t].elem(),
                k == self.data_codewords@.len(),
                j <= ecc,
                parity@.len() == j,
                forall|t: int| 0 <= t < j ==> #[trigger] parity@[t] == parity_spec(self.data_codewords@, ecc as nat)[t],
            decreases ecc - j,
        {
            proof {
                lemma_codeword_byte(encoded@[k + j]@);
            }
            let value = encoded[k + j].to_number();
            parity.push(value as u8);
            j += 1;
        }
        proof {
            assert(parity@ =~= parity_spec(self.data_codewords@, ecc as nat));
        }
        self.ec_codewords = parity;
    }
}

/// The blocks that a shape describes, as (data, error-correction) counts,
/// in order.
pub open spec fn expand_spec(desc: Seq<(usize, usize, usize)>) -> Seq<(usize, usize)>
    decreases desc.len(),
{
    if desc.len() == 0 {
        Seq::empty()
    } else {
        let d = desc.last();
        expand_spec(desc.drop_last()) + Seq::new(d.2 as nat, |i: int| (d.1, (d.0 - d.1) as usize))
    }
}

/// The sum of the first `k` blocks' data counts.
pub open spec fn data_total(blocks: Seq<ErrorCorrectionBlock>, k: int) -> int
    decreases k,
{
    if k <= 0 {
        0
    } else {
        data_total(blocks, k - 1) + blocks[k - 1].data_codeword_count
    }
}

/// The items in column `c` of the first `b` rows that reach it.
pub open spec fn column(rows: Seq<Seq<u8>>, c: int, b: int) -> Seq<u8>
    decreases b,
{
    if b <= 0 {
        Seq::empty()
    } else if c < rows[b - 1].len() {
        column(rows, c, b - 1).push(rows[b - 1][c])
    } else {
        column(rows, c, b - 1)
    }
}

/// Columns `0..c`, each read across all rows.
pub open spec fn columns(rows: Seq<Seq<u8>>, c: int) -> Seq<u8>
    decreases c,
{
    if c <= 0 {
        Seq::empty()
    } else {
        columns(rows, c - 1) + column(rows, c - 1, rows.len() as int)
    }
}

/// The length of the longest row.
pub open spec fn longest(rows: Seq<Seq<u8>>, b: int) -> int
    decreases b,
{
    if b <= 0 {
        0
    } else if rows[b - 1].len() > longest(rows, b - 1) {
        rows[b - 1].len() as int
    } else {
        longest(rows, b - 1)
    }
}

pub open spec fn data_rows(blocks: Seq<ErrorCorrectionBlock>) -> Seq<Seq<u8>> {
    Seq::new(blocks.len(), |i: int| blocks[i].data_codewords@)
}

pub open spec fn ec_rows(blocks: Seq<ErrorCorrectionBlock>) -> Seq<Seq<u8>> {
    Seq::new(blocks.len(), |i: int| blocks[i].ec_codewords@)
}

/// All data codewords column by column across the blocks, then all
/// error-correction codewords the same way.
pub open spec fn interleave_spec(blocks: Seq<ErrorCorrectionBlock>) -> Seq<u8> {
    let d = data_rows(blocks);
    let e = ec_rows(blocks);
    columns(d, longest(d, d.len() as int)) + columns(e, longest(e, e.len() as int))
}

/// Column-major reading of rows of codewords.
fn read_columns(rows: &Vec<Vec<u8>>) -> (r: Vec<u8>)
    ensures
        r@ == columns(rows@.map_values(|v: Vec<u8>| v@), longest(rows@.map_values(|v: Vec<u8>| v@), rows@.len() as int)),
{
    let ghost vr = rows@.map_values(|v: Vec<u8>| v@);
    let mut max: usize = 0;
    let mut b: usize = 0;
    while b < rows.len()
        invariant
            vr == rows@.map_values(|v: Vec<u8>| v@),
            b <= rows@.len(),
            max == longest(vr, b as int),
        decreases rows@.len() - b,
    {
        if rows[b].len() > max {
            max = rows[b].len();
        }
        b += 1;
    }
    let mut out: Vec<u8> = Vec::new();
    let mut c: usize = 0;
    while c < max
        invariant
            vr == rows@.map_values(|v: Vec<u8>| v@),
            c <= max,
            out@ == columns(vr, c as int),
        decreases max - c,
    {
        let mut k: usize = 0;
        let ghost before = out@;
        while k < rows.len()
            invariant
                vr == rows@.map_values(|v: Vec<u8>| v@),
                k <= rows@.len(),
                c < max,
                before == columns(vr, c as int),
                out@ == before + column(vr, c as int, k as int),
            decreases rows@.len() - k,
        {
            if c < rows[k].len() {
                out.push(rows[k][c]);
                proof {
                    assert(before + column(vr, c as int, k + 1) =~= (before + column(vr, c as int, k as int)).push(rows@[k as int]@[c as int]));
                }
            }
            k += 1;
        }
        c += 1;
    }
    out
}

pub proof fn lemma_data_total_nonneg(blocks: Seq<ErrorCorrectionBlock>, t: int)
    ensures
        data_total(blocks, t) >= 0,
    decreases t,
{
    if t > 0 {
        lemma_data_total_nonneg(blocks, t - 1);
    }
}

pub proof fn lemma_data_total_monotonic(blocks: Seq<ErrorCorrectionBlock>, n: int)
    requires
        0 <= n <= blocks.len(),
    ensures
        forall|t: int| 0 <= t <= n ==> data_total(blocks, t) <= data_total(blocks, n),
    decreases n,
{
    if n > 0 {
        lemma_data_total_monotonic(blocks, n - 1);
    }
}

/// A copy of a byte vector.
fn copy_bytes(v: &Vec<u8>) -> (r: Vec<u8>)
    ensures
        r@ == v@,
{
    let mut r: Vec<u8> = Vec::new();
    let mut i: usize = 0;
    while i < v.len()
        invariant
            i <= v@.len(),
            r@ =~= v@.take(i as int),
        decreases v@.len() - i,
    {
        r.push(v[i]);
        i += 1;
    }
    proof {
        assert(v@.take(v@.len() as int) =~= v@);
    }
    r
}

/// The blocks of a symbol.
pub struct ErrorCorrector {
    pub blocks: Vec<ErrorCorrectionBlock>,
}

impl ErrorCorrector {
    /// Empty blocks for each (total, data, count) descriptor, in order.
    pub fn from(block_descriptors: &Vec<(usize, usize, usize)>) -> (r: Self)
        requires
            forall|i: int| 0 <= i < block_descriptors@.len() ==> (#[trigger] block_descriptors@[i]).0 >= block_descriptors@[i].1,
        ensures
            r.blocks@.len() == expand_spec(block_descriptors@).len(),
            forall|i: int| 0 <= i < r.blocks@.len() ==> (#[trigger] r.blocks@[i]).data_codeword_count == expand_spec(block_descriptors@)[i].0
                && r.blocks@[i].error_correction_codeword_count == expand_spec(block_descriptors@)[i].1
                && r.blocks@[i].data_codewords@.len() == 0 && r.blocks@[i].ec_codewords@.len() == 0,
    {
        let mut blocks: Vec<ErrorCorrectionBlock> = Vec::new();
        let mut d: usize = 0;
        while d < block_descriptors.len()
            invariant
                d <= block_descriptors@.len(),
                forall|i: int| 0 <= i < block_descriptors@.len() ==> (#[trigger] block_descriptors@[i]).0 >= block_descriptors@[i].1,
                blocks@.len() == expand_spec(block_descriptors@.take(d as int)).len(),
                forall|i: int| 0 <= i < blocks@.len() ==> (#[trigger] blocks@[i]).data_codeword_count == expand_spec(block_descriptors@.take(d as int))[i].0
                    && blocks@[i].error_correction_codeword_count == expand_spec(block_descriptors@.take(d as int))[i].1
                    && blocks@[i].data_codewords@.len() == 0 && blocks@[i].ec_codewords@.len() == 0,
            decreases block_descriptors@.len() - d,
        {
            let desc = block_descriptors[d];
            let ghost prev = expand_spec(block_descriptors@.take(d as int));
            proof {
                assert(block_descriptors@.take(d + 1).drop_last() =~= block_descriptors@.take(d as int));
            }
            let mut k: usize = 0;
            while k < desc.2
                invariant
                    desc == block_descriptors@[d as int],
                    desc.0 >= desc.1,
                    k <= desc.2,
                    blocks@.len() == prev.len() + k,
                    forall|i: int| 0 <= i < prev.len() ==> (#[trigger] blocks@[i]).data_codeword_count == prev[i].0
                        && blocks@[i].error_correction_codeword_count == prev[i].1
                        && blocks@[i].data_codewords@.len() == 0 && blocks@[i].ec_codewords@.len() == 0,
                    forall|i: int| prev.len() <= i < blocks@.len() ==> (#[trigger] blocks@[i]).data_codeword_count == desc.1
                        && blocks@[i].error_correction_codeword_count == desc.0 - desc.1
                        && blocks@[i].data_codewords@.len() == 0 && blocks@[i].ec_codewords@.len() == 0,
                decreases desc.2 - k,
            {
                blocks.push(ErrorCorrectionBlock {
                    data_codeword_count: desc.1,
                    error_correction_codeword_count: desc.0 - desc.1,
                    data_codewords: Vec::new(),
                    ec_codewords: Vec::new(),
                });
                k += 1;
            }
            d += 1;
        }
        proof {
            assert(block_descriptors@.take(block_descriptors@.len() as int) =~= block_descriptors@);
        }
        ErrorCorrector { blocks }
    }

    /// Slices the data codewords into the blocks in order; the counts must
    /// add up to the data's length.
    pub fn fill_data_into_blocks(&mut self, data_codewords: Vec<u8>) -> (r: Result<(), EncodingError>)
        ensures
            r is Err <==> data_codewords@.len() != data_total(old(self).blocks@, old(self).blocks@.len() as int),
            r is Err ==> r == Err::<(), EncodingError>(EncodingError { kind: ErrorKind::BlockMismatch }) && *final(self) == *old(self),
            final(self).blocks@.len() == old(self).blocks@.len(),
            r is Ok ==> forall|i: int| 0 <= i < final(self).blocks@.len() ==> (#[trigger] final(self).blocks@[i]).data_codewords@
                == data_codewords@.subrange(data_total(old(self).blocks@, i), data_total(old(self).blocks@, i + 1))
                && final(self).blocks@[i].data_codeword_count == old(self).blocks@[i].data_codeword_count
                && final(self).blocks@[i].error_correction_codeword_count == old(self).blocks@[i].error_correction_codeword_count
                && final(self).blocks@[i].ec_codewords@ == old(self).blocks@[i].ec_codewords@,
    {
        let mut total: u128 = 0;
        let mut b: usize = 0;
        while b < self.blocks.len()
            invariant
                b <= self.blocks@.len(),
                total == data_total(self.blocks@, b as int),
                total <= b * 0xFFFF_FFFF_FFFF_FFFFu128,
            decreases self.blocks@.len() - b,
        {
            total = total + self.blocks[b].data_codeword_count as u128;
            b += 1;
        }
        if total != data_codewords.len() as u128 {
            return Err(EncodingError::new(ErrorKind::BlockMismatch));
        }
        let ghost old_blocks = self.blocks@;
        let len = data_codewords.len();
        let n = self.blocks.len();
        proof {
            lemma_data_total_monotonic(old_blocks, n as int);
        }
        let mut offset: usize = 0;
        let mut i: usize = 0;
        while i < n
            invariant
                n == self.blocks@.len(),
                n == old_blocks.len(),
                len == data_codewords@.len(),
                i <= n,
                offset == data_total(old_blocks, i as int),
                data_total(old_blocks, n as int) == data_codewords@.len(),
                forall|t: int| 0 <= t <= n ==> data_total(old_blocks, t) <= data_total(old_blocks, n as int),
                forall|t: int| 0 <= t < i ==> (#[trigger] self.blocks@[t]).data_codewords@
                    == data_codewords@.subrange(data_total(old_blocks, t), data_total(old_blocks, t + 1))
                    && self.blocks@[t].data_codeword_count == old_blocks[t].data_codeword_count
                    && self.blocks@[t].error_correction_codeword_count == old_blocks[t].error_correction_codeword_count
                    && self.blocks@[t].ec_codewords@ == old_blocks[t].ec_codewords@,
                forall|t: int| i <= t < n ==> #[trigger] self.blocks@[t] == old_blocks[t],
            decreases n - i,
        {
            let count = self.blocks[i].data_codeword_count;
            let mut slice: Vec<u8> = Vec::new();
            let mut k: usize = 0;
            proof {
                assert(data_total(old_blocks, i + 1) <= data_total(old_blocks, n as int));
            }
            while k < count
                invariant
                    count == old_blocks[i as int].data_codeword_count,
                    len == data_codewords@.len(),
                    offset + count <= len,
                    k <= count,
                    slice@ =~= data_codewords@.subrange(offset as int, offset + k),
                decreases count - k,
            {
                slice.push(data_codewords[offset + k]);
                k += 1;
            }
            let block = ErrorCorrectionBlock {
                data_codeword_count: count,
                error_correction_codeword_count: self.blocks[i].error_correction_codeword_count,
                data_codewords: slice,
                ec_codewords: copy_bytes(&self.blocks[i].ec_codewords),
            };
            self.blocks.set(i, block);
            offset = offset + count;
            i += 1;
        }
        Ok(())
    }

    /// Computes every block's error-correction codewords.
    pub fn generate_error_correction(&mut self)
        requires
            forall|i: int| 0 <= i < old(self).blocks@.len() ==> (#[trigger] old(self).blocks@[i]).data_codewords@.len()
                + old(self).blocks@[i].error_correction_codeword_count <= usize::MAX,
        ensures
            final(self).blocks@.len() == old(self).blocks@.len(),
            forall|i: int| 0 <= i < final(self).blocks@.len() ==> (#[trigger] final(self).blocks@[i]).ec_codewords@
                == parity_spec(old(self).blocks@[i].data_codewords@, old(self).blocks@[i].error_correction_codeword_count as nat)
                && final(self).blocks@[i].data_codewords@ == old(self).blocks@[i].data_codewords@
                && final(self).blocks@[i].data_codeword_count == old(self).blocks@[i].data_codeword_count
                && final(self).blocks@[i].error_correction_codeword_count == old(self).blocks@[i].error_correction_codeword_count,
    {
        let ghost old_blocks = self.blocks@;
        let n = self.blocks.len();
        let mut i: usize = 0;
        while i < n
            invariant
                n == self.blocks@.len(),
                n == old_blocks.len(),
                i <= n,
                forall|t: int| 0 <= t < n ==> (#[trigger] old_blocks[t]).data_codewords@.len() + old_blocks[t].error_correction_codeword_count <= usize::MAX,
                forall|t: int| 0 <= t < i ==> (#[trigger] self.blocks@[t]).ec_codewords@
                    == parity_spec(old_blocks[t].data_codewords@, old_blocks[t].error_correction_codeword_count as nat)
                    && self.blocks@[t].data_codewords@ == old_blocks[t].data_codewords@
                    && self.blocks@[t].data_codeword_count == old_blocks[t].data_codeword_count
                    && self.blocks@[t].error_correction_codeword_count == old_blocks[t].error_correction_codeword_count,
                forall|t: int| i <= t < n ==> #[trigger] self.blocks@[t] == old_blocks[t],
            decreases n - i,
        {
            let mut block = ErrorCorrectionBlock {
                data_codeword_count: self.blocks[i].data_codeword_count,
                error_correction_codeword_count: self.blocks[i].error_correction_codeword_count,
                data_codewords: copy_bytes(&self.blocks[i].data_codewords),
                ec_codewords: Vec::new(),
            };
            block.generate_error_correction();
            self.blocks.set(i, block);
            i += 1;
        }
    }

    /// The codewords in transmission order.
    pub fn interleave(&self) -> (r: BlockInterleaver)
        ensures
            r.sequence@ == interleave_spec(self.blocks@),
            r.position == 0,
    {
        BlockInterleaver::new(self)
    }
}

/// Hands out the interleaved codewords one at a time.
pub struct BlockInterleaver {
    pub sequence: Vec<u8>,
    pub position: usize,
}

impl BlockInterleaver {
    /// Interleaves the blocks: data codewords column by column, then
    /// error-correction codewords column by column.
    pub fn new(corrected_blocks: &ErrorCorrector) -> (r: Self)
        ensures
            r.sequence@ == interleave_spec(corrected_blocks.blocks@),
            r.position == 0,
    {
        let blocks = &corrected_blocks.blocks;
        let mut data: Vec<Vec<u8>> = Vec::new();
        let mut ec: Vec<Vec<u8>> = Vec::new();
        let mut i: usize = 0;
        while i < blocks.len()
            invariant
                i <= blocks@.len(),
                data@.len() == i,
                ec@.len() == i,
                forall|t: int| 0 <= t < i ==> (#[trigger] data@[t])@ == blocks@[t].data_codewords@,
                forall|t: int| 0 <= t < i ==> (#[trigger] ec@[t])@ == blocks@[t].ec_codewords@,
            decreases blocks@.len() - i,
        {
            data.push(copy_bytes(&blocks[i].data_codewords));
            ec.push(copy_bytes(&blocks[i].ec_codewords));
            i += 1;
        }
        proof {
            assert(data@.map_values(|v: Vec<u8>| v@) =~= data_rows(blocks@));
            assert(ec@.map_values(|v: Vec<u8>| v@) =~= ec_rows(blocks@));
        }
        let mut sequence = read_columns(&data);
        let mut tail = read_columns(&ec);
        sequence.append(&mut tail);
        BlockInterleaver { sequence, position: 0 }
    }

    /// The next codeword, if any is left.
    pub fn next(&mut self) -> (r: Option<u8>)
        ensures
            old(self).position < old(self).sequence@.len() ==> r == Some(old(self).sequence@[old(self).position as int])
                && final(self).position == old(self).position + 1,
            old(self).position >= old(self).sequence@.len() ==> r is None && final(self).position == old(self).position,
            final(self).sequence == old(self).sequence,
    {
        if self.position < self.sequence.len() {
            let b = self.sequence[self.position];
            self.position = self.position + 1;
            Some(b)
        } else {
            None
        }
    }

    /// The codewords not yet handed out.
    pub fn collect(self) -> (r: Vec<u8>)
        ensures
            r@ == self.sequence@.subrange(
                if self.position < self.sequence@.len() { self.position as int } else { self.sequence@.len() as int },
                self.sequence@.len() as int,
            ),
    {
        let mut r: Vec<u8> = Vec::new();
        let mut i: usize = self.position;
        if i > self.sequence.len() {
            i = self.sequence.len();
        }
        let start = i;
        while i < self.sequence.len()
            invariant
                start <= i <= self.sequence@.len(),
                r@ =~= self.sequence@.subrange(start as int, i as int),
            decreases self.sequence@.len() - i,
        {
            r.push(self.sequence[i]);
            i += 1;
        }
        r
    }
}

proof fn lemma_run_total(blocks: Seq<ErrorCorrectionBlock>, a: int, c: int, x: int)
    requires
        0 <= a,
        0 <= c,
        a + c <= blocks.len(),
        forall|i: int| a <= i < a + c ==> (#[trigger] blocks[i]).data_codeword_count == x,
    ensures
        data_total(blocks, a + c) == data_total(blocks, a) + c * x,
    decreases c,
{
    if c > 0 {
        lemma_run_total(blocks, a, c - 1, x);
        assert(data_total(blocks, a + c) == data_total(blocks, a + c - 1) + blocks[a + c - 1].data_codeword_count);
        assert(blocks[a + c - 1].data_codeword_count == x);
        assert((c - 1) * x + x == c * x) by (nonlinear_arith);
    } else {
        assert(c * x == 0) by (nonlinear_arith)
            requires c == 0;
    }
}

/// Blocks laid out after a shape hold the shape's data total.
pub proof fn lemma_expand_total(desc: Seq<(usize, usize, usize)>, blocks: Seq<ErrorCorrectionBlock>)
    requires
        blocks.len() >= expand_spec(desc).len(),
        forall|i: int| 0 <= i < expand_spec(desc).len() ==> (#[trigger] blocks[i]).data_codeword_count == expand_spec(desc)[i].0,
    ensures
        data_total(blocks, expand_spec(desc).len() as int) == crate::sizer::shape_data_total(desc),
    decreases desc.len(),
{
    if desc.len() > 0 {
        let dl = desc.drop_last();
        let d = desc.last();
        let e = expand_spec(dl);
        assert(expand_spec(desc) == e + Seq::new(d.2 as nat, |i: int| (d.1, (d.0 - d.1) as usize)));
        assert forall|i: int| 0 <= i < e.len() implies (#[trigger] blocks[i]).data_codeword_count == e[i].0 by {
            assert(expand_spec(desc)[i] == e[i]);
        }
        lemma_expand_total(dl, blocks);
        assert forall|i: int| e.len() <= i < e.len() + d.2 implies (#[trigger] blocks[i]).data_codeword_count == d.1 by {
            assert(expand_spec(desc)[i] == (d.1, (d.0 - d.1) as usize));
        }
        lemma_run_total(blocks, e.len() as int, d.2 as int, d.1 as int);
    }
}

/// The blocks of a shape have counts no larger than its largest total.
pub proof fn lemma_expand_bounds(desc: Seq<(usize, usize, usize)>, bound: int)
    requires
        forall|i: int| 0 <= i < desc.len() ==> (#[trigger] desc[i]).0 <= bound && desc[i].1 <= desc[i].0,
    ensures
        forall|i: int| 0 <= i < expand_spec(desc).len() ==> (#[trigger] expand_spec(desc)[i]).0 <= bound
            && expand_spec(desc)[i].1 <= bound,
    decreases desc.len(),
{
    if desc.len() > 0 {
        let dl = desc.drop_last();
        let d = desc.last();
        assert forall|i: int| 0 <= i < dl.len() implies (#[trigger] dl[i]).0 <= bound && dl[i].1 <= dl[i].0 by {
            assert(dl[i] == desc[i]);
        }
        lemma_expand_bounds(dl, bound);
        let e = expand_spec(dl);
        assert(d == desc[desc.len() - 1]);
        assert forall|i: int| 0 <= i < expand_spec(desc).len() implies (#[trigger] expand_spec(desc)[i]).0 <= bound
            && expand_spec(desc)[i].1 <= bound by {
            if i < e.len() {
                assert(expand_spec(desc)[i] == e[i]);
            }
        }
    }
}

/// The data codewords of the first `i` blocks of a layout of
/// (data, error-correction) counts.
pub open spec fn layout_total(layout: Seq<(usize, usize)>, i: int) -> int
    decreases i,
{
    if i <= 0 {
        0
    } else {
        layout_total(layout, i - 1) + layout[i - 1].0
    }
}

/// The transmitted codewords: the data sliced into the layout's blocks,
/// each block's parity computed, data then parity interleaved column by
/// column.
pub open spec fn transmission(data: Seq<u8>, layout: Seq<(usize, usize)>) -> Seq<u8> {
    let d = Seq::new(layout.len(), |i: int| data.subrange(layout_total(layout, i), layout_total(layout, i + 1)));
    let e = Seq::new(layout.len(), |i: int| parity_spec(d[i], layout[i].1 as nat));
    columns(d, longest(d, d.len() as int)) + columns(e, longest(e, e.len() as int))
}

pub proof fn lemma_layout_total(blocks: Seq<ErrorCorrectionBlock>, layout: Seq<(usize, usize)>, i: int)
    requires
        0 <= i <= layout.len(),
        layout.len() <= blocks.len(),
        forall|k: int| 0 <= k < layout.len() ==> (#[trigger] blocks[k]).data_codeword_count == layout[k].0,
    ensures
        data_total(blocks, i) == layout_total(layout, i),
    decreases i,
{
    if i > 0 {
        lemma_layout_total(blocks, layout, i - 1);
    }
}

/// A byte, read as a polynomial over F_2 and reduced, is the element
/// holding that byte.
proof fn lemma_byte_element(b: u8)
    ensures
        PolyWithinGF::<2, 8, 285, 2>::of(crate::galois::canonicalise::<2, 285>(digits::<2>(b as nat))) == (QrElement { value: b as u32 }),
{
    lemma_qr_field();
    reveal_with_fuel(power, 9);
    assert(power(2, 8) == 256);
    crate::galois::lemma_short_canonical::<2, 8, 285, 2>(b as nat);
}

/// A QR codeword's polynomial is the number of a byte.
proof fn lemma_codeword_byte(s: Seq<IntMod<2>>)
    requires
        poly_wf(s),
        s.len() <= 8,
    ensures
        number::<2>(s) < 256,
{
    crate::galois::lemma_number_bound::<2>(s, 8);
    reveal_with_fuel(power, 9);
}

} // verus!
