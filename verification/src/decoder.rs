//! Reading packed values back.
use core::ops::Deref;

use bytes::Bytes;
use vstd::arithmetic::div_mod::{lemma_fundamental_div_mod, lemma_fundamental_div_mod_converse};
use vstd::prelude::*;

use arrow::util::bit_util::ceil;

use crate::array::value_bit;
use crate::bits::{bit, byte_bit, copied, copy_bits, lemma_zero_bits, min_int};
use crate::block::{DataBlock, Error, FixedWidthDataBlock, LanceBuffer};
use crate::outside::bytes_contents;

verus! {

/// Where in a buffer to start reading.
#[derive(Debug, PartialEq)]
pub struct BufferStartOffset {
    pub index: usize,
    pub bit_offset: u8,
}

/// How much of a buffer to skip.
#[derive(Debug, PartialEq)]
pub enum StartOffset {
    /// Skip the full buffer. The value is how many rows are skipped by skipping
    /// the full buffer (e.g., # rows in buffer).
    SkipFull(u64),
    /// Skip to some start offset in the buffer.
    SkipSome(BufferStartOffset),
}

/// The bit of a buffer at which its values end: the end of the buffer, or, where
/// an offset is given, that bit of its last byte.
pub open spec fn end_of_values(buffer_len: int, buffer_end_bit_offset: Option<u8>) -> int {
    match buffer_end_bit_offset {
        Some(offset) => 8 * buffer_len - (8 - offset),
        None => 8 * buffer_len,
    }
}

/// Whether the offsets of a buffer lie within it, in order.
pub open spec fn offsets_ok(
    buffer_len: int,
    buffer_start_bit_offset: u8,
    buffer_end_bit_offset: Option<u8>,
) -> bool {
    &&& 8 * buffer_len <= usize::MAX
    &&& buffer_end_bit_offset matches Some(offset) ==> offset <= 8
    &&& buffer_start_bit_offset <= end_of_values(buffer_len, buffer_end_bit_offset)
}

/// The number of complete rows between the offsets of a buffer.
pub open spec fn rows_between(
    buffer_len: int,
    bits_per_value: int,
    buffer_start_bit_offset: u8,
    buffer_end_bit_offset: Option<u8>,
) -> int {
    (end_of_values(buffer_len, buffer_end_bit_offset) - buffer_start_bit_offset) / bits_per_value
}

/// Calculates the number of rows in a buffer.
pub fn rows_in_buffer(
    buffer_len: usize,
    bits_per_value: u64,
    buffer_start_bit_offset: u8,
    buffer_end_bit_offset: Option<u8>,
) -> (r: u64)
    requires
        bits_per_value > 0,
        offsets_ok(buffer_len as int, buffer_start_bit_offset, buffer_end_bit_offset),
    ensures
        r == rows_between(
            buffer_len as int,
            bits_per_value as int,
            buffer_start_bit_offset,
            buffer_end_bit_offset,
        ),
{
    let mut bits_in_buffer: u64 = (buffer_len * 8) as u64 - buffer_start_bit_offset as u64;
    // if the end of the last value of the buffer isn't byte aligned, subtract the
    // end offset from the total number of bits in buffer
    if let Some(buffer_end_bit_offset) = buffer_end_bit_offset {
        bits_in_buffer = bits_in_buffer - (8 - buffer_end_bit_offset) as u64;
    }
    bits_in_buffer / bits_per_value
}

/// Computes how far ahead in this buffer should we skip ahead and start reading.
///
/// * `rows_to_skip` - how many rows to skip
/// * `buffer_len` - length of the buffer (in bytes)
/// * `bits_per_value` - number of bits used to represent a single bitpacked value
/// * `buffer_start_bit_offset` - offset of the start of the first value within the
///     buffer's first byte
/// * `buffer_end_bit_offset` - end bit of the last value within the buffer. Can be
///     `None` if the end of the last value is byte aligned with end of buffer.
pub fn compute_start_offset(
    rows_to_skip: u64,
    buffer_len: usize,
    bits_per_value: u64,
    buffer_start_bit_offset: u8,
    buffer_end_bit_offset: Option<u8>,
) -> (r: StartOffset)
    requires
        bits_per_value > 0,
        offsets_ok(buffer_len as int, buffer_start_bit_offset, buffer_end_bit_offset),
    ensures
        ({
            let rows = rows_between(
                buffer_len as int,
                bits_per_value as int,
                buffer_start_bit_offset,
                buffer_end_bit_offset,
            );
            let start_bit = rows_to_skip * bits_per_value + buffer_start_bit_offset;
            match r {
                StartOffset::SkipFull(skipped) => rows_to_skip >= rows && skipped == rows,
                StartOffset::SkipSome(start) => {
                    &&& rows_to_skip < rows
                    &&& start.index == start_bit / 8
                    &&& start.bit_offset == start_bit % 8
                },
            }
        }),
{
    let rows_in_buffer: u64 = rows_in_buffer(
        buffer_len,
        bits_per_value,
        buffer_start_bit_offset,
        buffer_end_bit_offset,
    );
    if rows_to_skip >= rows_in_buffer {
        return StartOffset::SkipFull(rows_in_buffer);
    }
    proof {
        let bits = end_of_values(buffer_len as int, buffer_end_bit_offset)
            - buffer_start_bit_offset;
        lemma_fundamental_div_mod(bits, bits_per_value as int);
        assert(rows_to_skip * bits_per_value <= bits) by (nonlinear_arith)
            requires
                bits == bits_per_value * rows_in_buffer + bits % bits_per_value as int,
                0 <= bits % bits_per_value as int,
                rows_to_skip < rows_in_buffer,
                bits_per_value > 0,
        ;
    }
    let start_bit: u64 = rows_to_skip * bits_per_value + buffer_start_bit_offset as u64;
    let start_byte: u64 = start_bit / 8;
    StartOffset::SkipSome(
        BufferStartOffset { index: start_byte as usize, bit_offset: (start_bit % 8) as u8 },
    )
}

/// Whether the sign bit of a packed value, its highest bit, is set.
pub fn is_encoded_item_negative(
    src: &Bytes,
    src_idx: usize,
    src_offset: u64,
    num_bits: usize,
) -> (r: bool)
    requires
        src_offset + num_bits <= usize::MAX,
        1 <= 8 * src_idx + src_offset + num_bits <= 8 * bytes_contents(*src).len(),
    ensures
        r == bit(bytes_contents(*src), 8 * src_idx + src_offset + num_bits - 1),
{
    let bytes: &[u8] = src.deref();
    assert(bytes@.len() == bytes.len());
    let end: usize = src_offset as usize + num_bits;
    let mut last_byte_idx: usize = src_idx + end / 8;
    let mut shift_amount: usize = end % 8;
    if shift_amount == 0 {
        last_byte_idx = last_byte_idx - 1;
        shift_amount = 7;
    } else {
        shift_amount = shift_amount - 1;
    }
    let last_byte: u8 = bytes[last_byte_idx];
    let sign_bit_mask: u8 = 1u8 << shift_amount;
    let sign_bit: u8 = last_byte & sign_bit_mask;
    proof {
        let k = shift_amount as u8;
        assert((last_byte & (1u8 << k) > 0) == ((last_byte >> k) & 1u8 == 1u8)) by (bit_vector)
            requires
                k < 8,
        ;
        assert(1u8 << shift_amount == 1u8 << k);
    }
    sign_bit > 0
}

/// Reads the packed values of a page.
#[derive(Debug)]
pub struct BitpackedPageDecoder {
    /// Bit offsets of the first value within each buffer.
    pub buffer_bit_start_offsets: Vec<u8>,
    /// Bit offsets of the end of the last value within the last byte of each
    /// buffer. E.g. if there was a buffer with 2 values, packed into 5 bits, this
    /// would be `[Some(2)]`, indicating that the bits from there on shouldn't be
    /// decoded; `None` if the values end with the buffer.
    pub buffer_bit_end_offsets: Vec<Option<u8>>,
    /// The number of bits used to represent a compressed value. E.g. if the max
    /// value in the page was 7 (0b111), then this will be 3.
    pub bits_per_value: u64,
    /// Number of bits in the uncompressed value. E.g. this will be 32 for u32.
    pub uncompressed_bits_per_value: u64,
    /// Whether or not to use the msb as a sign bit during decoding.
    pub signed: bool,
    pub data: Vec<Bytes>,
}

/// Setting one bit of a byte sets that bit and no other.
proof fn lemma_set_bit(b: u8, o: u8)
    requires
        o < 8,
    ensures
        forall|k: int|
            0 <= k < 8 ==> #[trigger] byte_bit(b | (1u8 << o), k) == (k == o || byte_bit(b, k)),
{
    assert forall|k: int| 0 <= k < 8 implies #[trigger] byte_bit(b | (1u8 << o), k) == (k == o
        || byte_bit(b, k)) by {
        let i = k as u8;
        assert((((b | (1u8 << o)) >> i) & 1u8 == 1u8) == (i == o || (b >> i) & 1u8 == 1u8))
            by (bit_vector)
            requires
                o < 8,
                i < 8,
        ;
    }
}

/// Sets every bit from bit `offset` of byte `idx` up to byte `end`.
fn fill_ones(dest: &mut [u8], idx: usize, offset: u64, end: usize)
    requires
        offset < 8,
        8 * idx + offset <= 8 * end,
        end <= old(dest)@.len(),
    ensures
        final(dest)@.len() == old(dest)@.len(),
        forall|p: int|
            0 <= p < 8 * final(dest)@.len() ==> #[trigger] bit(final(dest)@, p) == (8 * idx
                + offset <= p < 8 * end || bit(old(dest)@, p)),
{
    let mut i: usize = idx;
    if offset > 0 {
        // pad out the rest of the byte
        let mut k: u64 = offset;
        while k < 8
            invariant
                1 <= offset <= k <= 8,
                idx < dest@.len(),
                dest@.len() == old(dest)@.len(),
                forall|j: int|
                    0 <= j < dest@.len() && j != idx ==> #[trigger] dest@[j] == old(dest)@[j],
                forall|b: int|
                    0 <= b < 8 ==> #[trigger] byte_bit(dest@[idx as int], b) == (offset <= b < k
                        || byte_bit(old(dest)@[idx as int], b)),
            decreases 8 - k,
        {
            proof {
                lemma_set_bit(dest@[idx as int], k as u8);
                assert(1u8 << k == 1u8 << (k as u8));
            }
            dest[idx] = dest[idx] | (1u8 << k);
            k = k + 1;
        }
        i = idx + 1;
    }
    let ghost padded = dest@;
    let ghost first = i as int;
    assert forall|p: int| 0 <= p < 8 * padded.len() implies #[trigger] bit(padded, p) == (8 * idx
        + offset <= p < 8 * first || bit(old(dest)@, p)) by {
        if p / 8 == idx {
            assert(byte_bit(padded[idx as int], p % 8) == bit(padded, p));
        } else {
            assert(padded[p / 8] == old(dest)@[p / 8]);
        }
    }
    while i < end
        invariant
            first <= i,
            i <= end || i == first,
            end <= dest@.len(),
            dest@.len() == padded.len(),
            forall|j: int|
                0 <= j < dest@.len() ==> #[trigger] dest@[j] == (if first <= j < i {
                    0xFFu8
                } else {
                    padded[j]
                }),
        decreases end - i,
    {
        dest[i] = 0xFF;
        i = i + 1;
    }
    assert forall|p: int| 0 <= p < 8 * dest@.len() implies #[trigger] bit(dest@, p) == (8 * idx
        + offset <= p < 8 * end || bit(old(dest)@, p)) by {
        lemma_ones(p % 8);
        assert(bit(padded, p) == byte_bit(padded[p / 8], p % 8));
        assert(dest@[p / 8] == (if first <= p / 8 < i {
            0xFFu8
        } else {
            padded[p / 8]
        }));
    }
}

proof fn lemma_ones(k: int)
    requires
        0 <= k < 8,
    ensures
        byte_bit(0xffu8, k),
{
    let i = k as u8;
    assert((0xffu8 >> i) & 1u8 == 1u8) by (bit_vector)
        requires
            i < 8,
    ;
}

/// Of rows of `n` bits in `d` bits, one that is complete starts before the end.
proof fn lemma_row_start(d: int, n: int, row: int)
    requires
        n > 0,
        0 <= row < d / n,
    ensures
        0 <= row * n,
        row * n + n <= d,
{
    lemma_fundamental_div_mod(d, n);
    let q = d / n;
    assert(0 <= row * n && row * n + n <= d) by (nonlinear_arith)
        requires
            d == n * q + d % n,
            0 <= d % n,
            0 <= row < q,
            n > 0,
    ;
}

/// Rows start in order.
proof fn lemma_row_order(first: int, n: int, a: int, b: int)
    requires
        n > 0,
        a <= b,
    ensures
        first + a * n <= first + b * n,
{
    assert(a * n <= b * n) by (nonlinear_arith)
        requires
            n > 0,
            a <= b,
    ;
}

/// Division that rounds up is division, and one more if there is a rest.
proof fn lemma_rounded_up(d: int, n: int)
    requires
        0 <= d,
        n > 0,
    ensures
        (d + n - 1) / n == d / n + (if d % n == 0 {
            0int
        } else {
            1
        }),
{
    lemma_fundamental_div_mod(d, n);
    let q = d / n;
    let r = d % n;
    if r == 0 {
        assert(n * q == q * n) by (nonlinear_arith);
        lemma_fundamental_div_mod_converse(d + n - 1, n, q, n - 1);
    } else {
        assert(d + n - 1 == (q + 1) * n + (r - 1)) by (nonlinear_arith)
            requires
                d == n * q + r,
        ;
        lemma_fundamental_div_mod_converse(d + n - 1, n, q + 1, r - 1);
    }
}

/// Rows of `n` bits end within `d` bits if and only if there are so many.
proof fn lemma_row_fits(d: int, n: int, rows: int)
    requires
        0 <= d,
        n > 0,
    ensures
        rows * n <= d <==> rows <= d / n,
{
    lemma_fundamental_div_mod(d, n);
    let q = d / n;
    let r = d % n;
    assert(rows * n <= d <==> rows <= q) by (nonlinear_arith)
        requires
            d == n * q + r,
            0 <= r < n,
            n > 0,
    ;
}

impl BitpackedPageDecoder {
    /// The number of bytes of an uncompressed value.
    pub open spec fn byte_len(self) -> int {
        self.uncompressed_bits_per_value as int / 8
    }

    /// Whether a packed value can be decoded into an uncompressed one: it is no
    /// wider, so that decoded values do not run into each other, and where a sign
    /// is extended there is room for it.
    pub open spec fn widths_ok(self) -> bool {
        &&& 1 <= self.bits_per_value <= 64
        &&& self.bits_per_value <= 8 * self.byte_len()
        &&& self.signed && self.uncompressed_bits_per_value != self.bits_per_value
            ==> self.bits_per_value < 8 * self.byte_len()
    }

    /// Bit `k` of the value that is packed at bit `at` of a byte string: past the
    /// packed bits the sign, if there is one.
    pub open spec fn decoded_bit(self, src: Seq<u8>, at: int, k: int) -> bool {
        if k < self.bits_per_value {
            bit(src, at + k)
        } else {
            self.signed && bit(src, at + self.bits_per_value - 1)
        }
    }

    /// Copying a packed value to clear bytes and setting the bits behind it, if it is
    /// negative, decodes it.
    proof fn lemma_decoded(
        self,
        src: Seq<u8>,
        at: int,
        base: int,
        before: Seq<u8>,
        with_value: Seq<u8>,
        after: Seq<u8>,
    )
        requires
            self.bits_per_value > 0,
            copied(src, at, before, with_value, 8 * base, self.bits_per_value as int),
            after.len() == before.len(),
            0 <= base,
            forall|p: int|
                8 * base <= p < 8 * (base + self.byte_len()) ==> !#[trigger] bit(before, p),
            forall|p: int|
                0 <= p < 8 * after.len() ==> #[trigger] bit(after, p) == (bit(with_value, p) || (
                self.signed && bit(src, at + self.bits_per_value - 1) && 8 * base
                    + self.bits_per_value <= p < 8 * (base + self.byte_len()))),
            self.bits_per_value <= 8 * self.byte_len(),
        ensures
            forall|p: int|
                0 <= p < 8 * after.len() ==> #[trigger] bit(after, p) == (if 8 * base <= p < 8 * (
                base + self.byte_len()) {
                    self.decoded_bit(src, at, p - 8 * base)
                } else {
                    bit(before, p)
                }),
    {
        let n = self.bits_per_value as int;
        assert forall|p: int| 0 <= p < 8 * after.len() implies #[trigger] bit(after, p) == (if 8
            * base <= p < 8 * (base + self.byte_len()) {
            self.decoded_bit(src, at, p - 8 * base)
        } else {
            bit(before, p)
        }) by {
            assert(bit(with_value, p) == (if 8 * base <= p < 8 * base + n {
                bit(src, at + p - 8 * base)
            } else {
                bit(before, p)
            }));
            if 8 * base <= p < 8 * (base + self.byte_len()) {
                assert(!bit(before, p));
            }
        }
    }

    /// Decodes the value at bit `8 * src_idx + src_offset` into the bytes from
    /// `dst_idx` on, which have to be clear, and advances both positions.
    #[verifier::rlimit(60)]
    fn decode_value(
        &self,
        src: &Bytes,
        src_idx: &mut usize,
        src_offset: &mut u64,
        dest: &mut [u8],
        dst_idx: &mut usize,
    )
        requires
            self.widths_ok(),
            *old(src_offset) < 8,
            8 * *old(src_idx) + *old(src_offset) + self.bits_per_value <= 8 * bytes_contents(
                *src,
            ).len(),
            *old(dst_idx) + self.byte_len() <= old(dest)@.len(),
            forall|p: int|
                8 * *old(dst_idx) <= p < 8 * (*old(dst_idx) + self.byte_len()) ==> !#[trigger] bit(
                    old(dest)@,
                    p,
                ),
        ensures
            *final(src_offset) < 8,
            8 * *final(src_idx) + *final(src_offset) == 8 * *old(src_idx) + *old(src_offset)
                + self.bits_per_value,
            *final(dst_idx) == *old(dst_idx) + self.byte_len(),
            final(dest)@.len() == old(dest)@.len(),
            forall|p: int|
                0 <= p < 8 * final(dest)@.len() ==> #[trigger] bit(final(dest)@, p) == (if 8
                    * *old(dst_idx) <= p < 8 * *final(dst_idx) {
                    self.decoded_bit(
                        bytes_contents(*src),
                        8 * *old(src_idx) + *old(src_offset),
                        p - 8 * *old(dst_idx),
                    )
                } else {
                    bit(old(dest)@, p)
                }),
    {
        let ghost contents = bytes_contents(*src);
        let ghost at: int = 8 * *src_idx + *src_offset;
        let ghost base = *dst_idx as int;
        let ghost n = self.bits_per_value as int;
        let byte_len: u64 = self.uncompressed_bits_per_value / 8;
        let bytes: &[u8] = src.deref();
        let is_negative = is_encoded_item_negative(
            src,
            *src_idx,
            *src_offset,
            self.bits_per_value as usize,
        );
        // the offset within the current destination byte to write to
        let mut dst_offset: u64 = 0;
        copy_bits(
            bytes,
            src_idx,
            src_offset,
            self.bits_per_value,
            dest,
            dst_idx,
            &mut dst_offset,
        );
        let ghost with_value = dest@;
        assert(8 * *dst_idx + dst_offset == 8 * base + n);
        assert(dest@.len() == dest.len());
        // advance destination offset to the next location
        // note that we don't need to do this if we wrote the full number of bits
        // because the index would have been advanced by the copy above
        if self.uncompressed_bits_per_value != self.bits_per_value {
            let partial_bytes_written: usize = ceil(self.bits_per_value as usize, 8);
            // we also want to move one location to the next location in destination,
            // unless we wrote something byte-aligned in which case the copy above
            // would have already advanced dst_idx
            let mut to_next_byte: usize = 1;
            if self.bits_per_value % 8 == 0 {
                to_next_byte = 0;
            }
            let next_dst_idx: usize = *dst_idx + (byte_len as usize - partial_bytes_written)
                + to_next_byte;
            assert(next_dst_idx == base + self.byte_len());
            // if the type is signed, need to pad out the rest with 1s
            if self.signed && is_negative {
                fill_ones(dest, *dst_idx, dst_offset, next_dst_idx);
            }
            *dst_idx = next_dst_idx;
        }
        proof {
            assert(*dst_idx == base + self.byte_len());
            self.lemma_decoded(contents, at, base, old(dest)@, with_value, dest@);
        }
    }

    /// The bytes of buffer `i`.
    pub open spec fn buffer(self, i: int) -> Seq<u8> {
        bytes_contents(self.data@[i])
    }

    /// The bit of buffer `i` at which its values start.
    pub open spec fn first_bit(self, i: int) -> int {
        self.buffer_bit_start_offsets@[i] as int
    }

    /// The bit of buffer `i` at which its values end.
    pub open spec fn end_bit(self, i: int) -> int {
        end_of_values(self.buffer(i).len() as int, self.buffer_bit_end_offsets@[i])
    }

    /// The number of complete rows in buffer `i`.
    pub open spec fn rows_in(self, i: int) -> int {
        rows_between(
            self.buffer(i).len() as int,
            self.bits_per_value as int,
            self.buffer_bit_start_offsets@[i],
            self.buffer_bit_end_offsets@[i],
        )
    }

    /// The number of rows in buffer `i`, an incomplete last one included.
    pub open spec fn rows_begun(self, i: int) -> int {
        (self.end_bit(i) - self.first_bit(i) + self.bits_per_value - 1)
            / self.bits_per_value as int
    }

    /// The bit of buffer `i` at which row `row` starts.
    pub open spec fn row_bit(self, i: int, row: int) -> int {
        self.first_bit(i) + row * self.bits_per_value
    }

    /// What is left of the rows to skip behind the first `n` buffers. Only a
    /// buffer that is skipped as a whole counts: one that is read from its middle
    /// leaves the number as it is.
    pub open spec fn skip_left(self, n: int, rows_to_skip: int) -> int
        decreases n,
    {
        if n <= 0 {
            rows_to_skip
        } else {
            let left = self.skip_left(n - 1, rows_to_skip);
            if left >= self.rows_in(n - 1) {
                left - self.rows_in(n - 1)
            } else {
                left
            }
        }
    }

    /// The number of rows that are read from buffer `i`, if `skip` rows are to be
    /// skipped there and `wanted` rows are still wanted.
    pub open spec fn rows_read(self, i: int, skip: int, wanted: int) -> int {
        if skip >= self.rows_in(i) {
            0
        } else {
            min_int(wanted, self.rows_begun(i) - skip)
        }
    }

    /// `count` rows of buffer `i` from row `skip` on, each as the buffer and the
    /// bit at which the row starts.
    pub open spec fn rows_from(self, i: int, skip: int, count: int) -> Seq<(int, int)> {
        Seq::new(count as nat, |k: int| (i, self.row_bit(i, skip + k)))
    }

    /// The rows that are read from the first `n` buffers, at most `num_rows`.
    pub open spec fn rows_picked(self, n: int, rows_to_skip: int, num_rows: int) -> Seq<(int, int)>
        decreases n,
    {
        if n <= 0 {
            Seq::empty()
        } else {
            let before = self.rows_picked(n - 1, rows_to_skip, num_rows);
            let skip = self.skip_left(n - 1, rows_to_skip);
            before + self.rows_from(
                n - 1,
                skip,
                self.rows_read(n - 1, skip, num_rows - before.len()),
            )
        }
    }

    /// Whether buffer `i` holds the rows that are read from it.
    pub open spec fn buffer_readable(self, i: int, rows_to_skip: int, num_rows: int) -> bool {
        let wanted = num_rows - self.rows_picked(i, rows_to_skip, num_rows).len();
        let skip = self.skip_left(i, rows_to_skip);
        let count = self.rows_read(i, skip, wanted);
        &&& offsets_ok(
            self.buffer(i).len() as int,
            self.buffer_bit_start_offsets@[i],
            self.buffer_bit_end_offsets@[i],
        )
        &&& count > 0 ==> {
            &&& self.widths_ok()
            &&& self.row_bit(i, skip + count) <= 8 * self.buffer(i).len()
        }
    }

    /// Whether the page holds what `decode` reads for these arguments.
    pub open spec fn decodable(self, rows_to_skip: int, num_rows: int) -> bool {
        &&& 1 <= self.bits_per_value <= 64
        &&& self.byte_len() * num_rows <= usize::MAX
        &&& self.byte_len() * num_rows <= u64::MAX
        &&& self.data@.len() <= self.buffer_bit_start_offsets@.len()
        &&& self.data@.len() <= self.buffer_bit_end_offsets@.len()
        &&& forall|i: int|
            0 <= i < self.data@.len() ==> #[trigger] self.buffer_readable(i, rows_to_skip, num_rows)
    }

    /// `dest` has room for `num_rows` values, holds the first of them, decoded
    /// from these rows, and is clear behind them.
    pub open spec fn holds_rows(self, dest: Seq<u8>, rows: Seq<(int, int)>, num_rows: int) -> bool {
        &&& dest.len() == self.byte_len() * num_rows
        &&& forall|r: int, k: int|
            0 <= r < num_rows && 0 <= k < 8 * self.byte_len() ==> #[trigger] value_bit(
                dest,
                self.byte_len() as nat,
                r,
                k,
            ) == (r < rows.len() && self.decoded_bit(self.buffer(rows[r].0), rows[r].1, k))
    }

    /// Writing a decoded value behind the others.
    proof fn lemma_place_value(
        self,
        before: Seq<u8>,
        after: Seq<u8>,
        rows: Seq<(int, int)>,
        row: (int, int),
        num_rows: int,
    )
        requires
            self.holds_rows(before, rows, num_rows),
            rows.len() < num_rows,
            self.byte_len() > 0,
            after.len() == before.len(),
            ({
                let base = 8 * (rows.len() * self.byte_len());
                forall|p: int|
                    0 <= p < 8 * after.len() ==> #[trigger] bit(after, p) == (if base <= p < base
                        + 8 * self.byte_len() {
                        self.decoded_bit(self.buffer(row.0), row.1, p - base)
                    } else {
                        bit(before, p)
                    })
            }),
        ensures
            self.holds_rows(after, rows.push(row), num_rows),
    {
        let b = self.byte_len();
        let t = rows.len() as int;
        let base = 8 * (t * b);
        let all = rows.push(row);
        assert forall|r: int, k: int| 0 <= r < num_rows && 0 <= k < 8 * b implies #[trigger] value_bit(
            after,
            b as nat,
            r,
            k,
        ) == (r < all.len() && self.decoded_bit(self.buffer(all[r].0), all[r].1, k)) by {
            let p = 8 * b * r + k;
            assert(0 <= p < 8 * (b * num_rows)) by (nonlinear_arith)
                requires
                    p == 8 * b * r + k,
                    0 <= r < num_rows,
                    0 <= k < 8 * b,
            ;
            assert(8 * b * t == 8 * (t * b)) by (nonlinear_arith);
            if r < t {
                assert(p < base) by (nonlinear_arith)
                    requires
                        p == 8 * b * r + k,
                        base == 8 * (t * b),
                        r < t,
                        0 <= k < 8 * b,
                ;
            } else if r > t {
                assert(p >= base + 8 * b) by (nonlinear_arith)
                    requires
                        p == 8 * b * r + k,
                        base == 8 * (t * b),
                        r > t,
                        0 <= k,
                        b > 0,
                ;
            }
            assert(value_bit(before, b as nat, r, k) == (r < t && self.decoded_bit(
                self.buffer(rows[r].0),
                rows[r].1,
                k,
            )));
        }
    }

    /// The bytes of the next value are clear.
    proof fn lemma_next_is_clear(self, dest: Seq<u8>, rows: Seq<(int, int)>, num_rows: int)
        requires
            self.holds_rows(dest, rows, num_rows),
            rows.len() < num_rows,
            self.byte_len() > 0,
        ensures
            (rows.len() + 1) * self.byte_len() <= dest.len(),
            (rows.len() + 1) * self.byte_len() == rows.len() * self.byte_len() + self.byte_len(),
            forall|p: int|
                8 * (rows.len() * self.byte_len()) <= p < 8 * (rows.len() * self.byte_len()
                    + self.byte_len()) ==> !#[trigger] bit(dest, p),
    {
        let b = self.byte_len();
        let t = rows.len() as int;
        assert((t + 1) * b == t * b + b) by (nonlinear_arith);
        assert((t + 1) * b <= b * num_rows) by (nonlinear_arith)
            requires
                t < num_rows,
                b > 0,
        ;
        assert forall|p: int| 8 * (t * b) <= p < 8 * (t * b + b) implies !#[trigger] bit(
            dest,
            p,
        ) by {
            let k = p - 8 * (t * b);
            assert(8 * b * t == 8 * (t * b)) by (nonlinear_arith);
            assert(!value_bit(dest, b as nat, t, k));
        }
    }

    /// A row starts before the end of the values if and only if it is one of the
    /// rows begun.
    pub proof fn lemma_rows_begun(self, i: int, row: int)
        requires
            self.bits_per_value > 0,
        ensures
            self.row_bit(i, row) < self.end_bit(i) <==> row < self.rows_begun(i),
            self.rows_in(i) <= self.rows_begun(i),
            self.row_bit(i, row + 1) == self.row_bit(i, row) + self.bits_per_value,
    {
        let n = self.bits_per_value as int;
        let d = self.end_bit(i) - self.first_bit(i);
        let q = self.rows_begun(i);
        let f = self.rows_in(i);
        lemma_fundamental_div_mod(d + n - 1, n);
        lemma_fundamental_div_mod(d, n);
        let r = (d + n - 1) % n;
        assert(row * n < d <==> row < q) by (nonlinear_arith)
            requires
                d + n - 1 == n * q + r,
                0 <= r < n,
                n > 0,
        ;
        assert(f <= q) by (nonlinear_arith)
            requires
                d + n - 1 == n * q + r,
                0 <= r < n,
                d == n * f + d % n,
                0 <= d % n,
                n > 0,
        ;
        assert((row + 1) * n == row * n + n) by (nonlinear_arith);
    }

    /// Decodes rows of buffer `i` from bit `8 * src_idx + src_offset` on, until
    /// there are enough or the buffer ends.
    fn decode_buffer(
        &self,
        i: usize,
        start: BufferStartOffset,
        num_rows: u64,
        dest: &mut [u8],
        rows_taken: &mut u64,
        dst_idx: &mut usize,
        Ghost(skip): Ghost<int>,
        Ghost(rows): Ghost<Seq<(int, int)>>,
    )
        requires
            i < self.data@.len(),
            self.data@.len() <= self.buffer_bit_end_offsets@.len(),
            1 <= self.bits_per_value <= 64,
            offsets_ok(
                self.buffer(i as int).len() as int,
                self.buffer_bit_start_offsets@[i as int],
                self.buffer_bit_end_offsets@[i as int],
            ),
            0 <= skip < self.rows_in(i as int),
            start.bit_offset < 8,
            8 * start.index + start.bit_offset == self.row_bit(i as int, skip),
            ({
                let count = self.rows_read(i as int, skip, num_rows - rows.len());
                count > 0 ==> {
                    &&& self.widths_ok()
                    &&& self.row_bit(i as int, skip + count) <= 8 * self.buffer(i as int).len()
                }
            }),
            *old(rows_taken) == rows.len(),
            rows.len() <= num_rows,
            *old(dst_idx) == rows.len() * self.byte_len(),
            self.holds_rows(old(dest)@, rows, num_rows as int),
        ensures
            ({
                let count = self.rows_read(i as int, skip, num_rows - rows.len());
                let all = rows + self.rows_from(i as int, skip, count);
                &&& *final(rows_taken) == all.len()
                &&& all.len() <= num_rows
                &&& *final(dst_idx) == all.len() * self.byte_len()
                &&& self.holds_rows(final(dest)@, all, num_rows as int)
            }),
    {
        let src: &Bytes = &self.data[i];
        let len: usize = src.deref().len();
        let mut src_idx: usize = start.index;
        let mut src_offset: u64 = start.bit_offset as u64;
        let mut more = true;
        let ghost b = i as int;
        let ghost wanted = num_rows - rows.len();
        let ghost count = self.rows_read(b, skip, wanted);
        let ghost mut c: int = 0;
        proof {
            self.lemma_rows_begun(b, skip);
            lemma_row_start(
                self.end_bit(b) - self.first_bit(b),
                self.bits_per_value as int,
                skip,
            );
            assert(rows + self.rows_from(b, skip, 0) =~= rows);
        }
        while more && src_idx < len && *rows_taken < num_rows
            invariant
                i < self.data@.len(),
                b == i,
                *src == self.data@[b],
                self.data@.len() <= self.buffer_bit_end_offsets@.len(),
                len == self.buffer(b).len(),
                1 <= self.bits_per_value <= 64,
                offsets_ok(
                    len as int,
                    self.buffer_bit_start_offsets@[b],
                    self.buffer_bit_end_offsets@[b],
                ),
                0 <= skip < self.rows_in(b),
                wanted == num_rows - rows.len(),
                count == self.rows_read(b, skip, wanted),
                count > 0 ==> self.widths_ok() && self.row_bit(b, skip + count) <= 8 * len,
                0 <= c <= count,
                *rows_taken == rows.len() + c,
                *rows_taken <= num_rows,
                *dst_idx == *rows_taken * self.byte_len(),
                src_offset < 8,
                8 * src_idx + src_offset == self.row_bit(b, skip + c),
                (more && src_idx < len) == (skip + c < self.rows_begun(b)),
                self.holds_rows(dest@, rows + self.rows_from(b, skip, c), num_rows as int),
            decreases num_rows - *rows_taken,
        {
            let ghost dest0 = dest@;
            let ghost so_far = rows + self.rows_from(b, skip, c);
            let ghost row = (b, self.row_bit(b, skip + c));
            proof {
                self.lemma_next_is_clear(dest@, so_far, num_rows as int);
                lemma_row_order(
                    self.first_bit(b),
                    self.bits_per_value as int,
                    skip + c + 1,
                    skip + count,
                );
                self.lemma_rows_begun(b, skip + c);
                self.lemma_rows_begun(b, skip + c + 1);
            }
            *rows_taken = *rows_taken + 1;
            self.decode_value(src, &mut src_idx, &mut src_offset, dest, dst_idx);
            proof {
                self.lemma_place_value(dest0, dest@, so_far, row, num_rows as int);
                assert(so_far.push(row) =~= rows + self.rows_from(b, skip, c + 1));
                c = c + 1;
            }
            // If we've reached the last byte, there may be some extra bits from the
            // next value outside the range. We don't want to be taking those.
            if let Some(buffer_bit_end_offset) = self.buffer_bit_end_offsets[i] {
                if src_idx == len - 1 && src_offset >= buffer_bit_end_offset as u64 {
                    more = false;
                }
            }
        }
    }

    /// Decodes `num_rows` rows after skipping `rows_to_skip` rows. Rows that the
    /// page does not hold come out as zeros.
    pub fn decode(&self, rows_to_skip: u64, num_rows: u64) -> (r: Result<DataBlock, Error>)
        requires
            self.decodable(rows_to_skip as int, num_rows as int),
        ensures
            r matches Ok(DataBlock::FixedWidth(block)) && {
                &&& block.bits_per_value == self.uncompressed_bits_per_value
                &&& block.num_values == num_rows
                &&& self.holds_rows(
                    block.data@,
                    self.rows_picked(
                        self.data@.len() as int,
                        rows_to_skip as int,
                        num_rows as int,
                    ),
                    num_rows as int,
                )
            },
    {
        let num_bytes: u64 = self.uncompressed_bits_per_value / 8 * num_rows;
        let mut dest: Vec<u8> = vec![0u8; num_bytes as usize];
        let ghost to_skip = rows_to_skip as int;
        let mut rows_to_skip: u64 = rows_to_skip;
        let mut rows_taken: u64 = 0;
        // index for current byte being written to destination buffer
        let mut dst_idx: usize = 0;
        proof {
            lemma_zero_bits(dest@);
            let rows = self.rows_picked(0, to_skip, num_rows as int);
            assert(0 * self.byte_len() == 0);
            assert forall|r: int, k: int|
                0 <= r < num_rows && 0 <= k < 8 * self.byte_len() implies !#[trigger] value_bit(
                dest@,
                self.byte_len() as nat,
                r,
                k,
            ) by {
                let b = self.byte_len();
                let p = 8 * b * r + k;
                assert(0 <= p < 8 * (b * num_rows)) by (nonlinear_arith)
                    requires
                        p == 8 * b * r + k,
                        0 <= r < num_rows,
                        0 <= k < 8 * b,
                ;
                assert(!bit(dest@, p));
            }
            assert(self.holds_rows(dest@, rows, num_rows as int));
        }
        let mut i: usize = 0;
        while i < self.data.len()
            invariant
                i <= self.data@.len(),
                self.decodable(to_skip, num_rows as int),
                rows_to_skip == self.skip_left(i as int, to_skip),
                rows_taken == self.rows_picked(i as int, to_skip, num_rows as int).len(),
                rows_taken <= num_rows,
                dst_idx == rows_taken * self.byte_len(),
                self.holds_rows(
                    dest@,
                    self.rows_picked(i as int, to_skip, num_rows as int),
                    num_rows as int,
                ),
            decreases self.data@.len() - i,
        {
            let ghost rows = self.rows_picked(i as int, to_skip, num_rows as int);
            proof {
                assert(self.buffer_readable(i as int, to_skip, num_rows as int));
                self.lemma_nothing_read(i as int, rows);
            }
            match compute_start_offset(
                rows_to_skip,
                self.data[i].deref().len(),
                self.bits_per_value,
                self.buffer_bit_start_offsets[i],
                self.buffer_bit_end_offsets[i],
            ) {
                StartOffset::SkipFull(rows_to_skip_here) => {
                    rows_to_skip = rows_to_skip - rows_to_skip_here;
                },
                StartOffset::SkipSome(buffer_start_offset) => {
                    self.decode_buffer(
                        i,
                        buffer_start_offset,
                        num_rows,
                        dest.as_mut_slice(),
                        &mut rows_taken,
                        &mut dst_idx,
                        Ghost(rows_to_skip as int),
                        Ghost(rows),
                    );
                },
            }
            i = i + 1;
        }
        Ok(
            DataBlock::FixedWidth(
                FixedWidthDataBlock {
                    data: LanceBuffer { bytes: dest },
                    bits_per_value: self.uncompressed_bits_per_value,
                    num_values: num_rows,
                },
            ),
        )
    }

    /// No rows of a buffer, no more rows.
    proof fn lemma_nothing_read(self, i: int, rows: Seq<(int, int)>)
        ensures
            forall|skip: int| rows + #[trigger] self.rows_from(i, skip, 0) == rows,
    {
        assert forall|skip: int| rows + #[trigger] self.rows_from(i, skip, 0) == rows by {
            assert(rows + self.rows_from(i, skip, 0) =~= rows);
        }
    }

    /// Whether `decode` can be called with these arguments.
    pub fn can_decode(&self, rows_to_skip: u64, num_rows: u64) -> (r: bool)
        ensures
            r == self.decodable(rows_to_skip as int, num_rows as int),
    {
        if self.bits_per_value < 1 || self.bits_per_value > 64 {
            return false;
        }
        let byte_len: u64 = self.uncompressed_bits_per_value / 8;
        proof {
            assert(byte_len as int * num_rows as int <= u128::MAX) by (nonlinear_arith)
                requires
                    byte_len <= u64::MAX,
                    num_rows <= u64::MAX,
            ;
        }
        let num_bytes: u128 = byte_len as u128 * num_rows as u128;
        if num_bytes > usize::MAX as u128 || num_bytes > u64::MAX as u128 {
            return false;
        }
        if self.data.len() > self.buffer_bit_start_offsets.len() || self.data.len()
            > self.buffer_bit_end_offsets.len() {
            return false;
        }
        let ghost to_skip = rows_to_skip as int;
        let mut left: u64 = rows_to_skip;
        let mut taken: u64 = 0;
        let mut i: usize = 0;
        while i < self.data.len()
            invariant
                i <= self.data@.len(),
                to_skip == rows_to_skip,
                byte_len == self.uncompressed_bits_per_value / 8,
                1 <= self.bits_per_value <= 64,
                self.data@.len() <= self.buffer_bit_start_offsets@.len(),
                self.data@.len() <= self.buffer_bit_end_offsets@.len(),
                forall|j: int|
                    0 <= j < i ==> #[trigger] self.buffer_readable(j, to_skip, num_rows as int),
                left == self.skip_left(i as int, to_skip),
                taken == self.rows_picked(i as int, to_skip, num_rows as int).len(),
                taken <= num_rows,
            decreases self.data@.len() - i,
        {
            let len: usize = self.data[i].deref().len();
            let start: u8 = self.buffer_bit_start_offsets[i];
            let end: Option<u8> = self.buffer_bit_end_offsets[i];
            let ghost b = i as int;
            let unused: u8 = match end {
                Some(offset) => if offset <= 8 {
                    8 - offset
                } else {
                    proof {
                        assert(!self.buffer_readable(b, to_skip, num_rows as int));
                    }
                    return false;
                },
                None => 0,
            };
            if len > usize::MAX / 8 || len * 8 < start as usize + unused as usize {
                proof {
                        assert(!self.buffer_readable(b, to_skip, num_rows as int));
                    }
                    return false;
            }
            let rows: u64 = rows_in_buffer(len, self.bits_per_value, start, end);
            if left >= rows {
                proof {
                    self.lemma_nothing_read(
                        b,
                        self.rows_picked(b, to_skip, num_rows as int),
                    );
                    assert(self.buffer_readable(b, to_skip, num_rows as int));
                }
                left = left - rows;
            } else {
                let bits: u64 = (len * 8) as u64 - start as u64;
                let valid: u64 = bits - unused as u64;
                let begun: u64 = if valid % self.bits_per_value == 0 {
                    rows
                } else {
                    rows + 1
                };
                let count: u64 = if num_rows - taken < begun - left {
                    num_rows - taken
                } else {
                    begun - left
                };
                proof {
                    lemma_rounded_up(valid as int, self.bits_per_value as int);
                    lemma_row_fits(bits as int, self.bits_per_value as int, left + count);
                }
                if count > 0 {
                    let wide_enough = self.bits_per_value <= byte_len * 8 && !(self.signed
                        && self.uncompressed_bits_per_value != self.bits_per_value
                        && self.bits_per_value == byte_len * 8);
                    if !wide_enough || left + count > bits / self.bits_per_value {
                        proof {
                        assert(!self.buffer_readable(b, to_skip, num_rows as int));
                    }
                    return false;
                    }
                }
                proof {
                    assert(self.buffer_readable(b, to_skip, num_rows as int));
                }
                taken = taken + count;
            }
            i = i + 1;
        }
        true
    }
}

} // verus!
