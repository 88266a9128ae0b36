//! Which bytes of a packed buffer hold the rows that are asked for.
use core::ops::Range;

use bytes::Bytes;
use vstd::prelude::*;

use crate::bits::bytes_for;
use crate::decoder::BitpackedPageDecoder;

verus! {

/// A physical scheduler for bitpacked buffers.
#[derive(Debug, Clone, Copy)]
pub struct BitpackedScheduler {
    bits_per_value: u64,
    uncompressed_bits_per_value: u64,
    buffer_offset: u64,
    signed: bool,
}

/// The bytes to request for some ranges of rows, and what the decoder of the
/// reply has to know.
#[derive(Debug)]
pub struct ScheduledPage {
    /// The ranges of bytes to request, one for each range of rows.
    pub byte_ranges: Vec<Range<u64>>,
    /// The row that the request is made for.
    pub top_level_row: u64,
    /// The least and the greatest byte of the ranges, for the log.
    pub spread: Range<u64>,
    pub buffer_bit_start_offsets: Vec<u8>,
    pub buffer_bit_end_offsets: Vec<Option<u8>>,
    pub bits_per_value: u64,
    pub uncompressed_bits_per_value: u64,
    pub signed: bool,
}

/// The least start of some ranges, or the greatest number if there is none.
pub open spec fn least_start(ranges: Seq<Range<u64>>) -> u64
    decreases ranges.len(),
{
    if ranges.len() == 0 {
        u64::MAX
    } else {
        let rest = least_start(ranges.drop_last());
        if ranges.last().start < rest {
            ranges.last().start
        } else {
            rest
        }
    }
}

/// The greatest end of some ranges, or 0 if there is none.
pub open spec fn greatest_end(ranges: Seq<Range<u64>>) -> u64
    decreases ranges.len(),
{
    if ranges.len() == 0 {
        0
    } else {
        let rest = greatest_end(ranges.drop_last());
        if ranges.last().end > rest {
            ranges.last().end
        } else {
            rest
        }
    }
}

impl BitpackedScheduler {
    /// The number of bits of a packed value.
    pub closed spec fn spec_bits_per_value(self) -> u64 {
        self.bits_per_value
    }

    /// The number of bits of an unpacked value.
    pub closed spec fn spec_uncompressed_bits_per_value(self) -> u64 {
        self.uncompressed_bits_per_value
    }

    /// The byte at which the packed buffer starts.
    pub closed spec fn spec_buffer_offset(self) -> u64 {
        self.buffer_offset
    }

    /// Whether the highest bit of a packed value is a sign.
    pub closed spec fn spec_signed(self) -> bool {
        self.signed
    }

    pub fn new(
        bits_per_value: u64,
        uncompressed_bits_per_value: u64,
        buffer_offset: u64,
        signed: bool,
    ) -> (r: Self)
        ensures
            r.spec_bits_per_value() == bits_per_value,
            r.spec_uncompressed_bits_per_value() == uncompressed_bits_per_value,
            r.spec_buffer_offset() == buffer_offset,
            r.spec_signed() == signed,
    {
        BitpackedScheduler { bits_per_value, uncompressed_bits_per_value, buffer_offset, signed }
    }

    /// The byte that holds the first bit of row `row`.
    pub open spec fn first_byte(self, row: u64) -> int {
        self.spec_buffer_offset() + row * self.spec_bits_per_value() / 8
    }

    /// The byte behind the last bit of the rows before row `row`.
    pub open spec fn end_byte(self, row: u64) -> int {
        self.spec_buffer_offset() + bytes_for(row * self.spec_bits_per_value())
    }

    /// The bit offset of row `row` in its byte.
    pub open spec fn bit_offset(self, row: u64) -> int {
        row * self.spec_bits_per_value() % 8
    }

    /// Whether the bits and the bytes of a range of rows can be counted.
    pub open spec fn countable(self, range: Range<u64>) -> bool {
        &&& range.start * self.spec_bits_per_value() <= u64::MAX
        &&& range.end * self.spec_bits_per_value() <= u64::MAX
        &&& self.first_byte(range.start) <= u64::MAX
        &&& self.end_byte(range.end) <= u64::MAX
    }

    /// Whether the bits and the bytes of all these ranges of rows can be counted.
    pub open spec fn all_countable(self, ranges: Seq<Range<u64>>) -> bool {
        forall|i: int| 0 <= i < ranges.len() ==> self.countable(#[trigger] ranges[i])
    }

    /// Whether `schedule_ranges` can be called with these ranges.
    pub fn can_schedule(&self, ranges: &[Range<u64>]) -> (r: bool)
        ensures
            r == forall|i: int| 0 <= i < ranges@.len() ==> self.countable(#[trigger] ranges@[i]),
            r == self.all_countable(ranges@),
    {
        let mut i: usize = 0;
        while i < ranges.len()
            invariant
                i <= ranges@.len(),
                forall|j: int| 0 <= j < i ==> self.countable(#[trigger] ranges@[j]),
            decreases ranges@.len() - i,
        {
            let range: &Range<u64> = &ranges[i];
            let ghost n = self.bits_per_value as int;
            proof {
                assert(range.start * n <= u64::MAX * u64::MAX && range.end * n <= u64::MAX
                    * u64::MAX) by (nonlinear_arith)
                    requires
                        range.start <= u64::MAX,
                        range.end <= u64::MAX,
                        0 <= n <= u64::MAX,
                ;
                assert(range.start * n >= 0 && range.end * n >= 0) by (nonlinear_arith)
                    requires
                        0 <= range.start,
                        0 <= range.end,
                        0 <= n,
                ;
                assert(self.countable(ranges@[i as int]) ==> {
                    &&& range.start * n <= u64::MAX
                    &&& range.end * n <= u64::MAX
                    &&& self.buffer_offset + range.start * n / 8 <= u64::MAX
                    &&& self.buffer_offset + bytes_for(range.end * n) <= u64::MAX
                });
            }
            let start_bits: u128 = range.start as u128 * self.bits_per_value as u128;
            let end_bits: u128 = range.end as u128 * self.bits_per_value as u128;
            let max: u128 = u64::MAX as u128;
            if start_bits > max || end_bits > max {
                return false;
            }
            if self.buffer_offset as u128 + start_bits / 8 > max {
                return false;
            }
            if self.buffer_offset as u128 + (end_bits + 7) / 8 > max {
                return false;
            }
            assert(self.countable(ranges@[i as int]));
            i = i + 1;
        }
        true
    }

    /// What is scheduled for some ranges of rows: for each of them the bytes that
    /// hold its rows, and where in the first byte the rows start and in the last
    /// byte they end.
    pub open spec fn schedules(
        self,
        ranges: Seq<Range<u64>>,
        top_level_row: u64,
        page: ScheduledPage,
    ) -> bool {
        &&& page.byte_ranges@.len() == ranges.len()
        &&& page.buffer_bit_start_offsets@.len() == ranges.len()
        &&& page.buffer_bit_end_offsets@.len() == ranges.len()
        &&& forall|i: int|
            0 <= i < ranges.len() ==> {
                let range = #[trigger] ranges[i];
                &&& page.byte_ranges@[i].start == self.first_byte(range.start)
                &&& page.byte_ranges@[i].end == self.end_byte(range.end)
                &&& page.buffer_bit_start_offsets@[i] == self.bit_offset(range.start)
                &&& page.buffer_bit_end_offsets@[i] == (if self.bit_offset(range.end) == 0 {
                    None
                } else {
                    Some(self.bit_offset(range.end) as u8)
                })
            }
        &&& page.spread.start == least_start(page.byte_ranges@)
        &&& page.spread.end == greatest_end(page.byte_ranges@)
        &&& page.top_level_row == top_level_row
        &&& page.bits_per_value == self.spec_bits_per_value()
        &&& page.uncompressed_bits_per_value == self.spec_uncompressed_bits_per_value()
        &&& page.signed == self.spec_signed()
    }

    /// Works out the request for some ranges of rows.
    pub fn schedule_ranges(&self, ranges: &[Range<u64>], top_level_row: u64) -> (r: ScheduledPage)
        requires
            forall|i: int| 0 <= i < ranges@.len() ==> self.countable(#[trigger] ranges@[i]),
        ensures
            self.schedules(ranges@, top_level_row, r),
    {
        let mut min: u64 = u64::MAX;
        let mut max: u64 = 0;
        let mut byte_ranges: Vec<Range<u64>> = Vec::new();
        let mut buffer_bit_start_offsets: Vec<u8> = Vec::new();
        let mut buffer_bit_end_offsets: Vec<Option<u8>> = Vec::new();
        let mut i: usize = 0;
        while i < ranges.len()
            invariant
                i <= ranges@.len(),
                forall|j: int| 0 <= j < ranges@.len() ==> self.countable(#[trigger] ranges@[j]),
                byte_ranges@.len() == i,
                buffer_bit_start_offsets@.len() == i,
                buffer_bit_end_offsets@.len() == i,
                forall|j: int|
                    0 <= j < i ==> {
                        let range = #[trigger] ranges@[j];
                        &&& byte_ranges@[j].start == self.first_byte(range.start)
                        &&& byte_ranges@[j].end == self.end_byte(range.end)
                        &&& buffer_bit_start_offsets@[j] == self.bit_offset(range.start)
                        &&& buffer_bit_end_offsets@[j] == (if self.bit_offset(range.end) == 0 {
                            None
                        } else {
                            Some(self.bit_offset(range.end) as u8)
                        })
                    },
                min == least_start(byte_ranges@),
                max == greatest_end(byte_ranges@),
            decreases ranges@.len() - i,
        {
            let range: &Range<u64> = &ranges[i];
            assert(self.countable(ranges@[i as int]));
            let start_byte_offset: u64 = range.start * self.bits_per_value / 8;
            let mut end_byte_offset: u64 = range.end * self.bits_per_value / 8;
            let end_bit_offset: u64 = range.end * self.bits_per_value % 8;
            if end_bit_offset != 0 {
                // If the end of the range is not byte-aligned, we need to read one more byte
                end_byte_offset = end_byte_offset + 1;
                buffer_bit_end_offsets.push(Some(end_bit_offset as u8));
            } else {
                buffer_bit_end_offsets.push(None);
            }
            let start_bit_offset: u64 = range.start * self.bits_per_value % 8;
            buffer_bit_start_offsets.push(start_bit_offset as u8);
            let start: u64 = self.buffer_offset + start_byte_offset;
            let end: u64 = self.buffer_offset + end_byte_offset;
            if start < min {
                min = start;
            }
            if end > max {
                max = end;
            }
            let ghost before = byte_ranges@;
            byte_ranges.push(Range { start, end });
            assert(byte_ranges@.drop_last() =~= before);
            i = i + 1;
        }
        ScheduledPage {
            byte_ranges,
            top_level_row,
            spread: Range { start: min, end: max },
            buffer_bit_start_offsets,
            buffer_bit_end_offsets,
            bits_per_value: self.bits_per_value,
            uncompressed_bits_per_value: self.uncompressed_bits_per_value,
            signed: self.signed,
        }
    }
}

impl ScheduledPage {
    /// The decoder of the page, once its bytes are there.
    pub open spec fn decoded_by(self, data: Vec<Bytes>, decoder: BitpackedPageDecoder) -> bool {
        &&& decoder.data == data
        &&& decoder.buffer_bit_start_offsets == self.buffer_bit_start_offsets
        &&& decoder.buffer_bit_end_offsets == self.buffer_bit_end_offsets
        &&& decoder.bits_per_value == self.bits_per_value
        &&& decoder.uncompressed_bits_per_value == self.uncompressed_bits_per_value
        &&& decoder.signed == self.signed
    }

    /// The decoder of the bytes that were requested, or the error that came
    /// instead.
    pub fn into_decoder<E>(self, bytes: Result<Vec<Bytes>, E>) -> (r: Result<
        BitpackedPageDecoder,
        E,
    >)
        ensures
            match bytes {
                Ok(data) => r matches Ok(decoder) && self.decoded_by(data, decoder),
                Err(e) => r == Err::<BitpackedPageDecoder, E>(e),
            },
    {
        match bytes {
            Ok(data) => Ok(
                BitpackedPageDecoder {
                    buffer_bit_start_offsets: self.buffer_bit_start_offsets,
                    buffer_bit_end_offsets: self.buffer_bit_end_offsets,
                    bits_per_value: self.bits_per_value,
                    uncompressed_bits_per_value: self.uncompressed_bits_per_value,
                    signed: self.signed,
                    data,
                },
            ),
            Err(e) => Err(e),
        }
    }
}

} // verus!
