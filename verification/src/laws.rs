//! What holds of packing, scheduling and decoding together.
use core::ops::Range;

use bytes::Bytes;
use vstd::arithmetic::div_mod::{lemma_fundamental_div_mod, lemma_fundamental_div_mod_converse};
use vstd::arithmetic::power2::{lemma_pow2_pos, lemma_pow2_strictly_increases, pow2};
use vstd::prelude::*;

use crate::array::{value_bit, Array};
use crate::bits::{bit, bytes_for, int_bit, lemma_same_bits, min_int};
use crate::decoder::{end_of_values, offsets_ok, rows_between, BitpackedPageDecoder};
use crate::encoder::{
    arrays_bits, holds_stream, integers_up_to, lemma_arrays_bits_len, total_count,
    BitpackingBufferEncoder,
};
use crate::outside::bytes_contents;
use crate::params::{fits, least_params, BitpackParams};
use crate::scheduler::{BitpackedScheduler, ScheduledPage};

verus! {

/// The rows of the first `n` buffers, in order, each as the buffer and the bit at
/// which the row starts.
pub open spec fn all_rows(decoder: BitpackedPageDecoder, n: int) -> Seq<(int, int)>
    decreases n,
{
    if n <= 0 {
        Seq::empty()
    } else {
        all_rows(decoder, n - 1) + decoder.rows_from(n - 1, 0, decoder.rows_in(n - 1))
    }
}

/// Whether the rows of every buffer can be counted.
pub open spec fn rows_countable(decoder: BitpackedPageDecoder) -> bool {
    &&& decoder.bits_per_value > 0
    &&& forall|i: int| 0 <= i < decoder.data@.len() ==> 0 <= #[trigger] decoder.rows_in(i)
}

/// Whether a request that reads from a buffer with an incomplete last row ends
/// before that row. A buffer without any complete row is never read from.
pub open spec fn reads_complete_rows(
    decoder: BitpackedPageDecoder,
    rows_to_skip: int,
    num_rows: int,
) -> bool {
    forall|i: int|
        0 <= i < decoder.data@.len() && 0 < decoder.rows_in(i) < #[trigger] decoder.rows_begun(i)
            ==> {
            ||| all_rows(decoder, i + 1).len() <= rows_to_skip
            ||| rows_to_skip + num_rows <= all_rows(decoder, i + 1).len()
        }
}

/// Whether a request that starts in the middle of a buffer ends in it, its
/// incomplete last row included, or no rows follow it.
pub open spec fn stays_in_buffer(
    decoder: BitpackedPageDecoder,
    rows_to_skip: int,
    num_rows: int,
) -> bool {
    let n = decoder.data@.len() as int;
    forall|i: int|
        0 <= i < n && all_rows(decoder, i).len() < rows_to_skip < #[trigger] all_rows(
            decoder,
            i + 1,
        ).len() ==> {
            ||| rows_to_skip + num_rows <= all_rows(decoder, i + 1).len() + (decoder.rows_begun(i)
                - decoder.rows_in(i))
            ||| all_rows(decoder, n).len() == all_rows(decoder, i + 1).len()
        }
}

proof fn lemma_all_rows_grow(decoder: BitpackedPageDecoder, a: int, b: int)
    requires
        rows_countable(decoder),
        0 <= a <= b <= decoder.data@.len(),
    ensures
        all_rows(decoder, a).len() <= all_rows(decoder, b).len(),
    decreases b - a,
{
    if a < b {
        lemma_all_rows_grow(decoder, a, b - 1);
        assert(0 <= decoder.rows_in(b - 1));
    }
}

/// Where reading stands behind the first `n` buffers.
proof fn lemma_picked_so_far(
    decoder: BitpackedPageDecoder,
    n: int,
    rows_to_skip: int,
    num_rows: int,
)
    requires
        rows_countable(decoder),
        0 <= n <= decoder.data@.len(),
        0 <= rows_to_skip,
        0 <= num_rows,
        stays_in_buffer(decoder, rows_to_skip, num_rows),
        reads_complete_rows(decoder, rows_to_skip, num_rows),
    ensures
        ({
            let rows = all_rows(decoder, n);
            let total = rows.len() as int;
            let left = decoder.skip_left(n, rows_to_skip);
            let picked = decoder.rows_picked(n, rows_to_skip, num_rows);
            if rows_to_skip >= total {
                &&& left == rows_to_skip - total
                &&& picked.len() == 0
            } else {
                &&& picked == rows.subrange(rows_to_skip, min_int(rows_to_skip + num_rows, total))
                &&& left >= 0
                &&& left == 0 || rows_to_skip + num_rows <= total || all_rows(
                    decoder,
                    decoder.data@.len() as int,
                ).len() == total
            }
        }),
    decreases n,
{
    if n > 0 {
        let i = n - 1;
        lemma_picked_so_far(decoder, i, rows_to_skip, num_rows);
        lemma_all_rows_grow(decoder, n, decoder.data@.len() as int);
        assert(0 <= decoder.rows_in(i));
        decoder.lemma_rows_begun(i, 0);
        let before = all_rows(decoder, i);
        let rows = all_rows(decoder, i + 1);
        let picked = decoder.rows_picked(n, rows_to_skip, num_rows);
        if rows_to_skip < rows.len() {
            assert(picked =~= rows.subrange(
                rows_to_skip,
                min_int(rows_to_skip + num_rows, rows.len() as int),
            ));
        }
    }
}

/// Decoding reads the rows of all buffers as one sequence: after the rows to
/// skip, as many as are asked for and are there.
///
/// It does so only if the request does not run on from the middle of one buffer
/// into the next, nor into an incomplete row at the end of a buffer.
pub proof fn law_decode_reads_rows_in_sequence(
    decoder: BitpackedPageDecoder,
    rows_to_skip: u64,
    num_rows: u64,
)
    requires
        rows_countable(decoder),
        stays_in_buffer(decoder, rows_to_skip as int, num_rows as int),
        reads_complete_rows(decoder, rows_to_skip as int, num_rows as int),
    ensures
        ({
            let n = decoder.data@.len() as int;
            let rows = all_rows(decoder, n);
            let total = rows.len() as int;
            decoder.rows_picked(n, rows_to_skip as int, num_rows as int) == rows.subrange(
                min_int(rows_to_skip as int, total),
                min_int(rows_to_skip + num_rows, total),
            )
        }),
{
    let n = decoder.data@.len() as int;
    lemma_picked_so_far(decoder, n, rows_to_skip as int, num_rows as int);
    let rows = all_rows(decoder, n);
    let total = rows.len() as int;
    if rows_to_skip >= total {
        assert(rows.subrange(total, total) =~= Seq::empty());
        assert(decoder.rows_picked(n, rows_to_skip as int, num_rows as int) =~= Seq::empty());
    }
}

/// The integers in all slots of a list of columns, one column after the other.
pub open spec fn all_values(arrays: Seq<Array>) -> Seq<int>
    decreases arrays.len(),
{
    if arrays.len() == 0 {
        Seq::empty()
    } else {
        all_values(arrays.drop_last()) + arrays.last().raw()
    }
}

/// The lowest `num_bits` bits of some integers, one after the other.
pub open spec fn low_bits(values: Seq<int>, num_bits: int) -> Seq<bool> {
    Seq::new(
        (values.len() * num_bits) as nat,
        |j: int| int_bit(values[j / num_bits], j % num_bits),
    )
}

/// Position `j` in packed bits lies in value `j / num_bits`.
proof fn lemma_value_index(j: int, num_bits: int, count: int)
    requires
        num_bits > 0,
        0 <= j < count * num_bits,
    ensures
        0 <= j / num_bits < count,
        0 <= j % num_bits < num_bits,
{
    let i = j / num_bits;
    let k = j % num_bits;
    lemma_fundamental_div_mod(j, num_bits);
    assert(0 <= i < count) by (nonlinear_arith)
        requires
            j == num_bits * i + k,
            0 <= k < num_bits,
            0 <= j < count * num_bits,
            num_bits > 0,
    ;
}

/// Packing depends on the values alone, not on how they are cut into columns.
pub proof fn law_packing_ignores_column_boundaries(arrays: Seq<Array>, num_bits: u64)
    requires
        num_bits > 0,
    ensures
        arrays_bits(arrays, num_bits as int) == low_bits(all_values(arrays), num_bits as int),
    decreases arrays.len(),
{
    let n = num_bits as int;
    if arrays.len() == 0 {
        assert(0 * n == 0);
        assert(arrays_bits(arrays, n) =~= low_bits(all_values(arrays), n));
    } else {
        let rest = arrays.drop_last();
        let last = arrays.last();
        law_packing_ignores_column_boundaries(rest, num_bits);
        let a = all_values(rest);
        let b = last.raw();
        let all = all_values(arrays);
        let la = a.len() as int;
        let lb = b.len() as int;
        assert((la + lb) * n == la * n + lb * n && la * n >= 0 && lb * n >= 0) by (nonlinear_arith)
            requires
                n > 0,
                la >= 0,
                lb >= 0,
        ;
        let packed = arrays_bits(arrays, n);
        let low = low_bits(all, n);
        assert(packed.len() == low.len());
        assert forall|j: int| 0 <= j < packed.len() implies packed[j] == low[j] by {
            lemma_value_index(j, n, la + lb);
            if j < la * n {
                lemma_value_index(j, n, la);
            } else {
                let m = j - la * n;
                lemma_value_index(m, n, lb);
                lemma_fundamental_div_mod(m, n);
                assert(j == (la + m / n) * n + m % n) by (nonlinear_arith)
                    requires
                        m == n * (m / n) + m % n,
                        j == m + la * n,
                ;
                lemma_fundamental_div_mod_converse(j, n, la + m / n, m % n);
            }
        }
        assert(packed =~= low);
    }
}

/// The integer that fits in `num_bits` bits is its lowest `num_bits` bits: every
/// higher bit is the sign, or clear if there is none.
pub proof fn law_higher_bits_are_the_sign(v: int, num_bits: int, signed: bool, k: int)
    requires
        1 <= num_bits <= k,
        fits(v, num_bits, signed),
    ensures
        int_bit(v, k) == (signed && int_bit(v, num_bits - 1)),
        signed ==> (int_bit(v, num_bits - 1) <==> v < 0),
{
    let top = if signed {
        num_bits - 1
    } else {
        num_bits
    };
    lemma_bit_past_top(v, top, k);
    if signed {
        lemma_bit_past_top(v, top, top);
    }
}

proof fn lemma_bit_past_top(v: int, top: int, k: int)
    requires
        0 <= top <= k,
        -pow2(top as nat) <= v < pow2(top as nat),
    ensures
        int_bit(v, k) == (v < 0),
{
    if top < k {
        lemma_pow2_strictly_increases(top as nat, k as nat);
    }
    let d = pow2(k as nat) as int;
    lemma_pow2_pos(k as nat);
    if v >= 0 {
        lemma_fundamental_div_mod_converse(v, d, 0, v);
    } else {
        lemma_fundamental_div_mod_converse(v, d, -1, v + d);
    }
}

/// Packed columns take no more bytes than their values do.
pub proof fn law_packing_does_not_grow(arrays: Seq<Array>, width: nat, num_bits: u64, packed: Seq<u8>)
    requires
        integers_up_to(arrays, arrays.len() as int),
        1 <= num_bits <= 8 * width,
        holds_stream(packed, arrays_bits(arrays, num_bits as int)),
    ensures
        packed.len() == bytes_for(total_count(arrays) * num_bits),
        packed.len() <= total_count(arrays) * width,
{
    lemma_arrays_bits_len(arrays, num_bits as int);
    let c = total_count(arrays) as int;
    let n = num_bits as int;
    assert(c * n <= 8 * (c * width)) by (nonlinear_arith)
        requires
            c >= 0,
            n <= 8 * width,
    ;
}

/// The bytes that are scheduled for a range of rows hold its rows and no others:
/// the first row starts at the start offset, the last ends at the end offset, and
/// as many rows as the range has lie between.
pub proof fn law_scheduled_bytes_hold_the_range(
    scheduler: BitpackedScheduler,
    ranges: Seq<Range<u64>>,
    top_level_row: u64,
    page: ScheduledPage,
    i: int,
)
    requires
        scheduler.spec_bits_per_value() > 0,
        scheduler.schedules(ranges, top_level_row, page),
        0 <= i < ranges.len(),
        ranges[i].start <= ranges[i].end,
        scheduler.countable(ranges[i]),
    ensures
        ({
            let n = scheduler.spec_bits_per_value() as int;
            let bytes = page.byte_ranges@[i];
            let base = 8 * (bytes.start - scheduler.spec_buffer_offset());
            let len = bytes.end - bytes.start;
            let first = page.buffer_bit_start_offsets@[i];
            let end = page.buffer_bit_end_offsets@[i];
            &&& scheduler.spec_buffer_offset() <= bytes.start <= bytes.end
            &&& bytes.end <= scheduler.spec_buffer_offset() + bytes_for(ranges[i].end * n)
            &&& base + first == ranges[i].start * n
            &&& base + end_of_values(len, end) == ranges[i].end * n
            &&& first < 8
            &&& end matches Some(offset) ==> 1 <= offset < 8
            &&& first <= end_of_values(len, end) <= 8 * len
            &&& end_of_values(len, end) - first == (ranges[i].end - ranges[i].start) * n
            &&& rows_between(len, n, first, end) == ranges[i].end - ranges[i].start
        }),
{
    let n = scheduler.spec_bits_per_value() as int;
    let a = ranges[i].start as int;
    let b = ranges[i].end as int;
    assert(a * n <= b * n && b * n - a * n == (b - a) * n && a * n >= 0) by (nonlinear_arith)
        requires
            0 <= a <= b,
            n > 0,
    ;
    lemma_fundamental_div_mod_converse((b - a) * n, n, b - a, 0);
}

/// The rows of some ranges, one range after the other.
pub open spec fn rows_of(ranges: Seq<Range<u64>>) -> Seq<int>
    decreases ranges.len(),
{
    if ranges.len() == 0 {
        Seq::empty()
    } else {
        let last = ranges.last();
        rows_of(ranges.drop_last()) + Seq::new(
            (last.end - last.start) as nat,
            |k: int| last.start + k,
        )
    }
}

/// Whether a request for rows of some ranges that starts in the middle of a range
/// ends in it, or no rows follow it.
pub open spec fn stays_in_range(
    ranges: Seq<Range<u64>>,
    rows_to_skip: int,
    num_rows: int,
) -> bool {
    forall|i: int|
        0 <= i < ranges.len() && rows_of(ranges.take(i)).len() < rows_to_skip < rows_of(
            #[trigger] ranges.take(i + 1),
        ).len() ==> {
            ||| rows_to_skip + num_rows <= rows_of(ranges.take(i + 1)).len()
            ||| rows_of(ranges).len() == rows_of(ranges.take(i + 1)).len()
        }
}

/// Whether these are rows that packed columns hold.
pub open spec fn ranges_within(ranges: Seq<Range<u64>>, count: nat) -> bool {
    forall|i: int|
        0 <= i < ranges.len() ==> (#[trigger] ranges[i]).start <= ranges[i].end <= count
}

/// Whether packed bytes lie in a file from byte `offset` on.
pub open spec fn lies_at(file: Seq<u8>, offset: int, packed: Seq<u8>) -> bool {
    &&& 0 <= offset
    &&& offset + packed.len() <= file.len()
    &&& file.subrange(offset, offset + packed.len()) == packed
}

/// Whether a request was answered with the bytes of a file.
pub open spec fn answered_from(file: Seq<u8>, page: ScheduledPage, data: Vec<Bytes>) -> bool {
    &&& data@.len() == page.byte_ranges@.len()
    &&& forall|i: int|
        0 <= i < data@.len() ==> {
            let range = page.byte_ranges@[i];
            &&& range.start <= range.end <= file.len()
            &&& #[trigger] bytes_contents(data@[i]) == file.subrange(
                range.start as int,
                range.end as int,
            )
        }
}

/// Whether columns were packed, stored, scheduled and fetched: what the encoder
/// made of the columns lies in a file, and a decoder was made for some ranges of
/// the rows, with the bytes that the file holds for them.
pub open spec fn stored_and_fetched(
    arrays: Seq<Array>,
    packed: Seq<u8>,
    file: Seq<u8>,
    scheduler: BitpackedScheduler,
    ranges: Seq<Range<u64>>,
    top_level_row: u64,
    page: ScheduledPage,
    data: Vec<Bytes>,
    decoder: BitpackedPageDecoder,
) -> bool {
    let num_bits = scheduler.spec_bits_per_value();
    &&& integers_up_to(arrays, arrays.len() as int)
    &&& decoder.widths_ok()
    &&& holds_stream(packed, arrays_bits(arrays, num_bits as int))
    &&& lies_at(file, scheduler.spec_buffer_offset() as int, packed)
    &&& forall|i: int|
        0 <= i < data@.len() ==> 8 * (#[trigger] bytes_contents(data@[i])).len() <= usize::MAX
    &&& ranges_within(ranges, total_count(arrays))
    &&& forall|i: int| 0 <= i < ranges.len() ==> scheduler.countable(#[trigger] ranges[i])
    &&& scheduler.schedules(ranges, top_level_row, page)
    &&& answered_from(file, page, data)
    &&& page.decoded_by(data, decoder)
}

/// Whether the row that a decoder finds at a place is a packed integer.
spec fn row_is(decoder: BitpackedPageDecoder, row: (int, int), v: int) -> bool {
    &&& 0 <= row.0 < decoder.data@.len()
    &&& 0 <= row.1
    &&& row.1 + decoder.bits_per_value <= 8 * decoder.buffer(row.0).len()
    &&& forall|j: int|
        0 <= j < decoder.bits_per_value ==> #[trigger] bit(decoder.buffer(row.0), row.1 + j)
            == int_bit(v, j)
}

/// Buffer `i` of a fetched page holds the rows of range `i`.
proof fn lemma_fetched_buffer(
    arrays: Seq<Array>,
    packed: Seq<u8>,
    file: Seq<u8>,
    scheduler: BitpackedScheduler,
    ranges: Seq<Range<u64>>,
    top_level_row: u64,
    page: ScheduledPage,
    data: Vec<Bytes>,
    decoder: BitpackedPageDecoder,
    i: int,
)
    requires
        stored_and_fetched(
            arrays,
            packed,
            file,
            scheduler,
            ranges,
            top_level_row,
            page,
            data,
            decoder,
        ),
        0 <= i < ranges.len(),
    ensures
        decoder.rows_in(i) == ranges[i].end - ranges[i].start,
        decoder.rows_begun(i) == decoder.rows_in(i),
        decoder.end_bit(i) <= 8 * decoder.buffer(i).len(),
        decoder.row_bit(i, decoder.rows_in(i)) == decoder.end_bit(i),
        offsets_ok(
            decoder.buffer(i).len() as int,
            decoder.buffer_bit_start_offsets@[i],
            decoder.buffer_bit_end_offsets@[i],
        ),
        forall|k: int|
            0 <= k < ranges[i].end - ranges[i].start ==> row_is(
                decoder,
                (i, #[trigger] decoder.row_bit(i, k)),
                all_values(arrays)[ranges[i].start + k],
            ),
{
    let n = scheduler.spec_bits_per_value() as int;
    let bytes = page.byte_ranges@[i];
    let offset = scheduler.spec_buffer_offset() as int;
    let buffer = decoder.buffer(i);
    let values = all_values(arrays);
    let stream = arrays_bits(arrays, n);
    let start = ranges[i].start as int;
    let end = ranges[i].end as int;
    assert(start <= end <= total_count(arrays) && scheduler.countable(ranges[i]));
    law_scheduled_bytes_hold_the_range(scheduler, ranges, top_level_row, page, i);
    law_packing_ignores_column_boundaries(arrays, n as u64);
    lemma_arrays_bits_len(arrays, n);
    lemma_all_values_len(arrays);
    assert(bytes_contents(data@[i]) == file.subrange(bytes.start as int, bytes.end as int));
    assert(buffer.len() == bytes.end - bytes.start);
    let count = end - start;
    let d = decoder.end_bit(i) - decoder.first_bit(i);
    assert(d == count * n);
    lemma_fundamental_div_mod_converse(d, n, count, 0);
    lemma_fundamental_div_mod_converse(d + n - 1, n, count, n - 1);
    assert forall|k: int| 0 <= k < count implies row_is(
        decoder,
        (i, #[trigger] decoder.row_bit(i, k)),
        values[start + k],
    ) by {
        let at = decoder.row_bit(i, k);
        let row = start + k;
        assert(start * n + k * n == row * n && k * n >= 0 && k * n + n <= count * n)
            by (nonlinear_arith)
            requires
                row == start + k,
                0 <= k < count,
                n > 0,
        ;
        assert forall|j: int| 0 <= j < n implies #[trigger] bit(buffer, at + j) == int_bit(
            values[row],
            j,
        ) by {
            let q = at + j;
            let p = row * n + j;
            assert(8 * (bytes.start - offset) + q == p);
            assert(buffer[q / 8] == file[bytes.start + q / 8]);
            assert(p / 8 == bytes.start - offset + q / 8);
            assert(0 <= p < total_count(arrays) * n) by (nonlinear_arith)
                requires
                    p == row * n + j,
                    0 <= j < n,
                    0 <= row < total_count(arrays),
            ;
            assert(packed[p / 8] == file.subrange(offset, offset + packed.len())[p / 8]);
            assert(bit(packed, p) == stream[p]);
            lemma_fundamental_div_mod_converse(p, n, row, j);
        }
    }
}

proof fn lemma_all_values_len(arrays: Seq<Array>)
    requires
        integers_up_to(arrays, arrays.len() as int),
    ensures
        all_values(arrays).len() == total_count(arrays),
    decreases arrays.len(),
{
    if arrays.len() > 0 {
        let rest = arrays.drop_last();
        assert forall|i: int| 0 <= i < rest.len() implies (#[trigger] rest[i]).is_integer() by {
            assert(arrays[i].is_integer());
        }
        lemma_all_values_len(rest);
        assert(arrays[arrays.len() - 1].is_integer());
    }
}

/// The rows that a decoder of a fetched page finds are those of the ranges.
proof fn lemma_fetched_rows(
    arrays: Seq<Array>,
    packed: Seq<u8>,
    file: Seq<u8>,
    scheduler: BitpackedScheduler,
    ranges: Seq<Range<u64>>,
    top_level_row: u64,
    page: ScheduledPage,
    data: Vec<Bytes>,
    decoder: BitpackedPageDecoder,
    m: int,
)
    requires
        stored_and_fetched(
            arrays,
            packed,
            file,
            scheduler,
            ranges,
            top_level_row,
            page,
            data,
            decoder,
        ),
        0 <= m <= ranges.len(),
    ensures
        ({
            let rows = all_rows(decoder, m);
            let wanted = rows_of(ranges.take(m));
            &&& rows.len() == wanted.len()
            &&& forall|q: int|
                0 <= q < rows.len() ==> row_is(
                    decoder,
                    #[trigger] rows[q],
                    all_values(arrays)[wanted[q]],
                ) && 0 <= wanted[q] < total_count(arrays)
        }),
    decreases m,
{
    if m > 0 {
        let i = m - 1;
        lemma_fetched_rows(
            arrays,
            packed,
            file,
            scheduler,
            ranges,
            top_level_row,
            page,
            data,
            decoder,
            i,
        );
        lemma_fetched_buffer(
            arrays,
            packed,
            file,
            scheduler,
            ranges,
            top_level_row,
            page,
            data,
            decoder,
            i,
        );
        assert(ranges.take(m).drop_last() =~= ranges.take(i));
        assert(ranges.take(m).last() == ranges[i]);
        let before = all_rows(decoder, i);
        let rows = all_rows(decoder, m);
        let wanted = rows_of(ranges.take(m));
        assert(ranges[i].start <= ranges[i].end <= total_count(arrays));
        assert forall|q: int| 0 <= q < rows.len() implies row_is(
            decoder,
            #[trigger] rows[q],
            all_values(arrays)[wanted[q]],
        ) && 0 <= wanted[q] < total_count(arrays) by {
            if q < before.len() {
                assert(rows[q] == before[q]);
            } else {
                let k = q - before.len();
                assert(rows[q] == (i, decoder.row_bit(i, k)));
                assert(wanted[q] == ranges[i].start + k);
            }
        }
    }
}

/// What was packed and stored is read back: the request can be decoded, and each
/// row that comes out is the integer that the row of the same place in the
/// requested ranges held before it was packed, if the packed width can represent
/// that integer. Rows past the end of the ranges come out as 0. A value that comes out
/// has the width that the scheduler was given for values that are not packed.
///
/// This holds of every request that does not run on from the middle of one range
/// into the next.
pub proof fn law_stored_rows_are_read_back(
    arrays: Seq<Array>,
    packed: Seq<u8>,
    file: Seq<u8>,
    scheduler: BitpackedScheduler,
    ranges: Seq<Range<u64>>,
    top_level_row: u64,
    page: ScheduledPage,
    data: Vec<Bytes>,
    decoder: BitpackedPageDecoder,
    rows_to_skip: u64,
    num_rows: u64,
)
    requires
        stored_and_fetched(
            arrays,
            packed,
            file,
            scheduler,
            ranges,
            top_level_row,
            page,
            data,
            decoder,
        ),
        decoder.byte_len() * num_rows <= usize::MAX,
        decoder.byte_len() * num_rows <= u64::MAX,
        stays_in_range(ranges, rows_to_skip as int, num_rows as int),
    ensures
        decoder.decodable(rows_to_skip as int, num_rows as int),
        decoder.uncompressed_bits_per_value == scheduler.spec_uncompressed_bits_per_value(),
        decoder.byte_len() == scheduler.spec_uncompressed_bits_per_value() as int / 8,
        forall|dest: Seq<u8>, r: int, k: int|
            {
                &&& decoder.holds_rows(
                    dest,
                    decoder.rows_picked(
                        decoder.data@.len() as int,
                        rows_to_skip as int,
                        num_rows as int,
                    ),
                    num_rows as int,
                )
                &&& 0 <= r < num_rows
                &&& 0 <= k < 8 * decoder.byte_len()
                &&& rows_to_skip + r < rows_of(ranges).len() ==> fits(
                    all_values(arrays)[rows_of(ranges)[rows_to_skip + r]],
                    decoder.bits_per_value as int,
                    decoder.signed,
                )
            } ==> #[trigger] value_bit(dest, decoder.byte_len() as nat, r, k) == (rows_to_skip + r
                < rows_of(ranges).len() && int_bit(
                all_values(arrays)[rows_of(ranges)[rows_to_skip + r]],
                k,
            )),
{
    let count = decoder.data@.len() as int;
    let values = all_values(arrays);
    let wanted = rows_of(ranges);
    let n = decoder.bits_per_value as int;
    let skip = rows_to_skip as int;
    let num = num_rows as int;
    assert(ranges.take(count) =~= ranges);
    assert forall|i: int| 0 <= i < count implies {
        &&& 0 <= #[trigger] decoder.rows_in(i)
        &&& decoder.rows_begun(i) == decoder.rows_in(i)
    } by {
        lemma_fetched_buffer(
            arrays, packed, file, scheduler, ranges, top_level_row, page, data, decoder, i,
        );
        assert(ranges[i].start <= ranges[i].end);
    }
    assert(stays_in_buffer(decoder, skip, num)) by {
        lemma_fetched_rows(
            arrays, packed, file, scheduler, ranges, top_level_row, page, data, decoder, count,
        );
        assert forall|i: int|
            0 <= i < count && all_rows(decoder, i).len() < skip < #[trigger] all_rows(
                decoder,
                i + 1,
            ).len() implies {
            ||| skip + num <= all_rows(decoder, i + 1).len()
            ||| all_rows(decoder, count).len() == all_rows(decoder, i + 1).len()
        } by {
            lemma_fetched_rows(
                arrays, packed, file, scheduler, ranges, top_level_row, page, data, decoder, i,
            );
            lemma_fetched_rows(
                arrays, packed, file, scheduler, ranges, top_level_row, page, data, decoder, i + 1,
            );
            assert(rows_of(ranges.take(i)).len() < skip < rows_of(ranges.take(i + 1)).len());
        }
    }
    law_decode_reads_rows_in_sequence(decoder, rows_to_skip, num_rows);
    lemma_fetched_rows(
        arrays, packed, file, scheduler, ranges, top_level_row, page, data, decoder, count,
    );
    let rows = all_rows(decoder, count);
    let picked = decoder.rows_picked(count, skip, num);
    assert forall|i: int| 0 <= i < count implies #[trigger] decoder.buffer_readable(
        i,
        skip,
        num,
    ) by {
        lemma_fetched_buffer(
            arrays, packed, file, scheduler, ranges, top_level_row, page, data, decoder, i,
        );
        let left = decoder.skip_left(i, skip);
        let taken = decoder.rows_picked(i, skip, num);
        let read = decoder.rows_read(i, left, num - taken.len());
        if read > 0 {
            let first = decoder.first_bit(i);
            assert(first + (left + read) * n <= first + decoder.rows_in(i) * n) by (nonlinear_arith)
                requires
                    left + read <= decoder.rows_in(i),
                    n > 0,
            ;
        }
    }
    assert forall|dest: Seq<u8>, r: int, k: int|
        {
            &&& decoder.holds_rows(dest, picked, num)
            &&& 0 <= r < num
            &&& 0 <= k < 8 * decoder.byte_len()
            &&& skip + r < wanted.len() ==> fits(values[wanted[skip + r]], n, decoder.signed)
        } implies #[trigger] value_bit(dest, decoder.byte_len() as nat, r, k) == (skip + r
        < wanted.len() && int_bit(values[wanted[skip + r]], k)) by {
        if skip + r < wanted.len() {
            let row = rows[skip + r];
            let v = values[wanted[skip + r]];
            assert(picked[r] == row);
            assert(row_is(decoder, row, v));
            if k >= n {
                law_higher_bits_are_the_sign(v, n, decoder.signed, k);
                assert(bit(decoder.buffer(row.0), row.1 + (n - 1)) == int_bit(v, n - 1));
            } else {
                assert(bit(decoder.buffer(row.0), row.1 + k) == int_bit(v, k));
            }
        }
    }
}

/// An integer column can be packed with the parameters chosen for it.
pub proof fn law_chosen_parameters_suit_the_column(
    arr: Array,
    params: BitpackParams,
    encoder: BitpackingBufferEncoder,
)
    requires
        arr.is_integer(),
        least_params(arr.slots(), params),
        params.num_bits <= 8 * arr.width(),
        encoder.spec_num_bits() == params.num_bits,
    ensures
        encoder.suits(arr),
{
}

/// A column that is packed with the parameters chosen for it, stored and fetched
/// is read back whole: every row that is not null comes out as the integer that
/// it held, in the width that the scheduler was given.
///
/// This holds of every request that does not run on from the middle of one range
/// into the next.
pub proof fn law_chosen_parameters_lose_nothing(
    arr: Array,
    params: BitpackParams,
    packed: Seq<u8>,
    file: Seq<u8>,
    scheduler: BitpackedScheduler,
    ranges: Seq<Range<u64>>,
    top_level_row: u64,
    page: ScheduledPage,
    data: Vec<Bytes>,
    decoder: BitpackedPageDecoder,
    rows_to_skip: u64,
    num_rows: u64,
)
    requires
        arr.wf(),
        least_params(arr.slots(), params),
        scheduler.spec_bits_per_value() == params.num_bits,
        scheduler.spec_signed() == params.signed,
        stored_and_fetched(
            seq![arr],
            packed,
            file,
            scheduler,
            ranges,
            top_level_row,
            page,
            data,
            decoder,
        ),
        decoder.byte_len() * num_rows <= usize::MAX,
        decoder.byte_len() * num_rows <= u64::MAX,
        stays_in_range(ranges, rows_to_skip as int, num_rows as int),
    ensures
        decoder.decodable(rows_to_skip as int, num_rows as int),
        decoder.uncompressed_bits_per_value == scheduler.spec_uncompressed_bits_per_value(),
        decoder.byte_len() == scheduler.spec_uncompressed_bits_per_value() as int / 8,
        forall|dest: Seq<u8>, r: int, k: int|
            {
                &&& decoder.holds_rows(
                    dest,
                    decoder.rows_picked(
                        decoder.data@.len() as int,
                        rows_to_skip as int,
                        num_rows as int,
                    ),
                    num_rows as int,
                )
                &&& 0 <= r < num_rows
                &&& rows_to_skip + r < rows_of(ranges).len()
                &&& 0 <= k < 8 * decoder.byte_len()
                &&& arr.slots()[rows_of(ranges)[rows_to_skip + r]] is Some
            } ==> #[trigger] value_bit(dest, decoder.byte_len() as nat, r, k) == int_bit(
                arr.slots()[rows_of(ranges)[rows_to_skip + r]]->0,
                k,
            ),
{
    let arrays = seq![arr];
    let slots = arr.slots();
    let wanted = rows_of(ranges);
    law_stored_rows_are_read_back(
        arrays, packed, file, scheduler, ranges, top_level_row, page, data, decoder, rows_to_skip,
        num_rows,
    );
    assert(arrays[0].is_integer());
    assert(arrays.drop_last() =~= Seq::empty());
    assert(all_values(arrays.drop_last()) =~= Seq::empty());
    assert(all_values(arrays) =~= arr.raw());
    assert(total_count(arrays.drop_last()) == 0);
    assert(total_count(arrays) == arr.count());
    assert(ranges.take(ranges.len() as int) =~= ranges);
    lemma_fetched_rows(
        arrays, packed, file, scheduler, ranges, top_level_row, page, data, decoder,
        ranges.len() as int,
    );
    let rows = all_rows(decoder, ranges.len() as int);
    assert forall|dest: Seq<u8>, r: int, k: int|
        {
            &&& decoder.holds_rows(
                dest,
                decoder.rows_picked(
                    decoder.data@.len() as int,
                    rows_to_skip as int,
                    num_rows as int,
                ),
                num_rows as int,
            )
            &&& 0 <= r < num_rows
            &&& rows_to_skip + r < wanted.len()
            &&& 0 <= k < 8 * decoder.byte_len()
            &&& slots[wanted[rows_to_skip + r]] is Some
        } implies #[trigger] value_bit(dest, decoder.byte_len() as nat, r, k) == int_bit(
        slots[wanted[rows_to_skip + r]]->0,
        k,
    ) by {
        let row = wanted[rows_to_skip + r];
        assert(row_is(decoder, rows[rows_to_skip + r], all_values(arrays)[row]));
        assert(slots[row] == Some(arr.raw()[row]));
        assert(fits(arr.raw()[row], params.num_bits as int, params.signed));
    }
}

/// How reading in two pieces and reading at once stand to each other behind the
/// first `n` buffers.
proof fn lemma_pieces_so_far(
    decoder: BitpackedPageDecoder,
    n: int,
    rows_to_skip: int,
    first: int,
    second: int,
)
    requires
        rows_countable(decoder),
        0 <= n <= decoder.data@.len(),
        0 <= rows_to_skip,
        0 < first,
        0 < second,
        stays_in_buffer(decoder, rows_to_skip, first + second),
        stays_in_buffer(decoder, rows_to_skip + first, second),
        reads_complete_rows(decoder, rows_to_skip, first + 1),
    ensures
        ({
            let cut = rows_to_skip + first;
            let total = all_rows(decoder, n).len() as int;
            let end = all_rows(decoder, decoder.data@.len() as int).len() as int;
            let left = decoder.skip_left(n, rows_to_skip);
            let left_at_cut = decoder.skip_left(n, cut);
            let whole = decoder.rows_picked(n, rows_to_skip, first + second);
            let head = decoder.rows_picked(n, rows_to_skip, first);
            let tail = decoder.rows_picked(n, cut, second);
            if total <= cut {
                &&& whole == head
                &&& tail.len() == 0
                &&& left_at_cut == cut - total
                &&& if total <= rows_to_skip {
                    &&& head.len() == 0
                    &&& left == rows_to_skip - total
                } else {
                    &&& head.len() == total - rows_to_skip
                    &&& left >= 0
                    &&& left == 0 || total == end
                }
            } else {
                &&& whole == head + tail
                &&& head.len() == first
                &&& tail.len() <= second
                &&& left >= 0
                &&& left_at_cut >= 0
                &&& left == left_at_cut || tail.len() == second || total == end
            }
        }),
    decreases n,
{
    if n > 0 {
        let i = n - 1;
        lemma_pieces_so_far(decoder, i, rows_to_skip, first, second);
        lemma_all_rows_grow(decoder, n, decoder.data@.len() as int);
        decoder.lemma_rows_begun(i, 0);
        assert(0 <= decoder.rows_in(i));
        let cut = rows_to_skip + first;
        let total = all_rows(decoder, i + 1).len();
        let whole = decoder.rows_picked(n, rows_to_skip, first + second);
        let head = decoder.rows_picked(n, rows_to_skip, first);
        let tail = decoder.rows_picked(n, cut, second);
        if total <= cut {
            assert(whole =~= head);
        } else {
            assert(whole =~= head + tail);
        }
    }
}

/// A request for no rows reads none.
proof fn lemma_nothing_picked(decoder: BitpackedPageDecoder, n: int, rows_to_skip: int)
    requires
        rows_countable(decoder),
        0 <= n <= decoder.data@.len(),
        0 <= rows_to_skip,
    ensures
        decoder.skip_left(n, rows_to_skip) >= 0,
        decoder.rows_picked(n, rows_to_skip, 0).len() == 0,
    decreases n,
{
    if n > 0 {
        lemma_nothing_picked(decoder, n - 1, rows_to_skip);
        decoder.lemma_rows_begun(n - 1, 0);
        assert(0 <= decoder.rows_in(n - 1));
    }
}

/// Reading some rows and then the next reads what reading all of them at once
/// does.
///
/// It does so if neither the second request nor the whole runs on from the middle
/// of one buffer into the next, and the first request does not end behind the
/// complete rows of a buffer that has an incomplete last one: that row is then
/// read by the whole but skipped by the second request.
pub proof fn law_decode_in_pieces(
    decoder: BitpackedPageDecoder,
    rows_to_skip: u64,
    first: u64,
    second: u64,
)
    requires
        rows_to_skip + first <= u64::MAX,
        first + second <= u64::MAX,
        rows_countable(decoder),
        0 < first && 0 < second ==> {
            &&& stays_in_buffer(decoder, rows_to_skip as int, first + second)
            &&& stays_in_buffer(decoder, rows_to_skip + first, second as int)
            &&& reads_complete_rows(decoder, rows_to_skip as int, first + 1)
        },
    ensures
        ({
            let n = decoder.data@.len() as int;
            decoder.rows_picked(n, rows_to_skip as int, first + second) == decoder.rows_picked(
                n,
                rows_to_skip as int,
                first as int,
            ) + decoder.rows_picked(n, rows_to_skip + first, second as int)
        }),
{
    let n = decoder.data@.len() as int;
    let skip = rows_to_skip as int;
    let whole = decoder.rows_picked(n, skip, first + second);
    let head = decoder.rows_picked(n, skip, first as int);
    let tail = decoder.rows_picked(n, skip + first, second as int);
    if first == 0 {
        lemma_nothing_picked(decoder, n, skip);
    } else if second == 0 {
        lemma_nothing_picked(decoder, n, skip + first);
    } else {
        lemma_pieces_so_far(decoder, n, skip, first as int, second as int);
    }
    assert(whole =~= head + tail);
}

/// A stream of bits is held by one byte string only: columns with the same values
/// pack to the same bytes.
pub proof fn law_stream_determines_bytes(one: Seq<u8>, other: Seq<u8>, stream: Seq<bool>)
    requires
        holds_stream(one, stream),
        holds_stream(other, stream),
    ensures
        one == other,
{
    assert forall|p: int| 0 <= p < 8 * one.len() implies #[trigger] bit(one, p) == bit(
        other,
        p,
    ) by {
        assert(bit(other, p) == (p < stream.len() && stream[p]));
    }
    lemma_same_bits(one, other);
}

} // verus!
