//! What decoding a page gives: values in terms of the bytes of the buffers and, for
//! a page of several buffers, in terms of the page without the first of them.
use bytes::Bytes;
use vstd::arithmetic::div_mod::lemma_fundamental_div_mod;
use vstd::arithmetic::power2::{lemma2_to64, pow2};
use vstd::prelude::*;

use crate::array::value_bit;
use crate::bits::{bit, int_bit, lemma_same_bits};
use crate::block::{DataBlock, Error, FixedWidthDataBlock};
use crate::decoder::{
    compute_start_offset, is_encoded_item_negative, rows_between, rows_in_buffer,
    BitpackedPageDecoder, StartOffset,
};
use crate::laws::law_higher_bits_are_the_sign;
use crate::numbers::{
    digits, integer_at, lemma_integer_at, lemma_lowest_digits, lemma_number, lemma_same_digits,
    number,
};
use crate::outside::bytes_contents;

verus! {

/// The bit at which the values of buffer `i` of a page end.
pub open spec fn end_of(page: BitpackedPageDecoder, i: int) -> int {
    let bits = 8 * bytes_contents(page.data@[i]).len();
    match page.buffer_bit_end_offsets@[i] {
        Some(offset) => bits - 8 + offset,
        None => bits as int,
    }
}

/// The number of bits between the offsets of buffer `i` of a page.
pub open spec fn bits_of(page: BitpackedPageDecoder, i: int) -> int {
    end_of(page, i) - page.buffer_bit_start_offsets@[i]
}

/// The number of rows that are complete in buffer `i` of a page.
pub open spec fn complete_rows(page: BitpackedPageDecoder, i: int) -> int {
    bits_of(page, i) / (page.bits_per_value as int)
}

/// The number of rows that start in buffer `i` of a page.
pub open spec fn started_rows(page: BitpackedPageDecoder, i: int) -> int {
    (bits_of(page, i) + page.bits_per_value - 1) / (page.bits_per_value as int)
}

/// The integer that is packed `row` values behind the start of buffer `i` of a page.
pub open spec fn integer_in(page: BitpackedPageDecoder, i: int, row: int) -> int {
    integer_at(
        number(bytes_contents(page.data@[i])),
        page.buffer_bit_start_offsets@[i] + row * page.bits_per_value,
        page.bits_per_value as int,
        page.signed,
    )
}

/// Whether `rest` is `page` without its first buffer.
pub open spec fn is_rest_of(rest: BitpackedPageDecoder, page: BitpackedPageDecoder) -> bool {
    &&& 0 < page.data@.len() <= page.buffer_bit_start_offsets@.len()
    &&& page.data@.len() <= page.buffer_bit_end_offsets@.len()
    &&& rest.data@ == page.data@.skip(1)
    &&& rest.buffer_bit_start_offsets@ == page.buffer_bit_start_offsets@.skip(1)
    &&& rest.buffer_bit_end_offsets@ == page.buffer_bit_end_offsets@.skip(1)
    &&& rest.bits_per_value == page.bits_per_value
    &&& rest.uncompressed_bits_per_value == page.uncompressed_bits_per_value
    &&& rest.signed == page.signed
}

/// The block that came out of `decode`.
pub open spec fn decoded(r: Result<DataBlock, Error>) -> FixedWidthDataBlock {
    r->Ok_0->FixedWidth_0
}

/// What a decoded value is of the value that is packed at bit `at` of a byte string.
proof fn lemma_value_read(
    page: BitpackedPageDecoder,
    src: Seq<u8>,
    at: int,
    out: Seq<u8>,
    row: int,
)
    requires
        1 <= page.bits_per_value <= 8 * page.byte_len(),
        0 <= at,
        at + page.bits_per_value <= 8 * src.len(),
        0 <= row,
        page.byte_len() * (row + 1) <= out.len(),
        forall|k: int|
            0 <= k < 8 * page.byte_len() ==> #[trigger] value_bit(
                out,
                page.byte_len() as nat,
                row,
                k,
            ) == page.decoded_bit(src, at, k),
    ensures
        digits(number(out), 8 * page.byte_len() * row, 8 * page.byte_len()) == integer_at(
            number(src),
            at,
            page.bits_per_value as int,
            page.signed,
        ) % (pow2((8 * page.byte_len()) as nat) as int),
{
    let n = page.bits_per_value as int;
    let w = page.byte_len();
    let to = 8 * w * row;
    let v = integer_at(number(src), at, n, page.signed);
    assert(0 <= to && to + 8 * w == 8 * (w * (row + 1))) by (nonlinear_arith)
        requires
            to == 8 * w * row,
            0 <= w,
            0 <= row,
    ;
    lemma_number(src);
    lemma_number(out);
    lemma_integer_at(number(src), at, n, page.signed);
    assert forall|k: int| 0 <= k < 8 * w implies #[trigger] int_bit(number(out), to + k)
        == int_bit(v, 0 + k) by {
        assert(value_bit(out, w as nat, row, k) == page.decoded_bit(src, at, k));
        assert(bit(out, to + k) == int_bit(number(out), to + k));
        if k < n {
            assert(bit(src, at + k) == int_bit(number(src), at + k));
            assert(int_bit(v, k) == int_bit(number(src), at + k));
        } else {
            law_higher_bits_are_the_sign(v, n, page.signed, k);
            assert(bit(src, at + (n - 1)) == int_bit(number(src), at + (n - 1)));
            assert(int_bit(v, n - 1) == int_bit(number(src), at + (n - 1)));
        }
    }
    lemma_same_digits(number(out), to, v, 0, 8 * w);
    lemma_lowest_digits(v, 8 * w);
}

/// How the rows of a page and of the rest of it stand to each other.
proof fn lemma_rest(
    page: BitpackedPageDecoder,
    rest: BitpackedPageDecoder,
    n: int,
    skip: int,
    num_rows: int,
)
    requires
        is_rest_of(rest, page),
        page.bits_per_value > 0,
        0 <= n <= rest.data@.len(),
        0 <= num_rows,
    ensures
        ({
            let head = page.rows_picked(1, skip, num_rows);
            let left = page.skip_left(1, skip);
            let tail = rest.rows_picked(n, left, num_rows - head.len());
            let all = page.rows_picked(n + 1, skip, num_rows);
            &&& head.len() + tail.len() <= num_rows
            &&& page.skip_left(n + 1, skip) == rest.skip_left(n, left)
            &&& all.len() == head.len() + tail.len()
            &&& forall|j: int| 0 <= j < head.len() ==> #[trigger] all[j] == head[j]
            &&& forall|j: int|
                0 <= j < tail.len() ==> #[trigger] all[head.len() + j] == (
                    tail[j].0 + 1,
                    tail[j].1,
                )
            &&& forall|j: int| 0 <= j < tail.len() ==> 0 <= (#[trigger] tail[j]).0 < n
        }),
    decreases n,
{
    reveal_with_fuel(BitpackedPageDecoder::rows_picked, 2);
    reveal_with_fuel(BitpackedPageDecoder::skip_left, 2);
    let head = page.rows_picked(1, skip, num_rows);
    let left = page.skip_left(1, skip);
    page.lemma_rows_begun(0, 0);
    if n == 0 {
        assert(head.len() <= num_rows);
    } else {
        lemma_rest(page, rest, n - 1, skip, num_rows);
        let i = n - 1;
        let before = rest.rows_picked(i, left, num_rows - head.len());
        let all_before = page.rows_picked(n, skip, num_rows);
        let s = rest.skip_left(i, left);
        let wanted = num_rows - all_before.len();
        assert(rest.buffer(i) == page.buffer(n));
        assert(rest.rows_in(i) == page.rows_in(n));
        assert(rest.rows_begun(i) == page.rows_begun(n));
        rest.lemma_rows_begun(i, 0);
        let count = rest.rows_read(i, s, wanted);
        assert(count == page.rows_read(n, s, wanted));
        assert(0 <= count <= wanted);
        let tail = rest.rows_picked(n, left, num_rows - head.len());
        let all = page.rows_picked(n + 1, skip, num_rows);
        assert(tail == before + rest.rows_from(i, s, count));
        assert(all == all_before + page.rows_from(n, s, count));
        assert forall|j: int| 0 <= j < head.len() implies #[trigger] all[j] == head[j] by {
            assert(all_before[j] == head[j]);
        }
        assert forall|j: int| 0 <= j < tail.len() implies #[trigger] all[head.len() + j] == (
            tail[j].0 + 1,
            tail[j].1,
        ) && 0 <= tail[j].0 < n by {
            if j < before.len() {
                assert(all_before[head.len() + j] == (before[j].0 + 1, before[j].1));
                assert(0 <= before[j].0 < i);
            } else {
                let k = j - before.len();
                assert(rest.row_bit(i, s + k) == page.row_bit(n, s + k));
            }
        }
        assert forall|j: int| 0 <= j < tail.len() implies 0 <= (#[trigger] tail[j]).0 < n by {
            assert(all[head.len() + j] == (tail[j].0 + 1, tail[j].1) && 0 <= tail[j].0 < n);
        }
    }
}

/// A block with rows of a page and then those of the rest of it ends with the block
/// of the rest.
proof fn lemma_tail_bytes(
    page: BitpackedPageDecoder,
    rest: BitpackedPageDecoder,
    skip: int,
    num_rows: int,
    out: Seq<u8>,
    out_rest: Seq<u8>,
)
    requires
        is_rest_of(rest, page),
        page.bits_per_value > 0,
        0 <= num_rows,
        ({
            let n = page.data@.len() as int;
            let head = page.rows_picked(1, skip, num_rows);
            let left = page.skip_left(1, skip);
            let wanted = num_rows - head.len();
            &&& page.holds_rows(out, page.rows_picked(n, skip, num_rows), num_rows)
            &&& rest.holds_rows(out_rest, rest.rows_picked(n - 1, left, wanted), wanted)
        }),
    ensures
        ({
            let head = page.rows_picked(1, skip, num_rows);
            &&& head.len() <= num_rows
            &&& page.byte_len() * head.len() <= out.len()
            &&& out.skip(page.byte_len() * head.len()) == out_rest
        }),
{
    let n = page.data@.len() as int;
    let head = page.rows_picked(1, skip, num_rows);
    let left = page.skip_left(1, skip);
    let c = head.len() as int;
    let wanted = num_rows - c;
    let w = page.byte_len();
    let all = page.rows_picked(n, skip, num_rows);
    let tail = rest.rows_picked(n - 1, left, wanted);
    lemma_rest(page, rest, n - 1, skip, num_rows);
    assert(0 <= w * c && w * c + w * wanted == w * num_rows && 0 <= w * wanted) by (nonlinear_arith)
        requires
            wanted == num_rows - c,
            0 <= wanted,
            0 <= w,
            0 <= c,
    ;
    let cut = out.skip(w * c);
    assert forall|p: int| 0 <= p < 8 * cut.len() implies #[trigger] bit(cut, p) == bit(
        out_rest,
        p,
    ) by {
        let r = p / (8 * w);
        let k = p % (8 * w);
        assert(w > 0) by (nonlinear_arith)
            requires
                0 <= w,
                0 < w * wanted,
        ;
        lemma_fundamental_div_mod(p, 8 * w);
        assert(0 <= r < wanted && 8 * w * (c + r) == 8 * (w * c) + 8 * w * r) by (nonlinear_arith)
            requires
                p == 8 * w * r + k,
                0 <= k < 8 * w,
                0 <= p < 8 * (w * wanted),
        ;
        assert(value_bit(out, w as nat, c + r, k) == (c + r < all.len() && page.decoded_bit(
            page.buffer(all[c + r].0),
            all[c + r].1,
            k,
        )));
        assert(value_bit(out_rest, w as nat, r, k) == (r < tail.len() && rest.decoded_bit(
            rest.buffer(tail[r].0),
            tail[r].1,
            k,
        )));
        if r < tail.len() {
            assert(all[head.len() + r] == (tail[r].0 + 1, tail[r].1));
            assert(rest.buffer(tail[r].0) == page.buffer(tail[r].0 + 1));
        }
    }
    lemma_same_bits(cut, out_rest);
}

/// A decoded block says of itself what was asked for: as many values as rows were
/// wanted, of the width that values have when they are not packed, and no more bytes
/// than those take. A page without buffers gives zeros.
pub proof fn law_a_block_has_the_size_that_it_says(
    page: BitpackedPageDecoder,
    rows_to_skip: u64,
    num_rows: u64,
    r: Result<DataBlock, Error>,
)
    requires
        call_ensures(BitpackedPageDecoder::decode, (&page, rows_to_skip, num_rows), r),
    ensures
        r matches Ok(DataBlock::FixedWidth(block)) && {
            &&& block.num_values == num_rows
            &&& block.bits_per_value == page.uncompressed_bits_per_value
            &&& block.data.bytes@.len() == block.bits_per_value as int / 8 * block.num_values
            &&& page.data@.len() == 0 ==> number(block.data.bytes@) == 0
        },
{
    if page.data@.len() == 0 {
        lemma_clear(page, num_rows as int, decoded(r).data@);
    }
}

proof fn lemma_clear(page: BitpackedPageDecoder, num_rows: int, out: Seq<u8>)
    requires
        page.holds_rows(out, Seq::empty(), num_rows),
        0 <= num_rows,
    ensures
        number(out) == 0,
{
    let w = page.byte_len();
    lemma_number(out);
    lemma2_to64();
    assert forall|p: int| 0 <= p < 8 * out.len() implies !#[trigger] int_bit(number(out), p) by {
        let r = p / (8 * w);
        let k = p % (8 * w);
        assert(w > 0) by (nonlinear_arith)
            requires
                0 <= w,
                0 < w * num_rows,
        ;
        lemma_fundamental_div_mod(p, 8 * w);
        assert(0 <= r < num_rows) by (nonlinear_arith)
            requires
                p == 8 * w * r + k,
                0 <= k < 8 * w,
                0 <= p < 8 * (w * num_rows),
        ;
        assert(!value_bit(out, w as nat, r, k));
        assert(bit(out, p) == int_bit(number(out), p));
    }
    crate::numbers::lemma_no_high_digits(number(out), 0, 8 * out.len() as int);
}

/// Where at least as many rows are to be skipped as are complete in the first buffer
/// of a page, that buffer counts as skipped by its complete rows, and the rest of
/// the page gives the block.
pub proof fn law_a_skipped_buffer_leaves_the_rest(
    page: BitpackedPageDecoder,
    rest: BitpackedPageDecoder,
    rows_to_skip: u64,
    left: u64,
    num_rows: u64,
    r: Result<DataBlock, Error>,
    r_rest: Result<DataBlock, Error>,
)
    requires
        is_rest_of(rest, page),
        page.bits_per_value > 0,
        rows_to_skip >= complete_rows(page, 0),
        left == rows_to_skip - complete_rows(page, 0),
        call_ensures(BitpackedPageDecoder::decode, (&page, rows_to_skip, num_rows), r),
        call_ensures(BitpackedPageDecoder::decode, (&rest, left, num_rows), r_rest),
    ensures
        decoded(r).data.bytes@ == decoded(r_rest).data.bytes@,
{
    reveal_with_fuel(BitpackedPageDecoder::rows_picked, 2);
    reveal_with_fuel(BitpackedPageDecoder::skip_left, 2);
    let skip = rows_to_skip as int;
    assert(page.rows_in(0) == complete_rows(page, 0));
    let head = page.rows_picked(1, skip, num_rows as int);
    assert(head.len() == 0);
    assert(page.byte_len() * 0 == 0) by (nonlinear_arith);
    lemma_tail_bytes(
        page,
        rest,
        skip,
        num_rows as int,
        decoded(r).data@,
        decoded(r_rest).data@,
    );
    assert(decoded(r).data@.skip(0) =~= decoded(r).data@);
}

/// Where fewer rows are to be skipped than are complete in the first buffer of a
/// page, the block starts with rows of that buffer: value `k` is the one that is
/// packed `rows_to_skip + k` values behind the start of the buffer, up to the last
/// row that starts there. The rest of the block is what the rest of the page gives
/// for the rows that are still wanted, if as many rows are to be skipped there again.
pub proof fn law_a_buffer_is_read_from_the_first_row_that_is_not_skipped(
    page: BitpackedPageDecoder,
    rest: BitpackedPageDecoder,
    rows_to_skip: u64,
    num_rows: u64,
    count: u64,
    wanted: u64,
    r: Result<DataBlock, Error>,
    r_rest: Result<DataBlock, Error>,
)
    requires
        is_rest_of(rest, page),
        1 <= page.bits_per_value <= 8 * (page.uncompressed_bits_per_value as int / 8),
        rows_to_skip < complete_rows(page, 0),
        count == (if num_rows < started_rows(page, 0) - rows_to_skip {
            num_rows as int
        } else {
            started_rows(page, 0) - rows_to_skip
        }),
        wanted == num_rows - count,
        page.buffer_bit_start_offsets@[0] + (rows_to_skip + count) * page.bits_per_value <= 8
            * bytes_contents(page.data@[0]).len(),
        call_ensures(BitpackedPageDecoder::decode, (&page, rows_to_skip, num_rows), r),
        call_ensures(BitpackedPageDecoder::decode, (&rest, rows_to_skip, wanted), r_rest),
    ensures
        ({
            let block = decoded(r);
            let width = block.bits_per_value as int / 8;
            &&& forall|k: int|
                0 <= k < count ==> #[trigger] digits(
                    number(block.data.bytes@),
                    8 * width * k,
                    8 * width,
                ) == integer_in(page, 0, rows_to_skip + k) % (pow2((8 * width) as nat) as int)
            &&& width * count <= block.data.bytes@.len()
            &&& block.data.bytes@.skip(width * count) == decoded(r_rest).data.bytes@
        }),
{
    reveal_with_fuel(BitpackedPageDecoder::rows_picked, 2);
    reveal_with_fuel(BitpackedPageDecoder::skip_left, 2);
    let skip = rows_to_skip as int;
    let n = page.bits_per_value as int;
    let w = page.byte_len();
    let out = decoded(r).data@;
    let src = page.buffer(0);
    let total = page.data@.len() as int;
    assert(page.rows_in(0) == complete_rows(page, 0));
    assert(page.rows_begun(0) == started_rows(page, 0));
    let head = page.rows_picked(1, skip, num_rows as int);
    page.lemma_rows_begun(0, 0);
    assert(head =~= page.rows_from(0, skip, count as int));
    lemma_tail_bytes(page, rest, skip, num_rows as int, out, decoded(r_rest).data@);
    lemma_rest(page, rest, total - 1, skip, num_rows as int);
    let all = page.rows_picked(total, skip, num_rows as int);
    assert forall|k: int| 0 <= k < count implies #[trigger] digits(number(out), 8 * w * k, 8 * w)
        == integer_in(page, 0, skip + k) % (pow2((8 * w) as nat) as int) by {
        let at = page.row_bit(0, skip + k);
        assert(all[k] == head[k]);
        assert(head[k] == (0int, at));
        assert(0 <= at && at + n <= page.row_bit(0, skip + count)) by (nonlinear_arith)
            requires
                at == page.buffer_bit_start_offsets@[0] + (skip + k) * n,
                page.row_bit(0, skip + count) == page.buffer_bit_start_offsets@[0] + (skip + count)
                    * n,
                0 <= skip,
                0 <= k < count,
                1 <= n,
        ;
        assert(w * (k + 1) <= w * num_rows) by (nonlinear_arith)
            requires
                0 <= w,
                k + 1 <= num_rows,
        ;
        assert forall|b: int| 0 <= b < 8 * w implies #[trigger] value_bit(out, w as nat, k, b)
            == page.decoded_bit(src, at, b) by {
            assert(page.buffer(all[k].0) == src);
        }
        lemma_value_read(page, src, at, out, k);
    }
}

/// The number of values of a block that come from the first `n` buffers, if each of
/// them is read from row `skip` on to its last row.
pub open spec fn read_before(page: BitpackedPageDecoder, n: int, skip: int) -> int
    decreases n,
{
    if n <= 0 {
        0
    } else {
        read_before(page, n - 1, skip) + (started_rows(page, n - 1) - skip)
    }
}

/// The rows from the first `n` buffers, where each of them is read.
proof fn lemma_read_through(page: BitpackedPageDecoder, n: int, skip: int, num_rows: int)
    requires
        page.bits_per_value > 0,
        0 <= n,
        0 <= num_rows,
        forall|j: int| 0 <= j < n ==> skip < #[trigger] complete_rows(page, j),
    ensures
        page.skip_left(n, skip) == skip,
        0 <= read_before(page, n, skip),
        page.rows_picked(n, skip, num_rows).len() == (if num_rows < read_before(page, n, skip) {
            num_rows
        } else {
            read_before(page, n, skip)
        }),
    decreases n,
{
    if n > 0 {
        lemma_read_through(page, n - 1, skip, num_rows);
        page.lemma_rows_begun(n - 1, 0);
        assert(page.rows_in(n - 1) == complete_rows(page, n - 1));
        assert(page.rows_begun(n - 1) == started_rows(page, n - 1));
    }
}

/// The rows from the first buffers come first.
proof fn lemma_first_rows(page: BitpackedPageDecoder, a: int, b: int, skip: int, num_rows: int)
    requires
        0 <= a <= b,
    ensures
        page.rows_picked(a, skip, num_rows).len() <= page.rows_picked(b, skip, num_rows).len(),
        forall|j: int|
            0 <= j < page.rows_picked(a, skip, num_rows).len() ==> #[trigger] page.rows_picked(
                b,
                skip,
                num_rows,
            )[j] == page.rows_picked(a, skip, num_rows)[j],
    decreases b - a,
{
    if a < b {
        lemma_first_rows(page, a, b - 1, skip, num_rows);
    }
}

/// A request that starts within the first buffer of a page and runs on starts at the
/// same row in each buffer behind it: value `k` from buffer `i` is the one that is
/// packed `rows_to_skip + k` values behind the start of that buffer, as long as rows
/// are wanted and start there.
pub proof fn law_a_request_starts_at_the_same_row_in_every_buffer(
    page: BitpackedPageDecoder,
    rows_to_skip: u64,
    num_rows: u64,
    i: int,
    k: int,
    r: Result<DataBlock, Error>,
)
    requires
        1 <= page.bits_per_value <= 8 * (page.uncompressed_bits_per_value as int / 8),
        0 <= i < page.data@.len(),
        forall|j: int| 0 <= j <= i ==> rows_to_skip < #[trigger] complete_rows(page, j),
        0 <= k < started_rows(page, i) - rows_to_skip,
        read_before(page, i, rows_to_skip as int) + k < num_rows,
        page.buffer_bit_start_offsets@[i] + (rows_to_skip + k + 1) * page.bits_per_value <= 8
            * bytes_contents(page.data@[i]).len(),
        call_ensures(BitpackedPageDecoder::decode, (&page, rows_to_skip, num_rows), r),
    ensures
        ({
            let block = decoded(r);
            let width = block.bits_per_value as int / 8;
            digits(
                number(block.data.bytes@),
                8 * width * (read_before(page, i, rows_to_skip as int) + k),
                8 * width,
            ) == integer_in(page, i, rows_to_skip + k) % (pow2((8 * width) as nat) as int)
        }),
{
    let skip = rows_to_skip as int;
    let n = page.bits_per_value as int;
    let w = page.byte_len();
    let out = decoded(r).data@;
    let total = page.data@.len() as int;
    let at = page.row_bit(i, skip + k);
    let row = read_before(page, i, skip) + k;
    let all = page.rows_picked(total, skip, num_rows as int);
    lemma_read_through(page, i, skip, num_rows as int);
    lemma_first_rows(page, i + 1, total, skip, num_rows as int);
    page.lemma_rows_begun(i, 0);
    assert(page.rows_in(i) == complete_rows(page, i));
    assert(page.rows_begun(i) == started_rows(page, i));
    let picked = page.rows_picked(i + 1, skip, num_rows as int);
    assert(row < picked.len());
    assert(picked[row] == (i, at));
    assert(all[row] == picked[row]);
    assert((skip + k + 1) * n == (skip + k) * n + n && 0 <= (skip + k) * n) by (nonlinear_arith)
        requires
            0 <= skip,
            0 <= k,
            1 <= n,
    ;
    assert(w * (row + 1) <= w * num_rows) by (nonlinear_arith)
        requires
            0 <= w,
            row + 1 <= num_rows,
    ;
    lemma_value_read(page, page.buffer(i), at, out, row);
}

/// The rows of a buffer are the most that fit between its offsets.
pub proof fn law_a_buffer_has_the_rows_that_fit(
    buffer_len: usize,
    bits_per_value: u64,
    start: u8,
    end: Option<u8>,
    r: u64,
)
    requires
        bits_per_value > 0,
        call_ensures(rows_in_buffer, (buffer_len, bits_per_value, start, end), r),
    ensures
        ({
            let bits = 8 * buffer_len - start - (match end {
                Some(offset) => 8 - offset,
                None => 0,
            });
            r * bits_per_value <= bits < (r + 1) * bits_per_value
        }),
{
    lemma_rows_fit(buffer_len, bits_per_value, start, end, r as int);
}

/// The rows of a buffer can be counted, and skipped, where its offsets lie within it, in
/// order.
pub proof fn law_what_can_be_skipped(
    rows_to_skip: u64,
    buffer_len: usize,
    bits_per_value: u64,
    start: u8,
    end: Option<u8>,
)
    requires
        bits_per_value > 0,
        8 * buffer_len <= usize::MAX,
        start <= 8 * buffer_len - (match end {
            Some(offset) => 8 - offset,
            None => 0,
        }),
        end matches Some(offset) ==> offset <= 8,
    ensures
        call_requires(rows_in_buffer, (buffer_len, bits_per_value, start, end)),
        call_requires(
            compute_start_offset,
            (rows_to_skip, buffer_len, bits_per_value, start, end),
        ),
{
}

proof fn lemma_rows_fit(
    buffer_len: usize,
    bits_per_value: u64,
    start: u8,
    end: Option<u8>,
    rows: int,
)
    requires
        bits_per_value > 0,
        rows == rows_between(buffer_len as int, bits_per_value as int, start, end),
    ensures
        ({
            let bits = 8 * buffer_len - start - (match end {
                Some(offset) => 8 - offset,
                None => 0,
            });
            rows * bits_per_value <= bits < (rows + 1) * bits_per_value
        }),
{
    let n = bits_per_value as int;
    let bits = 8 * buffer_len - start - (match end {
        Some(offset) => 8 - offset,
        None => 0,
    });
    lemma_fundamental_div_mod(bits, n);
    assert(rows * n <= bits < (rows + 1) * n) by (nonlinear_arith)
        requires
            bits == n * rows + bits % n,
            0 <= bits % n < n,
    ;
}

/// Where to start reading: a buffer is skipped as a whole exactly if the first row
/// that is not to be skipped does not fit in it, and then counts for as many rows as
/// fit. Otherwise reading starts at the first bit of that row.
pub proof fn law_reading_starts_at_the_first_row_that_is_not_skipped(
    rows_to_skip: u64,
    buffer_len: usize,
    bits_per_value: u64,
    start: u8,
    end: Option<u8>,
    r: StartOffset,
)
    requires
        bits_per_value > 0,
        call_ensures(
            compute_start_offset,
            (rows_to_skip, buffer_len, bits_per_value, start, end),
            r,
        ),
    ensures
        ({
            let bits = 8 * buffer_len - start - (match end {
                Some(offset) => 8 - offset,
                None => 0,
            });
            match r {
                StartOffset::SkipFull(rows) => {
                    &&& bits < (rows_to_skip + 1) * bits_per_value
                    &&& rows * bits_per_value <= bits < (rows + 1) * bits_per_value
                },
                StartOffset::SkipSome(at) => {
                    &&& (rows_to_skip + 1) * bits_per_value <= bits
                    &&& 8 * at.index + at.bit_offset == start + rows_to_skip * bits_per_value
                    &&& at.bit_offset < 8
                },
            }
        }),
{
    let n = bits_per_value as int;
    let rows = rows_between(buffer_len as int, n, start, end);
    lemma_rows_fit(buffer_len, bits_per_value, start, end, rows);
    assert(rows <= rows_to_skip ==> (rows + 1) * n <= (rows_to_skip + 1) * n) by (nonlinear_arith)
        requires
            0 < n,
    ;
    assert(rows_to_skip < rows ==> (rows_to_skip + 1) * n <= rows * n) by (nonlinear_arith)
        requires
            0 < n,
    ;
}

/// A packed value counts as negative exactly if its highest digit is set, which makes it
/// a negative integer in two's complement.
pub proof fn law_the_sign_of_a_packed_value(
    src: &Bytes,
    src_idx: usize,
    src_offset: u64,
    num_bits: usize,
    r: bool,
)
    requires
        1 <= 8 * src_idx + src_offset + num_bits <= 8 * bytes_contents(*src).len(),
        call_ensures(is_encoded_item_negative, (src, src_idx, src_offset, num_bits), r),
    ensures
        r <==> digits(
            number(bytes_contents(*src)),
            8 * src_idx + src_offset + num_bits - 1,
            1,
        ) == 1,
        num_bits > 0 ==> (r <==> integer_at(
            number(bytes_contents(*src)),
            8 * src_idx + src_offset,
            num_bits as int,
            true,
        ) < 0),
{
    let bytes = bytes_contents(*src);
    let at = 8 * src_idx + src_offset;
    let n = num_bits as int;
    let v = integer_at(number(bytes), at, n, true);
    lemma_number(bytes);
    lemma2_to64();
    assert(bit(bytes, at + (n - 1)) == int_bit(number(bytes), at + (n - 1)));
    if n > 0 {
        lemma_integer_at(number(bytes), at, n, true);
        law_higher_bits_are_the_sign(v, n, true, n);
        assert(int_bit(v, n - 1) == int_bit(number(bytes), at + (n - 1)));
    }
}

/// Whether the widths of a page can be handled, and a block of `num_rows` values can
/// be allocated.
pub open spec fn block_fits(page: BitpackedPageDecoder, num_rows: int) -> bool {
    &&& 1 <= page.bits_per_value <= 64
    &&& page.uncompressed_bits_per_value as int / 8 * num_rows <= usize::MAX
    &&& page.uncompressed_bits_per_value as int / 8 * num_rows <= u64::MAX
    &&& page.data@.len() <= page.buffer_bit_start_offsets@.len()
    &&& page.data@.len() <= page.buffer_bit_end_offsets@.len()
}

/// Whether the offsets of buffer `i` of a page lie within the buffer, in order.
pub open spec fn offsets_lie_within(page: BitpackedPageDecoder, i: int) -> bool {
    &&& 8 * bytes_contents(page.data@[i]).len() <= usize::MAX
    &&& page.buffer_bit_end_offsets@[i] matches Some(offset) ==> offset <= 8
    &&& page.buffer_bit_start_offsets@[i] <= end_of(page, i)
}

/// Whether `count` rows of buffer `i` of a page from row `skip` on lie within the
/// buffer, and each of them has room in an uncompressed value, together with its
/// sign.
pub open spec fn rows_lie_within(
    page: BitpackedPageDecoder,
    i: int,
    skip: int,
    count: int,
) -> bool {
    let room = 8 * (page.uncompressed_bits_per_value as int / 8);
    count > 0 ==> {
        &&& page.bits_per_value <= room
        &&& page.signed && page.uncompressed_bits_per_value != page.bits_per_value
            ==> page.bits_per_value < room
        &&& page.buffer_bit_start_offsets@[i] + (skip + count) * page.bits_per_value <= 8
            * bytes_contents(page.data@[i]).len()
    }
}

/// Rows can be decoded only if a block of them can be allocated and the offsets of
/// every buffer lie within it. For a page without buffers that is all. What can be
/// decoded, `decode` may be called with.
pub proof fn law_what_can_be_decoded(
    page: BitpackedPageDecoder,
    rows_to_skip: u64,
    num_rows: u64,
    r: bool,
)
    requires
        call_ensures(BitpackedPageDecoder::can_decode, (&page, rows_to_skip, num_rows), r),
    ensures
        r ==> block_fits(page, num_rows as int),
        r ==> forall|i: int|
            0 <= i < page.data@.len() ==> #[trigger] offsets_lie_within(page, i),
        page.data@.len() == 0 ==> r == block_fits(page, num_rows as int),
        r ==> call_requires(BitpackedPageDecoder::decode, (&page, rows_to_skip, num_rows)),
{
    if r {
        assert forall|i: int| 0 <= i < page.data@.len() implies #[trigger] offsets_lie_within(
            page,
            i,
        ) by {
            assert(page.buffer_readable(i, rows_to_skip as int, num_rows as int));
        }
    }
}

/// Rows of a page with buffers can be decoded exactly if those that are read from the
/// first buffer lie within it, and the rest of the page can be decoded for the rows
/// that are wanted and skipped there.
pub proof fn law_what_can_be_decoded_of_the_rest(
    page: BitpackedPageDecoder,
    rest: BitpackedPageDecoder,
    rows_to_skip: u64,
    num_rows: u64,
    left: u64,
    count: u64,
    wanted: u64,
    r: bool,
    r_rest: bool,
)
    requires
        is_rest_of(rest, page),
        page.bits_per_value > 0,
        rows_to_skip >= complete_rows(page, 0) ==> count == 0 && left == rows_to_skip
            - complete_rows(page, 0),
        rows_to_skip < complete_rows(page, 0) ==> left == rows_to_skip && count == (if num_rows
            < started_rows(page, 0) - rows_to_skip {
            num_rows as int
        } else {
            started_rows(page, 0) - rows_to_skip
        }),
        wanted == num_rows - count,
        call_ensures(BitpackedPageDecoder::can_decode, (&page, rows_to_skip, num_rows), r),
        call_ensures(BitpackedPageDecoder::can_decode, (&rest, left, wanted), r_rest),
    ensures
        r <==> {
            &&& block_fits(page, num_rows as int)
            &&& offsets_lie_within(page, 0)
            &&& rows_lie_within(page, 0, rows_to_skip as int, count as int)
            &&& r_rest
        },
{
    reveal_with_fuel(BitpackedPageDecoder::rows_picked, 2);
    reveal_with_fuel(BitpackedPageDecoder::skip_left, 2);
    let skip = rows_to_skip as int;
    let num = num_rows as int;
    let w = page.byte_len();
    assert(page.rows_in(0) == complete_rows(page, 0));
    assert(page.rows_begun(0) == started_rows(page, 0));
    page.lemma_rows_begun(0, 0);
    assert(page.rows_picked(1, skip, num).len() == count);
    assert(page.skip_left(1, skip) == left);
    assert(w * wanted <= w * num) by (nonlinear_arith)
        requires
            wanted <= num,
            0 <= w,
    ;
    assert(page.buffer_readable(0, skip, num) == (offsets_lie_within(page, 0) && rows_lie_within(
        page,
        0,
        skip,
        count as int,
    )) || !(1 <= page.bits_per_value <= 64));
    assert forall|i: int| 0 <= i < rest.data@.len() implies page.buffer_readable(i + 1, skip, num)
        == #[trigger] rest.buffer_readable(i, left as int, wanted as int) by {
        lemma_rest(page, rest, i, skip, num);
        assert(rest.buffer(i) == page.buffer(i + 1));
    }
    if r {
        assert(page.buffer_readable(0, skip, num));
        assert forall|i: int| 0 <= i < rest.data@.len() implies #[trigger] rest.buffer_readable(
            i,
            left as int,
            wanted as int,
        ) by {
            assert(page.buffer_readable(i + 1, skip, num));
        }
    }
    if r_rest && block_fits(page, num) && page.buffer_readable(0, skip, num) {
        assert forall|i: int| 0 <= i < page.data@.len() implies #[trigger] page.buffer_readable(
            i,
            skip,
            num,
        ) by {
            if i > 0 {
                assert(rest.buffer_readable(i - 1, left as int, wanted as int));
            }
        }
    }
}

} // verus!
