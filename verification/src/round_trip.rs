//! A column from its fields through the packed bytes and back.
use core::ops::Range;

use bytes::Bytes;
use vstd::arithmetic::power2::pow2;
use vstd::prelude::*;

use crate::array::{value_bit, Array};
use crate::bits::{bit, int_bit};
use crate::block::{DataBlock, EncodedBuffer, EncodedBufferMeta, Error};
use crate::decoder::BitpackedPageDecoder;
use crate::encoder::{total_count, BitpackingBufferEncoder};
use crate::guarantees::{
    has_numbers, integers, is_present, lemma_reading, type_bytes, validity,
};
use crate::laws::{
    answered_from, law_chosen_parameters_lose_nothing, lies_at, rows_of, stays_in_range,
    stored_and_fetched,
};
use crate::numbers::{digits, lemma_lowest_digits, lemma_number, lemma_same_digits, number};
use crate::outside::bytes_contents;
use crate::page_laws::decoded;
use crate::params::{bitpack_params, BitpackParams};
use crate::scheduler::{BitpackedScheduler, ScheduledPage};

verus! {

/// A column that is packed with the parameters that are chosen for it, stored in a
/// file, and asked for by ranges of its rows, comes back: the block has the width of
/// the values of the column, and every row that is not null is the integer that the
/// column holds in it.
///
/// This holds of every request that does not run on from the middle of one range
/// into the next.
pub proof fn law_a_column_comes_back<E>(
    arr: Array,
    params: BitpackParams,
    encoder: BitpackingBufferEncoder,
    columns: &[Array],
    buffer: EncodedBuffer,
    meta: EncodedBufferMeta,
    file: Seq<u8>,
    buffer_offset: u64,
    scheduler: BitpackedScheduler,
    ranges: &[Range<u64>],
    top_level_row: u64,
    page: ScheduledPage,
    data: Vec<Bytes>,
    decoder: BitpackedPageDecoder,
    rows_to_skip: u64,
    num_rows: u64,
    r: Result<DataBlock, Error>,
)
    requires
        validity(arr) matches Some(valid) ==> valid.len() == integers(arr).len(),
        columns@ == seq![arr],
        call_ensures(bitpack_params, (&arr,), Some(params)),
        call_ensures(BitpackingBufferEncoder::new, (params.num_bits, params.signed), encoder),
        call_ensures(
            BitpackingBufferEncoder::encode,
            (&encoder, columns),
            Ok::<(EncodedBuffer, EncodedBufferMeta), Error>((buffer, meta)),
        ),
        lies_at(file, buffer_offset as int, buffer.parts@[0].bytes@),
        call_ensures(
            BitpackedScheduler::new,
            (
                meta.bitpacking->0.bits_per_value,
                meta.bits_per_value,
                buffer_offset,
                meta.bitpacking->0.signed,
            ),
            scheduler,
        ),
        forall|i: int|
            0 <= i < ranges@.len() ==> {
                &&& (#[trigger] ranges@[i]).start <= ranges@[i].end <= integers(arr).len()
                &&& has_numbers(ranges@[i], params.num_bits as int, buffer_offset as int)
            },
        call_ensures(
            BitpackedScheduler::schedule_ranges,
            (&scheduler, ranges, top_level_row),
            page,
        ),
        answered_from(file, page, data),
        forall|i: int|
            0 <= i < data@.len() ==> 8 * (#[trigger] bytes_contents(data@[i])).len() <= usize::MAX,
        call_ensures(
            ScheduledPage::into_decoder::<E>,
            (page, Ok::<Vec<Bytes>, E>(data)),
            Ok::<BitpackedPageDecoder, E>(decoder),
        ),
        stays_in_range(ranges@, rows_to_skip as int, num_rows as int),
        type_bytes(arr) * num_rows <= usize::MAX,
        type_bytes(arr) * num_rows <= u64::MAX,
        call_ensures(BitpackedPageDecoder::decode, (&decoder, rows_to_skip, num_rows), r),
    ensures
        call_requires(BitpackedPageDecoder::decode, (&decoder, rows_to_skip, num_rows)),
        decoded(r).bits_per_value == 8 * type_bytes(arr),
        decoded(r).num_values == num_rows,
        forall|k: int|
            {
                &&& 0 <= k < num_rows
                &&& rows_to_skip + k < rows_of(ranges@).len()
                &&& is_present(
                    integers(arr),
                    validity(arr),
                    #[trigger] rows_of(ranges@)[rows_to_skip + k],
                )
            } ==> digits(
                number(decoded(r).data.bytes@),
                8 * type_bytes(arr) * k,
                8 * type_bytes(arr),
            ) == integers(arr)[rows_of(ranges@)[rows_to_skip + k]] % (pow2(
                (8 * type_bytes(arr)) as nat,
            ) as int),
{
    let w = type_bytes(arr);
    let out = decoded(r).data@;
    let arrays = seq![arr];
    let packed = buffer.parts@[0]@;
    lemma_reading(arr);
    assert(arrays.drop_last() =~= Seq::empty());
    assert(total_count(arrays.drop_last()) == 0);
    assert(total_count(arrays) == arr.count());
    assert(arrays[0] == arr && columns@[0] == arr);
    assert(decoder.uncompressed_bits_per_value == 8 * w);
    assert(decoder.byte_len() == w);
    assert(params.num_bits <= 8 * w);
    assert(arr.wf());
    assert forall|i: int| 0 <= i < ranges@.len() implies scheduler.countable(#[trigger] ranges@[i])
        by {
        assert(has_numbers(ranges@[i], params.num_bits as int, buffer_offset as int));
    }
    assert(stored_and_fetched(
        arrays,
        packed,
        file,
        scheduler,
        ranges@,
        top_level_row,
        page,
        data,
        decoder,
    ));
    law_chosen_parameters_lose_nothing(
        arr,
        params,
        packed,
        file,
        scheduler,
        ranges@,
        top_level_row,
        page,
        data,
        decoder,
        rows_to_skip,
        num_rows,
    );
    lemma_number(out);
    assert forall|k: int|
        {
            &&& 0 <= k < num_rows
            &&& rows_to_skip + k < rows_of(ranges@).len()
            &&& is_present(
                integers(arr),
                validity(arr),
                #[trigger] rows_of(ranges@)[rows_to_skip + k],
            )
        } implies digits(number(out), 8 * w * k, 8 * w) == integers(arr)[rows_of(
        ranges@,
    )[rows_to_skip + k]] % (pow2((8 * w) as nat) as int) by {
        let row = rows_of(ranges@)[rows_to_skip + k];
        let v = integers(arr)[row];
        let at = 8 * w * k;
        assert(arr.slots()[row] == Some(v));
        assert(0 <= at && at + 8 * w <= 8 * (w * num_rows)) by (nonlinear_arith)
            requires
                at == 8 * w * k,
                0 <= k < num_rows,
                0 <= w,
        ;
        assert forall|b: int| 0 <= b < 8 * w implies #[trigger] int_bit(number(out), at + b)
            == int_bit(v, 0 + b) by {
            assert(value_bit(out, decoder.byte_len() as nat, k, b) == int_bit(v, b));
            assert(bit(out, at + b) == int_bit(number(out), at + b));
        }
        lemma_same_digits(number(out), at, v, 0, 8 * w);
        lemma_lowest_digits(v, 8 * w);
    }
}

} // verus!
