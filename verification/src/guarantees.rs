//! What the calls on columns and on schedules give, said of their arguments and their
//! results alone.
use core::ops::Range;

use bytes::Bytes;
use vstd::arithmetic::power2::{lemma2_to64, pow2};
use vstd::prelude::*;

use crate::array::{Array, ArrayData, NativeInt, PrimitiveArray, SignedInt, UnsignedInt};
use crate::bits::{bit, int_bit};
use crate::decoder::BitpackedPageDecoder;
use crate::numbers::{digits, lemma_lowest_digits, lemma_number, lemma_same_digits, number};
use crate::params::{
    all_fit, bitpack_params, bitpack_params_for_signed_type, bitpack_params_for_type, fits,
    has_value, least_params, BitpackParams,
};
use crate::scheduler::{greatest_end, least_start, BitpackedScheduler, ScheduledPage};

verus! {

/// The integers in the slots of a column, as its fields give them.
pub open spec fn integers(arr: Array) -> Seq<int> {
    match arr {
        Array::UInt8(a) => Seq::new(a.values@.len(), |i: int| a.values@[i] as int),
        Array::UInt16(a) => Seq::new(a.values@.len(), |i: int| a.values@[i] as int),
        Array::UInt32(a) => Seq::new(a.values@.len(), |i: int| a.values@[i] as int),
        Array::UInt64(a) => Seq::new(a.values@.len(), |i: int| a.values@[i] as int),
        Array::Int8(a) => Seq::new(a.values@.len(), |i: int| a.values@[i] as int),
        Array::Int16(a) => Seq::new(a.values@.len(), |i: int| a.values@[i] as int),
        Array::Int32(a) => Seq::new(a.values@.len(), |i: int| a.values@[i] as int),
        Array::Int64(a) => Seq::new(a.values@.len(), |i: int| a.values@[i] as int),
        Array::Other { .. } => Seq::empty(),
    }
}

/// The validity of a column, as its fields give it.
pub open spec fn validity(arr: Array) -> Option<Seq<bool>> {
    let valid = match arr {
        Array::UInt8(a) => a.validity,
        Array::UInt16(a) => a.validity,
        Array::UInt32(a) => a.validity,
        Array::UInt64(a) => a.validity,
        Array::Int8(a) => a.validity,
        Array::Int16(a) => a.validity,
        Array::Int32(a) => a.validity,
        Array::Int64(a) => a.validity,
        Array::Other { .. } => None,
    };
    match valid {
        Some(bools) => Some(bools@),
        None => None,
    }
}

/// Whether slot `i` of a column is there and not null.
pub open spec fn is_present(values: Seq<int>, valid: Option<Seq<bool>>, i: int) -> bool {
    &&& 0 <= i < values.len()
    &&& valid matches Some(bools) ==> bools[i]
}

/// Whether parameters suit the present values of a column and no less would do: there
/// is a sign exactly if a present value is negative, every present value lies in the
/// range that the bits give, and one bit less would be too few for some present value.
pub open spec fn are_least(values: Seq<int>, valid: Option<Seq<bool>>, p: BitpackParams) -> bool {
    let n = p.num_bits as int;
    &&& 1 <= n
    &&& p.signed <==> exists|i: int| #[trigger] is_present(values, valid, i) && values[i] < 0
    &&& forall|i: int| #[trigger]
        is_present(values, valid, i) ==> (if p.signed {
            -pow2((n - 1) as nat) <= values[i] < pow2((n - 1) as nat)
        } else {
            0 <= values[i] < pow2(n as nat)
        })
    &&& n > 1 ==> exists|i: int| #[trigger]
        is_present(values, valid, i) && (if p.signed {
            values[i] < -pow2((n - 2) as nat) || values[i] >= pow2((n - 2) as nat)
        } else {
            values[i] >= pow2((n - 1) as nat)
        })
}

/// The number of bytes of a value of an integer column.
pub open spec fn type_bytes(arr: Array) -> int {
    match arr {
        Array::UInt8(_) | Array::Int8(_) => 1,
        Array::UInt16(_) | Array::Int16(_) => 2,
        Array::UInt32(_) | Array::Int32(_) => 4,
        Array::UInt64(_) | Array::Int64(_) => 8,
        Array::Other { .. } => 0,
    }
}

/// A native value stands for itself, in as many bytes as its type has.
pub proof fn law_native_values_stand_for_themselves()
    ensures
        forall|v: u8| #[trigger] v.value() == v,
        forall|v: u16| #[trigger] v.value() == v,
        forall|v: u32| #[trigger] v.value() == v,
        forall|v: u64| #[trigger] v.value() == v,
        forall|v: i8| #[trigger] v.value() == v,
        forall|v: i16| #[trigger] v.value() == v,
        forall|v: i32| #[trigger] v.value() == v,
        forall|v: i64| #[trigger] v.value() == v,
        <u8 as NativeInt>::width() == 1,
        <u16 as NativeInt>::width() == 2,
        <u32 as NativeInt>::width() == 4,
        <u64 as NativeInt>::width() == 8,
        <i8 as NativeInt>::width() == 1,
        <i16 as NativeInt>::width() == 2,
        <i32 as NativeInt>::width() == 4,
        <i64 as NativeInt>::width() == 8,
{
}

/// The pattern of a native value is the value in two's complement.
pub proof fn law_patterns_are_the_values()
    ensures
        forall|v: u8, r: u64|
            call_ensures(<u8 as NativeInt>::to_pattern, (v,), r) ==> r == v as int % (pow2(
                64,
            ) as int),
        forall|v: u16, r: u64|
            call_ensures(<u16 as NativeInt>::to_pattern, (v,), r) ==> r == v as int % (pow2(
                64,
            ) as int),
        forall|v: u32, r: u64|
            call_ensures(<u32 as NativeInt>::to_pattern, (v,), r) ==> r == v as int % (pow2(
                64,
            ) as int),
        forall|v: u64, r: u64|
            call_ensures(<u64 as NativeInt>::to_pattern, (v,), r) ==> r == v as int % (pow2(
                64,
            ) as int),
        forall|v: i8, r: u64|
            call_ensures(<i8 as NativeInt>::to_pattern, (v,), r) ==> r == v as int % (pow2(
                64,
            ) as int),
        forall|v: i16, r: u64|
            call_ensures(<i16 as NativeInt>::to_pattern, (v,), r) ==> r == v as int % (pow2(
                64,
            ) as int),
        forall|v: i32, r: u64|
            call_ensures(<i32 as NativeInt>::to_pattern, (v,), r) ==> r == v as int % (pow2(
                64,
            ) as int),
        forall|v: i64, r: u64|
            call_ensures(<i64 as NativeInt>::to_pattern, (v,), r) ==> r == v as int % (pow2(
                64,
            ) as int),
{
    lemma2_to64();
}

/// What the library reads from a column is what its fields hold.
pub proof fn lemma_reading(arr: Array)
    ensures
        arr.raw() == integers(arr),
        arr.is_integer() ==> arr.count() == integers(arr).len(),
        arr.is_integer() <==> !(arr is Other),
        arr.width() == type_bytes(arr),
        arr.slots().len() == integers(arr).len(),
        forall|i: int|
            0 <= i < integers(arr).len() ==> #[trigger] arr.slots()[i] == (if is_present(
                integers(arr),
                validity(arr),
                i,
            ) {
                Some(integers(arr)[i])
            } else {
                None
            }),
{
    assert(arr.raw() =~= integers(arr));
}

/// The slot of a column holds its value exactly if the column has no validity, or
/// the validity says so of that slot.
pub proof fn law_a_slot_is_null_if_its_validity_says_so<T: NativeInt>(
    arr: PrimitiveArray<T>,
    i: usize,
    r: Option<T>,
)
    requires
        call_ensures(PrimitiveArray::<T>::get, (&arr, i), r),
    ensures
        r is Some <==> (arr.validity is None || arr.validity->0@[i as int]),
        r matches Some(v) ==> v == arr.values@[i as int],
{
}

/// A column is made of what it is given.
pub proof fn law_a_column_keeps_what_it_is_made_of<T: NativeInt>(
    values: Vec<T>,
    valid: Option<Vec<bool>>,
    r: PrimitiveArray<T>,
)
    requires
        call_ensures(PrimitiveArray::<T>::new, (values, valid), r),
    ensures
        r.values == values,
        r.validity == valid,
{
}

/// A column, and each of its slots, can be read if there is a validity for every slot
/// or for none.
pub proof fn law_what_can_be_read<T: NativeInt>(arr: PrimitiveArray<T>, i: usize)
    requires
        arr.validity matches Some(valid) ==> valid@.len() == arr.values@.len(),
        i < arr.values@.len(),
    ensures
        call_requires(PrimitiveArray::<T>::new, (arr.values, arr.validity)),
        call_requires(PrimitiveArray::<T>::get, (&arr, i)),
{
}

/// Parameters can be computed, and the buffer taken, of every column with a validity
/// for every slot or for none.
pub proof fn law_what_has_parameters(arr: Array)
    requires
        validity(arr) matches Some(valid) ==> valid.len() == integers(arr).len(),
    ensures
        call_requires(bitpack_params, (&arr,)),
        call_requires(Array::len, (&arr,)),
        !(arr is Other) ==> call_requires(Array::byte_width, (&arr,)),
        !(arr is Other) ==> call_requires(Array::to_data, (&arr,)),
{
    lemma_reading(arr);
}

/// The size and the value width of a column.
pub proof fn law_column_sizes(arr: Array, size: usize, width: usize)
    requires
        call_ensures(Array::len, (&arr,), size),
        call_ensures(Array::byte_width, (&arr,), width),
    ensures
        size == (match arr {
            Array::Other { len, .. } => len as int,
            _ => integers(arr).len() as int,
        }),
        !(arr is Other) ==> width == type_bytes(arr),
{
    lemma_reading(arr);
}

/// The buffer of a column is one byte string, in which every slot has as many bytes
/// as its type, and those bytes are the value, negative values in two's complement.
pub proof fn law_column_bytes_are_its_values(arr: Array, data: ArrayData)
    requires
        !(arr is Other),
        call_ensures(Array::to_data, (&arr,), data),
    ensures
        data.buffers@.len() == 1,
        data.buffers@[0]@.len() == type_bytes(arr) * integers(arr).len(),
        forall|i: int|
            0 <= i < integers(arr).len() ==> digits(
                number(data.buffers@[0]@),
                8 * type_bytes(arr) * i,
                8 * type_bytes(arr),
            ) == (#[trigger] integers(arr)[i]) % (pow2((8 * type_bytes(arr)) as nat) as int),
{
    lemma_reading(arr);
    let bytes = data.buffers@[0]@;
    let w = type_bytes(arr);
    let count = integers(arr).len() as int;
    assert(w * count == count * w) by (nonlinear_arith);
    lemma_number(bytes);
    assert forall|i: int| 0 <= i < count implies digits(number(bytes), 8 * w * i, 8 * w) == (
    #[trigger] integers(arr)[i]) % (pow2((8 * w) as nat) as int) by {
        let v = integers(arr)[i];
        let at = 8 * w * i;
        assert(0 <= at && at + 8 * w <= 8 * (count * w)) by (nonlinear_arith)
            requires
                at == 8 * w * i,
                0 <= i < count,
                w >= 0,
        ;
        assert forall|k: int| 0 <= k < 8 * w implies #[trigger] int_bit(number(bytes), at + k)
            == int_bit(v, 0 + k) by {
            assert(crate::array::value_bit(bytes, w as nat, i, k) == int_bit(arr.raw()[i], k));
            assert(bit(bytes, at + k) == int_bit(number(bytes), at + k));
        }
        lemma_same_digits(number(bytes), at, v, 0, 8 * w);
        lemma_lowest_digits(v, 8 * w);
    }
}

/// The parameters of slots are the least of their values.
proof fn lemma_least(
    slots: Seq<Option<int>>,
    values: Seq<int>,
    valid: Option<Seq<bool>>,
    r: Option<BitpackParams>,
)
    requires
        slots.len() == values.len(),
        forall|i: int|
            0 <= i < values.len() ==> #[trigger] slots[i] == (if is_present(values, valid, i) {
                Some(values[i])
            } else {
                None
            }),
        r is Some <==> has_value(slots),
        r matches Some(p) ==> least_params(slots, p),
    ensures
        r is Some <==> exists|i: int| #[trigger] is_present(values, valid, i),
        r matches Some(p) ==> are_least(values, valid, p),
{
    if exists|i: int| #[trigger] is_present(values, valid, i) {
        let i = choose|i: int| #[trigger] is_present(values, valid, i);
        assert(slots[i] is Some);
    }
    if let Some(p) = r {
        let n = p.num_bits as int;
        let j = choose|j: int| 0 <= j < slots.len() && (#[trigger] slots[j]) is Some;
        assert(is_present(values, valid, j));
        if p.signed {
            let i = choose|i: int|
                0 <= i < slots.len() && ((#[trigger] slots[i]) matches Some(v) && v < 0);
            assert(is_present(values, valid, i));
        }
        assert forall|i: int| #[trigger] is_present(values, valid, i) implies (values[i] < 0
            ==> p.signed) && fits(values[i], n, p.signed) by {
            assert(slots[i] == Some(values[i]));
        }
        if n > 1 {
            assert(!all_fit(slots, n - 1, p.signed));
            let i = choose|i: int|
                0 <= i < slots.len() && !((#[trigger] slots[i]) matches Some(v) ==> fits(
                    v,
                    n - 1,
                    p.signed,
                ));
            assert(is_present(values, valid, i));
            assert(slots[i] == Some(values[i]));
            if !p.signed {
                assert(fits(values[i], n, p.signed));
            }
        }
    }
}

/// A column has parameters exactly if it holds integers and a slot is present, and
/// they are the least that hold every present value.
pub proof fn law_parameters_are_the_least_that_hold_every_value(
    arr: Array,
    r: Option<BitpackParams>,
)
    requires
        call_ensures(bitpack_params, (&arr,), r),
    ensures
        r is Some <==> exists|i: int| #[trigger] is_present(integers(arr), validity(arr), i),
        r matches Some(p) ==> {
            &&& are_least(integers(arr), validity(arr), p)
            &&& p.num_bits <= 8 * type_bytes(arr)
        },
{
    lemma_reading(arr);
    lemma_least(arr.slots(), integers(arr), validity(arr), r);
}

/// The integers in the slots of a column of one type.
pub open spec fn values_of<T: NativeInt>(arr: PrimitiveArray<T>) -> Seq<int> {
    Seq::new(arr.values@.len(), |i: int| arr.values@[i].value())
}

/// The validity of a column of one type.
pub open spec fn validity_of<T: NativeInt>(arr: PrimitiveArray<T>) -> Option<Seq<bool>> {
    match arr.validity {
        Some(bools) => Some(bools@),
        None => None,
    }
}

/// The same of a column of an unsigned type.
pub proof fn law_unsigned_parameters_are_the_least<T: UnsignedInt>(
    arr: PrimitiveArray<T>,
    r: Option<BitpackParams>,
)
    requires
        call_ensures(bitpack_params_for_type::<T>, (&arr,), r),
    ensures
        r is Some <==> exists|i: int| #[trigger] is_present(values_of(arr), validity_of(arr), i),
        r matches Some(p) ==> {
            &&& are_least(values_of(arr), validity_of(arr), p)
            &&& p.num_bits <= 8 * T::width()
        },
{
    lemma_least(arr.slots(), values_of(arr), validity_of(arr), r);
}

/// The same of a column of a signed type.
pub proof fn law_signed_parameters_are_the_least<T: SignedInt>(
    arr: PrimitiveArray<T>,
    r: Option<BitpackParams>,
)
    requires
        call_ensures(bitpack_params_for_signed_type::<T>, (&arr,), r),
    ensures
        r is Some <==> exists|i: int| #[trigger] is_present(values_of(arr), validity_of(arr), i),
        r matches Some(p) ==> {
            &&& are_least(values_of(arr), validity_of(arr), p)
            &&& p.num_bits <= 8 * T::width()
        },
{
    lemma_least(arr.slots(), values_of(arr), validity_of(arr), r);
}

/// What is scheduled for some ranges of rows of a packed buffer: for each of them
/// the bytes from the one with its first bit to the one with its last bit, counted
/// from the start of the file, and the bits by which the first and the last row lie
/// off the ends of those bytes. The widths, the sign and the row of the request are
/// passed on as they were given.
pub proof fn law_scheduled_bytes_and_offsets_meet_the_rows(
    bits_per_value: u64,
    uncompressed_bits_per_value: u64,
    buffer_offset: u64,
    signed: bool,
    scheduler: BitpackedScheduler,
    ranges: &[Range<u64>],
    top_level_row: u64,
    page: ScheduledPage,
)
    requires
        call_ensures(
            BitpackedScheduler::new,
            (bits_per_value, uncompressed_bits_per_value, buffer_offset, signed),
            scheduler,
        ),
        call_ensures(
            BitpackedScheduler::schedule_ranges,
            (&scheduler, ranges, top_level_row),
            page,
        ),
    ensures
        page.byte_ranges@.len() == ranges@.len(),
        page.buffer_bit_start_offsets@.len() == ranges@.len(),
        page.buffer_bit_end_offsets@.len() == ranges@.len(),
        forall|i: int|
            0 <= i < ranges@.len() ==> {
                let range = #[trigger] ranges@[i];
                let bytes = page.byte_ranges@[i];
                &&& 8 * (bytes.start - buffer_offset) + page.buffer_bit_start_offsets@[i]
                    == range.start * bits_per_value
                &&& page.buffer_bit_start_offsets@[i] < 8
                &&& match page.buffer_bit_end_offsets@[i] {
                    None => 8 * (bytes.end - buffer_offset) == range.end * bits_per_value,
                    Some(offset) => {
                        &&& 0 < offset < 8
                        &&& 8 * (bytes.end - buffer_offset) - (8 - offset) == range.end
                            * bits_per_value
                    },
                }
            },
        page.top_level_row == top_level_row,
        page.bits_per_value == bits_per_value,
        page.uncompressed_bits_per_value == uncompressed_bits_per_value,
        page.signed == signed,
{
    assert forall|i: int| 0 <= i < ranges@.len() implies {
        let range = #[trigger] ranges@[i];
        let bytes = page.byte_ranges@[i];
        &&& 8 * (bytes.start - buffer_offset) + page.buffer_bit_start_offsets@[i] == range.start
            * bits_per_value
        &&& page.buffer_bit_start_offsets@[i] < 8
        &&& match page.buffer_bit_end_offsets@[i] {
            None => 8 * (bytes.end - buffer_offset) == range.end * bits_per_value,
            Some(offset) => {
                &&& 0 < offset < 8
                &&& 8 * (bytes.end - buffer_offset) - (8 - offset) == range.end * bits_per_value
            },
        }
    } by {
        let range = ranges@[i];
        let first = range.start * bits_per_value;
        let last = range.end * bits_per_value;
        assert(page.byte_ranges@[i].start == buffer_offset + first / 8);
        assert(page.byte_ranges@[i].end == buffer_offset + (last + 7) / 8);
    }
}

/// The spread of a request is the least range that holds every byte range of it.
pub proof fn law_the_spread_is_the_hull_of_the_bytes(
    scheduler: BitpackedScheduler,
    ranges: &[Range<u64>],
    top_level_row: u64,
    page: ScheduledPage,
)
    requires
        call_ensures(
            BitpackedScheduler::schedule_ranges,
            (&scheduler, ranges, top_level_row),
            page,
        ),
    ensures
        forall|i: int|
            0 <= i < page.byte_ranges@.len() ==> page.spread.start <= (
            #[trigger] page.byte_ranges@[i]).start && page.byte_ranges@[i].end <= page.spread.end,
        page.byte_ranges@.len() == 0 ==> page.spread.start == u64::MAX && page.spread.end == 0,
        page.byte_ranges@.len() > 0 ==> exists|i: int|
            0 <= i < page.byte_ranges@.len() && page.spread.start == (
            #[trigger] page.byte_ranges@[i]).start,
        page.byte_ranges@.len() > 0 ==> exists|i: int|
            0 <= i < page.byte_ranges@.len() && page.spread.end == (
            #[trigger] page.byte_ranges@[i]).end,
{
    lemma_hull(page.byte_ranges@);
}

proof fn lemma_hull(ranges: Seq<Range<u64>>)
    ensures
        forall|i: int|
            0 <= i < ranges.len() ==> least_start(ranges) <= (#[trigger] ranges[i]).start
                && ranges[i].end <= greatest_end(ranges),
        ranges.len() == 0 ==> least_start(ranges) == u64::MAX && greatest_end(ranges) == 0,
        ranges.len() > 0 ==> exists|i: int|
            0 <= i < ranges.len() && least_start(ranges) == (#[trigger] ranges[i]).start,
        ranges.len() > 0 ==> exists|i: int|
            0 <= i < ranges.len() && greatest_end(ranges) == (#[trigger] ranges[i]).end,
    decreases ranges.len(),
{
    if ranges.len() > 0 {
        let rest = ranges.drop_last();
        lemma_hull(rest);
        let last = ranges[ranges.len() - 1];
        assert forall|i: int| 0 <= i < ranges.len() implies least_start(ranges) <= (
        #[trigger] ranges[i]).start && ranges[i].end <= greatest_end(ranges) by {
            if i < rest.len() {
                assert(rest[i] == ranges[i]);
            }
        }
        if rest.len() > 0 {
            let a = choose|i: int|
                0 <= i < rest.len() && least_start(rest) == (#[trigger] rest[i]).start;
            let b = choose|i: int|
                0 <= i < rest.len() && greatest_end(rest) == (#[trigger] rest[i]).end;
            assert(rest[a] == ranges[a] && rest[b] == ranges[b]);
        }
        assert(least_start(ranges) == last.start || (rest.len() > 0 && least_start(ranges)
            == least_start(rest)));
        assert(greatest_end(ranges) == last.end || (rest.len() > 0 && greatest_end(ranges)
            == greatest_end(rest)));
    }
}

/// Whether 64 bits hold the number of each bit and byte of a range of rows in a
/// buffer of values of `n` bits that starts at byte `at`.
pub open spec fn has_numbers(range: Range<u64>, n: int, at: int) -> bool {
    &&& range.start * n <= u64::MAX
    &&& range.end * n <= u64::MAX
    &&& at + range.start * n / 8 <= u64::MAX
    &&& at + (range.end * n + 7) / 8 <= u64::MAX
}

/// Ranges can be scheduled exactly if 64 bits hold the number of each bit and of
/// each byte that is asked for, and then `schedule_ranges` may be called.
pub proof fn law_what_can_be_scheduled(
    bits_per_value: u64,
    uncompressed_bits_per_value: u64,
    buffer_offset: u64,
    signed: bool,
    scheduler: BitpackedScheduler,
    ranges: &[Range<u64>],
    top_level_row: u64,
    r: bool,
)
    requires
        call_ensures(
            BitpackedScheduler::new,
            (bits_per_value, uncompressed_bits_per_value, buffer_offset, signed),
            scheduler,
        ),
        call_ensures(BitpackedScheduler::can_schedule, (&scheduler, ranges), r),
    ensures
        r <==> forall|i: int|
            0 <= i < ranges@.len() ==> has_numbers(
                #[trigger] ranges@[i],
                bits_per_value as int,
                buffer_offset as int,
            ),
        r ==> call_requires(
            BitpackedScheduler::schedule_ranges,
            (&scheduler, ranges, top_level_row),
        ),
{
    assert forall|i: int| 0 <= i < ranges@.len() implies has_numbers(
        #[trigger] ranges@[i],
        bits_per_value as int,
        buffer_offset as int,
    ) == scheduler.countable(ranges@[i]) by {}
}

/// The decoder of a request has the reply to it and all that the request says, and
/// an error in place of a reply comes out as it went in.
pub proof fn law_the_decoder_has_what_was_scheduled<E>(
    page: ScheduledPage,
    reply: Result<Vec<Bytes>, E>,
    r: Result<BitpackedPageDecoder, E>,
)
    requires
        call_ensures(ScheduledPage::into_decoder::<E>, (page, reply), r),
    ensures
        match reply {
            Ok(data) => r matches Ok(decoder) && {
                &&& decoder.data == data
                &&& decoder.bits_per_value == page.bits_per_value
                &&& decoder.uncompressed_bits_per_value == page.uncompressed_bits_per_value
                &&& decoder.signed == page.signed
                &&& decoder.buffer_bit_start_offsets == page.buffer_bit_start_offsets
                &&& decoder.buffer_bit_end_offsets == page.buffer_bit_end_offsets
            },
            Err(e) => r matches Err(error) && error == e,
        },
{
}

} // verus!
