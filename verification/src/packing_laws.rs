//! What packing gives: the integers of the columns as the digits of the packed
//! bytes.
use vstd::arithmetic::div_mod::lemma_fundamental_div_mod_converse;
use vstd::arithmetic::power2::pow2;
use vstd::prelude::*;

use crate::array::{Array, ArrayData};
use crate::bits::{bit, copy_bits, int_bit, lemma_same_bits};
use crate::block::{EncodedBuffer, EncodedBufferMeta, Error};
use crate::encoder::{
    array_bits, holds_stream, integers_up_to, pack_array, pack_bits, pack_buffers,
    packed_bits, packed_len, spliced, total_count, BitpackingBufferEncoder,
};
use crate::guarantees::{integers, lemma_reading, type_bytes};
use crate::laws::{all_values, law_packing_ignores_column_boundaries, low_bits};
use crate::numbers::{
    digits, lemma_digits_moved, lemma_lowest_digits, lemma_no_high_digits, lemma_number,
    lemma_same_digits, lemma_zero_digit, number,
};

verus! {

/// The integers of some columns, one column after the other.
pub open spec fn all_integers(arrays: Seq<Array>) -> Seq<int>
    decreases arrays.len(),
{
    if arrays.len() == 0 {
        Seq::empty()
    } else {
        all_integers(arrays.drop_last()) + integers(arrays.last())
    }
}

proof fn lemma_all_integers(arrays: Seq<Array>)
    ensures
        all_values(arrays) == all_integers(arrays),
    decreases arrays.len(),
{
    if arrays.len() > 0 {
        lemma_all_integers(arrays.drop_last());
        lemma_reading(arrays.last());
    }
}

/// Bytes with the same bits in some places have the same digits there.
proof fn lemma_same_place(a: Seq<u8>, i: int, b: Seq<u8>, j: int, n: int)
    requires
        0 <= i,
        0 <= j,
        0 <= n,
        i + n <= 8 * a.len(),
        j + n <= 8 * b.len(),
        forall|k: int| 0 <= k < n ==> #[trigger] bit(a, i + k) == bit(b, j + k),
    ensures
        digits(number(a), i, n) == digits(number(b), j, n),
{
    lemma_number(a);
    lemma_number(b);
    assert forall|k: int| 0 <= k < n implies #[trigger] int_bit(number(a), i + k) == int_bit(
        number(b),
        j + k,
    ) by {
        assert(bit(a, i + k) == bit(b, j + k));
        assert(bit(b, j + k) == int_bit(number(b), j + k));
    }
    lemma_same_digits(number(a), i, number(b), j, n);
}

/// Bytes with the lowest bits of an integer in some place have it there, cut to those
/// bits.
proof fn lemma_integer_there(a: Seq<u8>, i: int, v: int, n: int)
    requires
        0 <= i,
        0 <= n,
        i + n <= 8 * a.len(),
        forall|k: int| 0 <= k < n ==> #[trigger] bit(a, i + k) == int_bit(v, k),
    ensures
        digits(number(a), i, n) == v % (pow2(n as nat) as int),
{
    lemma_number(a);
    assert forall|k: int| 0 <= k < n implies #[trigger] int_bit(number(a), i + k) == int_bit(
        v,
        0 + k,
    ) by {
        assert(bit(a, i + k) == int_bit(v, k));
    }
    lemma_same_digits(number(a), i, v, 0, n);
    lemma_lowest_digits(v, n);
}

/// The position of bit `k` of value `v` in a stream of values of `n` bits.
proof fn lemma_position(v: int, k: int, n: int, count: int)
    requires
        0 <= v < count,
        0 <= k < n,
    ensures
        0 <= n * v,
        n * v + n <= n * count,
        (n * v + k) / n == v,
        (n * v + k) % n == k,
{
    assert(0 <= n * v && n * v + n <= n * count) by (nonlinear_arith)
        requires
            0 <= v < count,
            0 < n,
    ;
    assert(n * v == v * n) by (nonlinear_arith);
    lemma_fundamental_div_mod_converse(n * v + k, n, v, k);
}

/// A stream of integers is the digits of the bytes that hold it.
proof fn lemma_stream_digits(bytes: Seq<u8>, values: Seq<int>, n: int)
    requires
        1 <= n,
        holds_stream(bytes, low_bits(values, n)),
    ensures
        bytes.len() == (n * values.len() + 7) / 8,
        number(bytes) < pow2((n * values.len()) as nat),
        forall|v: int|
            0 <= v < values.len() ==> digits(number(bytes), n * v, n) == (#[trigger] values[v]) % (
            pow2(n as nat) as int),
{
    let stream = low_bits(values, n);
    let count = values.len() as int;
    assert(0 <= n * count && n * count == count * n) by (nonlinear_arith)
        requires
            0 <= n,
            0 <= count,
    ;
    assert(stream.len() == n * count);
    lemma_number(bytes);
    assert forall|k: int| n * count <= k < 8 * bytes.len() implies !#[trigger] int_bit(
        number(bytes),
        k,
    ) by {
        assert(!bit(bytes, k));
    }
    lemma_no_high_digits(number(bytes), n * count, 8 * bytes.len() as int);
    assert forall|v: int| 0 <= v < count implies digits(number(bytes), n * v, n) == (
    #[trigger] values[v]) % (pow2(n as nat) as int) by {
        lemma_position(v, 0, n, count);
        assert forall|k: int| 0 <= k < n implies #[trigger] bit(bytes, n * v + k) == int_bit(
            values[v],
            k,
        ) by {
            lemma_position(v, k, n, count);
            assert(bit(bytes, n * v + k) == stream[n * v + k]);
        }
        lemma_integer_there(bytes, n * v, values[v], n);
    }
}

/// What an encoder makes of columns: one buffer with the low digits of each integer
/// of the columns, one integer right behind the other, and nothing behind the last,
/// together with the widths and the sign that were asked for. A column of another
/// type is refused by its name, the first one if there are several.
pub proof fn law_an_encoded_buffer_is_the_integers(
    num_bits: u64,
    signed_type: bool,
    encoder: BitpackingBufferEncoder,
    arrays: &[Array],
    r: Result<(EncodedBuffer, EncodedBufferMeta), Error>,
)
    requires
        call_ensures(BitpackingBufferEncoder::new, (num_bits, signed_type), encoder),
        call_ensures(BitpackingBufferEncoder::encode, (&encoder, arrays), r),
    ensures
        r is Ok <==> forall|i: int| 0 <= i < arrays@.len() ==> !(#[trigger] arrays@[i] is Other),
        r matches Ok((buffer, meta)) ==> {
            let bytes = buffer.parts@[0].bytes@;
            let values = all_integers(arrays@);
            &&& buffer.parts@.len() == 1
            &&& num_bits > 0 ==> {
                &&& bytes.len() == (num_bits * values.len() + 7) / 8
                &&& forall|v: int|
                    0 <= v < values.len() ==> digits(number(bytes), num_bits * v, num_bits as int)
                        == (#[trigger] values[v]) % (pow2(num_bits as nat) as int)
                &&& number(bytes) < pow2((num_bits * values.len()) as nat)
            }
            &&& meta.bits_per_value == 8 * type_bytes(arrays@[0])
            &&& meta.bitpacking matches Some(bitpacking) && bitpacking.bits_per_value == num_bits
                && bitpacking.signed == signed_type
            &&& meta.compression_scheme is None
        },
        r matches Err(Error::InvalidInput { message }) ==> exists|i: int|
            {
                &&& 0 <= i < arrays@.len()
                &&& #[trigger] arrays@[i] is Other
                &&& forall|j: int| 0 <= j < i ==> !(#[trigger] arrays@[j] is Other)
                &&& message@ == "Invalid data type for bitpacking: "@ + arrays@[i]->data_type@
            },
{
    let n = num_bits as int;
    assert forall|i: int| 0 <= i < arrays@.len() implies (#[trigger] arrays@[i]).is_integer() == !(
    arrays@[i] is Other) by {
        lemma_reading(arrays@[i]);
    }
    match r {
        Ok((buffer, meta)) => {
            let bytes = buffer.parts@[0]@;
            assert forall|i: int| 0 <= i < arrays@.len() implies !(#[trigger] arrays@[i] is Other)
                by {
                assert(arrays@[i].is_integer());
            }
            lemma_all_integers(arrays@);
            if num_bits > 0 {
                law_packing_ignores_column_boundaries(arrays@, num_bits);
                lemma_stream_digits(bytes, all_integers(arrays@), n);
            }
            lemma_reading(arrays@[0]);
        },
        Err(Error::InvalidInput { message }) => {
            let i = choose|i: int|
                {
                    &&& 0 <= i < arrays@.len()
                    &&& integers_up_to(arrays@, i)
                    &&& !(#[trigger] arrays@[i]).is_integer()
                    &&& message@ == crate::encoder::invalid_type_message(arrays@[i])
                };
            assert(arrays@[i] is Other);
            assert forall|j: int| 0 <= j < i implies !(#[trigger] arrays@[j] is Other) by {
                assert(arrays@[j].is_integer());
            }
        },
    }
}

/// Whether two byte strings of the same length agree everywhere but from bit `from` up
/// to bit `to`.
pub open spec fn same_outside(before: Seq<u8>, after: Seq<u8>, from: int, to: int) -> bool {
    &&& after.len() == before.len()
    &&& forall|i: int, n: int|
        0 <= i && 0 <= n && i + n <= 8 * after.len() && (i + n <= from || to <= i)
            ==> #[trigger] digits(number(after), i, n) == digits(number(before), i, n)
}

proof fn lemma_same_outside(before: Seq<u8>, after: Seq<u8>, from: int, to: int)
    requires
        after.len() == before.len(),
        from <= to,
        forall|p: int|
            0 <= p < 8 * after.len() && !(from <= p < to) ==> #[trigger] bit(after, p) == bit(
                before,
                p,
            ),
    ensures
        same_outside(before, after, from, to),
{
    assert forall|i: int, n: int|
        0 <= i && 0 <= n && i + n <= 8 * after.len() && (i + n <= from || to
            <= i) implies #[trigger] digits(number(after), i, n) == digits(number(before), i, n) by {
        lemma_same_place(after, i, before, i, n);
    }
}

/// Copying moves as many digits as are wanted and there from one byte string to the
/// other, leaves the other digits there alone and advances both positions by as much.
pub proof fn law_copied_bits_are_the_digits(
    src: &[u8],
    src_idx: &mut usize,
    src_offset: &mut u64,
    num_bits: u64,
    dst: &mut [u8],
    dst_idx: &mut usize,
    dst_offset: &mut u64,
)
    requires
        *old(src_idx) < src@.len(),
        *old(src_offset) < 8,
        8 * *final(dst_idx) + *final(dst_offset) <= 8 * old(dst)@.len(),
        call_ensures(
            copy_bits,
            (src, src_idx, src_offset, num_bits, dst, dst_idx, dst_offset),
            (),
        ),
    ensures
        ({
            let from = 8 * *old(src_idx) + *old(src_offset);
            let to = 8 * *old(dst_idx) + *old(dst_offset);
            let there = 8 * src@.len() - from;
            let n = 8 * *final(dst_idx) + *final(dst_offset) - to;
            &&& n == (if num_bits <= there {
                num_bits as int
            } else {
                there
            })
            &&& 8 * *final(src_idx) + *final(src_offset) == from + n
            &&& *final(src_offset) < 8
            &&& *final(dst_offset) < 8
            &&& digits(number(final(dst)@), to, n) == digits(number(src@), from, n)
            &&& same_outside(old(dst)@, final(dst)@, to, to + n)
        }),
{
    let from = 8 * *old(src_idx) + *old(src_offset);
    let to = 8 * *old(dst_idx) + *old(dst_offset);
    let n = 8 * *final(dst_idx) + *final(dst_offset) - to;
    lemma_same_outside(old(dst)@, final(dst)@, to, to + n);
    assert forall|k: int| 0 <= k < n implies #[trigger] bit(final(dst)@, to + k) == bit(
        src@,
        from + k,
    ) by {
        assert(from + (to + k) - to == from + k);
    }
    lemma_same_place(final(dst)@, to, src@, from, n);
}

/// Packing takes the lowest `num_bits` digits of every value of `byte_len` bytes, and
/// of an incomplete value at the end what there is of them. They follow each other in
/// the destination, whose other digits are left alone, and the position behind them
/// comes out.
pub proof fn law_packed_bits_are_the_lowest_digits(
    src: &[u8],
    num_bits: u64,
    byte_len: usize,
    dst: &mut [u8],
    dst_idx: &mut usize,
    dst_offset: &mut u8,
    values: int,
    remainder: int,
)
    requires
        1 <= num_bits <= 8 * byte_len,
        0 <= values,
        0 <= remainder < byte_len,
        src@.len() == byte_len * values + remainder,
        8 * *final(dst_idx) + *final(dst_offset) <= 8 * old(dst)@.len(),
        call_ensures(pack_bits, (src, num_bits, byte_len, dst, dst_idx, dst_offset), ()),
    ensures
        ({
            let at = 8 * *old(dst_idx) + *old(dst_offset);
            let end = 8 * *final(dst_idx) + *final(dst_offset);
            let part = if num_bits <= 8 * remainder {
                num_bits as int
            } else {
                8 * remainder
            };
            &&& end == at + num_bits * values + part
            &&& *final(dst_offset) < 8
            &&& forall|v: int|
                0 <= v < values ==> digits(
                    number(final(dst)@),
                    at + #[trigger] (num_bits * v),
                    num_bits as int,
                ) == digits(number(src@), 8 * (byte_len * v), num_bits as int)
            &&& digits(number(final(dst)@), at + num_bits * values, part) == digits(
                number(src@),
                8 * (byte_len * values),
                part,
            )
            &&& same_outside(old(dst)@, final(dst)@, at, end)
        }),
{
    lemma_packed_digits(
        src@,
        num_bits as int,
        byte_len as int,
        old(dst)@,
        final(dst)@,
        8 * *old(dst_idx) + *old(dst_offset),
        values,
        remainder,
    );
}

/// Where there is nothing to pack, nothing changes.
pub proof fn law_packing_nothing_changes_nothing(
    src: &[u8],
    num_bits: u64,
    byte_len: usize,
    dst: &mut [u8],
    dst_idx: &mut usize,
    dst_offset: &mut u8,
)
    requires
        src@.len() == 0,
        *old(dst_offset) < 8,
        call_ensures(pack_bits, (src, num_bits, byte_len, dst, dst_idx, dst_offset), ()),
    ensures
        final(dst)@ == old(dst)@,
        *final(dst_idx) == *old(dst_idx),
        *final(dst_offset) == *old(dst_offset),
{
    lemma_same_bits(final(dst)@, old(dst)@);
}

/// The same of the buffer of a column.
pub proof fn law_packed_buffers_are_the_lowest_digits(
    data: &ArrayData,
    num_bits: u64,
    byte_len: usize,
    dst: &mut [u8],
    dst_idx: &mut usize,
    dst_offset: &mut u8,
    values: int,
    remainder: int,
)
    requires
        1 <= num_bits <= 8 * byte_len,
        0 <= values,
        0 <= remainder < byte_len,
        data.buffers@[0]@.len() == byte_len * values + remainder,
        8 * *final(dst_idx) + *final(dst_offset) <= 8 * old(dst)@.len(),
        call_ensures(pack_buffers, (data, num_bits, byte_len, dst, dst_idx, dst_offset), ()),
    ensures
        ({
            let src = data.buffers@[0]@;
            let at = 8 * *old(dst_idx) + *old(dst_offset);
            let end = 8 * *final(dst_idx) + *final(dst_offset);
            let part = if num_bits <= 8 * remainder {
                num_bits as int
            } else {
                8 * remainder
            };
            &&& end == at + num_bits * values + part
            &&& *final(dst_offset) < 8
            &&& forall|v: int|
                0 <= v < values ==> digits(
                    number(final(dst)@),
                    at + #[trigger] (num_bits * v),
                    num_bits as int,
                ) == digits(number(src), 8 * (byte_len * v), num_bits as int)
            &&& digits(number(final(dst)@), at + num_bits * values, part) == digits(
                number(src),
                8 * (byte_len * values),
                part,
            )
            &&& same_outside(old(dst)@, final(dst)@, at, end)
        }),
{
    lemma_packed_digits(
        data.buffers@[0]@,
        num_bits as int,
        byte_len as int,
        old(dst)@,
        final(dst)@,
        8 * *old(dst_idx) + *old(dst_offset),
        values,
        remainder,
    );
}

proof fn lemma_packed_digits(
    src: Seq<u8>,
    n: int,
    byte_len: int,
    before: Seq<u8>,
    after: Seq<u8>,
    at: int,
    values: int,
    remainder: int,
)
    requires
        1 <= n <= 8 * byte_len,
        0 <= values,
        0 <= at,
        0 <= remainder < byte_len,
        src.len() == byte_len * values + remainder,
        at + packed_bits(src, n, byte_len).len() <= 8 * before.len(),
        spliced(before, after, at, packed_bits(src, n, byte_len)),
    ensures
        ({
            let part = if n <= 8 * remainder {
                n
            } else {
                8 * remainder
            };
            &&& packed_len(src.len() as int, n, byte_len) == n * values + part
            &&& forall|v: int|
                0 <= v < values ==> digits(number(after), at + #[trigger] (n * v), n) == digits(
                    number(src),
                    8 * (byte_len * v),
                    n,
                )
            &&& digits(number(after), at + n * values, part) == digits(
                number(src),
                8 * (byte_len * values),
                part,
            )
            &&& same_outside(before, after, at, at + n * values + part)
        }),
{
    let len = src.len() as int;
    let part = if n <= 8 * remainder {
        n
    } else {
        8 * remainder
    };
    let stream = packed_bits(src, n, byte_len);
    assert(byte_len * values == values * byte_len && n * values == values * n && 0 <= n * values
        && 0 <= byte_len * values) by (nonlinear_arith)
        requires
            0 <= values,
            1 <= n,
            0 < byte_len,
    ;
    lemma_packed_len(len, n, byte_len, values, remainder);
    assert(stream.len() == n * values + part);
    lemma_same_outside(before, after, at, at + n * values + part);
    assert forall|v: int| 0 <= v < values implies digits(number(after), at + #[trigger] (n * v), n)
        == digits(number(src), 8 * (byte_len * v), n) by {
        assert(0 <= byte_len * v && byte_len * v + byte_len <= byte_len * values)
            by (nonlinear_arith)
            requires
                0 <= v < values,
                0 < byte_len,
        ;
        lemma_position(v, 0, n, values);
        assert forall|k: int| 0 <= k < n implies #[trigger] bit(after, at + n * v + k) == bit(
            src,
            8 * (byte_len * v) + k,
        ) by {
            lemma_position(v, k, n, values);
            assert(bit(after, at + n * v + k) == stream[n * v + k]);
            assert(v * (8 * byte_len) == 8 * (byte_len * v)) by (nonlinear_arith);
        }
        lemma_same_place(after, at + n * v, src, 8 * (byte_len * v), n);
    }
    assert forall|k: int| 0 <= k < part implies #[trigger] bit(after, at + n * values + k) == bit(
        src,
        8 * (byte_len * values) + k,
    ) by {
        lemma_position(values, k, n, values + 1);
        assert(bit(after, at + n * values + k) == stream[n * values + k]);
        assert(values * (8 * byte_len) == 8 * (byte_len * values)) by (nonlinear_arith);
    }
    lemma_same_place(after, at + n * values, src, 8 * (byte_len * values), part);
}

/// Packing a column puts its integers, cut to `num_bits` digits, into the destination
/// one behind the other, leaves the other digits there alone and gives the position
/// behind them. A column of another type is refused by its name, and nothing changes.
pub proof fn law_a_packed_column_is_its_integers(
    arr: &Array,
    num_bits: u64,
    dst: &mut [u8],
    dst_idx: &mut usize,
    dst_offset: &mut u8,
    r: Result<(), Error>,
)
    requires
        call_ensures(pack_array, (arr, num_bits, dst, dst_idx, dst_offset), r),
    ensures
        r is Err <==> arr is Other,
        r matches Err(Error::InvalidInput { message }) ==> {
            &&& message@ == "Invalid data type for bitpacking: "@ + arr->data_type@
            &&& final(dst)@ == old(dst)@
            &&& *final(dst_idx) == *old(dst_idx)
            &&& *final(dst_offset) == *old(dst_offset)
        },
        r is Ok ==> {
            let at = 8 * *old(dst_idx) + *old(dst_offset);
            let end = 8 * *final(dst_idx) + *final(dst_offset);
            let values = integers(*arr);
            &&& end == at + num_bits * values.len()
            &&& *final(dst_offset) < 8
            &&& num_bits > 0 && end <= 8 * old(dst)@.len() ==> forall|v: int|
                0 <= v < values.len() ==> digits(
                    number(final(dst)@),
                    at + num_bits * v,
                    num_bits as int,
                ) == (#[trigger] values[v]) % (pow2(num_bits as nat) as int)
            &&& same_outside(old(dst)@, final(dst)@, at, end)
        },
{
    lemma_reading(*arr);
    if r is Ok {
        let n = num_bits as int;
        let at = 8 * *old(dst_idx) + *old(dst_offset);
        let end = 8 * *final(dst_idx) + *final(dst_offset);
        let values = integers(*arr);
        let count = values.len() as int;
        let stream = array_bits(*arr, n);
        assert(n * count == count * n && 0 <= n * count) by (nonlinear_arith)
            requires
                0 <= n,
                0 <= count,
        ;
        lemma_same_outside(old(dst)@, final(dst)@, at, end);
        assert forall|v: int|
            0 <= v < count && n > 0 && end <= 8 * old(dst)@.len() implies digits(
            number(final(dst)@),
            at + n * v,
            n,
        ) == (#[trigger] values[v]) % (pow2(n as nat) as int) by {
            lemma_position(v, 0, n, count);
            assert forall|k: int| 0 <= k < n implies #[trigger] bit(final(dst)@, at + n * v + k)
                == int_bit(values[v], k) by {
                lemma_position(v, k, n, count);
                assert(bit(final(dst)@, at + n * v + k) == stream[n * v + k]);
            }
            lemma_integer_there(final(dst)@, at + n * v, values[v], n);
        }
    }
}

/// Clear digits are clear bits.
proof fn lemma_clear_place(bytes: Seq<u8>, at: int, n: int)
    requires
        0 <= at,
        at + n <= 8 * bytes.len(),
        digits(number(bytes), at, n) == 0,
    ensures
        forall|p: int| at <= p < at + n ==> !#[trigger] bit(bytes, p),
{
    lemma_number(bytes);
    assert forall|p: int| at <= p < at + n implies !#[trigger] bit(bytes, p) by {
        lemma_digits_moved(number(bytes), at, n, p - at);
        lemma_zero_digit(p - at);
    }
}

/// Bits can be copied to where there are as many clear digits.
pub proof fn law_what_can_be_copied(
    src: &[u8],
    src_idx: &mut usize,
    src_offset: &mut u64,
    num_bits: u64,
    dst: &mut [u8],
    dst_idx: &mut usize,
    dst_offset: &mut u64,
    n: int,
)
    requires
        1 <= num_bits <= 64,
        *old(src_idx) < src@.len(),
        *old(src_offset) < 8,
        *old(dst_offset) < 8,
        n == (if num_bits <= 8 * (src@.len() - *old(src_idx)) - *old(src_offset) {
            num_bits as int
        } else {
            8 * (src@.len() - *old(src_idx)) - *old(src_offset)
        }),
        8 * *old(dst_idx) + *old(dst_offset) + n <= 8 * old(dst)@.len(),
        digits(number(old(dst)@), 8 * *old(dst_idx) + *old(dst_offset), n) == 0,
    ensures
        call_requires(
            copy_bits,
            (src, src_idx, src_offset, num_bits, dst, dst_idx, dst_offset),
        ),
{
    lemma_clear_place(old(dst)@, 8 * *old(dst_idx) + *old(dst_offset), n);
}

/// Values can be packed to where there are as many clear digits as they take.
pub proof fn law_what_can_be_packed(
    src: &[u8],
    num_bits: u64,
    byte_len: usize,
    dst: &mut [u8],
    dst_idx: &mut usize,
    dst_offset: &mut u8,
    values: int,
    remainder: int,
    n: int,
)
    requires
        1 <= num_bits <= 8 * byte_len <= u64::MAX,
        num_bits <= 64,
        0 <= values,
        0 <= remainder < byte_len,
        src@.len() == byte_len * values + remainder,
        n == num_bits * values + (if num_bits <= 8 * remainder {
            num_bits as int
        } else {
            8 * remainder
        }),
        *old(dst_offset) < 8,
        8 * *old(dst_idx) + *old(dst_offset) + n <= 8 * old(dst)@.len(),
        digits(number(old(dst)@), 8 * *old(dst_idx) + *old(dst_offset), n) == 0,
    ensures
        call_requires(pack_bits, (src, num_bits, byte_len, dst, dst_idx, dst_offset)),
        forall|data: ArrayData|
            data.buffers@.len() == 1 && #[trigger] data.buffers@[0]@ == src@ ==> call_requires(
                pack_buffers,
                (&data, num_bits, byte_len, dst, dst_idx, dst_offset),
            ),
{
    lemma_packed_len(src@.len() as int, num_bits as int, byte_len as int, values, remainder);
    lemma_clear_place(old(dst)@, 8 * *old(dst_idx) + *old(dst_offset), n);
}

proof fn lemma_packed_len(len: int, n: int, byte_len: int, values: int, remainder: int)
    requires
        1 <= n,
        0 <= values,
        0 <= remainder < byte_len,
        len == byte_len * values + remainder,
    ensures
        packed_len(len, n, byte_len) == n * values + (if n <= 8 * remainder {
            n
        } else {
            8 * remainder
        }),
{
    assert(byte_len * values == values * byte_len && n * values == values * n && 0 <= n * values)
        by (nonlinear_arith)
        requires
            0 <= values,
            1 <= n,
            0 < byte_len,
    ;
    lemma_fundamental_div_mod_converse(len, byte_len, values, remainder);
    assert(len == 0 ==> values == 0) by (nonlinear_arith)
        requires
            len == byte_len * values + remainder,
            0 <= values,
            0 <= remainder,
            0 < byte_len,
    ;
}

/// A column can be packed to where there are as many clear digits as it takes, and one
/// of another type anywhere.
pub proof fn law_what_column_can_be_packed(
    arr: &Array,
    num_bits: u64,
    dst: &mut [u8],
    dst_idx: &mut usize,
    dst_offset: &mut u8,
)
    requires
        !(arr is Other) ==> {
            let at = 8 * *old(dst_idx) + *old(dst_offset);
            let n = num_bits * integers(*arr).len();
            &&& is_width_for(num_bits, *arr)
            &&& *old(dst_offset) < 8
            &&& at + n <= 8 * old(dst)@.len()
            &&& digits(number(old(dst)@), at, n) == 0
        },
    ensures
        call_requires(pack_array, (arr, num_bits, dst, dst_idx, dst_offset)),
{
    lemma_reading(*arr);
    if !(arr is Other) {
        let n = num_bits * integers(*arr).len();
        assert(n == integers(*arr).len() * num_bits) by (nonlinear_arith)
            requires
                n == num_bits * integers(*arr).len(),
        ;
        lemma_clear_place(old(dst)@, 8 * *old(dst_idx) + *old(dst_offset), n);
    }
}

/// The number of slots of some columns.
pub open spec fn all_slots(arrays: Seq<Array>) -> int
    decreases arrays.len(),
{
    if arrays.len() == 0 {
        0
    } else {
        all_slots(arrays.drop_last()) + match arrays.last() {
            Array::Other { len, .. } => len as int,
            arr => integers(arr).len() as int,
        }
    }
}

proof fn lemma_all_slots(arrays: Seq<Array>)
    ensures
        total_count(arrays) == all_slots(arrays),
    decreases arrays.len(),
{
    if arrays.len() > 0 {
        lemma_all_slots(arrays.drop_last());
        lemma_reading(arrays.last());
    }
}

/// Whether a number of bits is one that the values of a column can be packed to.
pub open spec fn is_width_for(num_bits: u64, arr: Array) -> bool {
    &&& 1 <= num_bits <= 64
    &&& integers(arr).len() > 0 ==> num_bits <= 8 * type_bytes(arr)
}

/// Whether the first `n` columns hold integers.
pub open spec fn none_other(arrays: Seq<Array>, n: int) -> bool {
    forall|j: int| 0 <= j < n ==> !(#[trigger] arrays[j] is Other)
}

/// Columns can be encoded exactly if there are some, the number of their slots and of
/// their packed bits can be computed, and the packed width suits each column before
/// the first that is refused. What can be encoded, `encode` may be called with.
pub proof fn law_what_can_be_encoded(
    num_bits: u64,
    signed_type: bool,
    encoder: BitpackingBufferEncoder,
    arrays: &[Array],
    r: bool,
)
    requires
        call_ensures(BitpackingBufferEncoder::new, (num_bits, signed_type), encoder),
        call_ensures(BitpackingBufferEncoder::can_encode, (&encoder, arrays), r),
    ensures
        r <==> {
            &&& arrays@.len() > 0
            &&& all_slots(arrays@) <= usize::MAX
            &&& all_slots(arrays@) * num_bits <= usize::MAX
            &&& forall|i: int|
                0 <= i < arrays@.len() && none_other(arrays@, i + 1) ==> is_width_for(
                    num_bits,
                    #[trigger] arrays@[i],
                )
        },
        r ==> call_requires(BitpackingBufferEncoder::encode, (&encoder, arrays)),
{
    lemma_all_slots(arrays@);
    assert forall|i: int| 0 <= i < arrays@.len() implies (#[trigger] arrays@[i]).is_integer() == !(
    arrays@[i] is Other) && (arrays@[i].is_integer() ==> encoder.suits(arrays@[i]) == is_width_for(
        num_bits,
        arrays@[i],
    )) by {
        lemma_reading(arrays@[i]);
    }
    assert forall|n: int| 0 <= n <= arrays@.len() implies integers_up_to(arrays@, n)
        == #[trigger] none_other(arrays@, n) by {
        if integers_up_to(arrays@, n) {
            assert forall|j: int| 0 <= j < n implies !(#[trigger] arrays@[j] is Other) by {
                assert(arrays@[j].is_integer());
            }
        }
    }
    if r {
        assert forall|i: int|
            0 <= i < arrays@.len() && none_other(arrays@, i + 1) implies is_width_for(
            num_bits,
            #[trigger] arrays@[i],
        ) by {
            assert(encoder.suits(arrays@[i]));
        }
    }
}

} // verus!
