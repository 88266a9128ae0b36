//! Packing the values of columns into a stream of bits.
use vstd::arithmetic::div_mod::lemma_fundamental_div_mod_converse;
use vstd::prelude::*;

use arrow::util::bit_util::ceil;

use crate::array::{holds_values, value_bit, Array, ArrayData};
use crate::bits::{bit, bytes_for, copied, copy_bits, int_bit, lemma_zero_bits, min_int};
use crate::block::{BitpackingBufferMeta, EncodedBuffer, EncodedBufferMeta, Error, LanceBuffer};

verus! {

/// The number of bits that packing takes from `src_len` bytes, of which every
/// `byte_len` bytes hold a value. An incomplete value at the end gives the bits
/// that it has.
pub open spec fn packed_len(src_len: int, num_bits: int, byte_len: int) -> int {
    if src_len == 0 {
        0
    } else {
        (src_len / byte_len) * num_bits + min_int(num_bits, 8 * (src_len % byte_len))
    }
}

/// The lowest `num_bits` bits of each value, one value after the other.
pub open spec fn packed_bits(src: Seq<u8>, num_bits: int, byte_len: int) -> Seq<bool> {
    Seq::new(
        packed_len(src.len() as int, num_bits, byte_len) as nat,
        |j: int| bit(src, (j / num_bits) * (8 * byte_len) + j % num_bits),
    )
}

/// There are `n` clear bits from bit `at` on.
pub open spec fn has_room(dst: Seq<u8>, at: int, n: int) -> bool {
    n > 0 ==> {
        &&& at + n <= 8 * dst.len()
        &&& forall|p: int| at <= p < at + n ==> !#[trigger] bit(dst, p)
    }
}

/// `after` is `before` with the bits from bit `at` on replaced by a stream.
pub open spec fn spliced(before: Seq<u8>, after: Seq<u8>, at: int, stream: Seq<bool>) -> bool {
    &&& after.len() == before.len()
    &&& forall|p: int|
        0 <= p < 8 * after.len() ==> #[trigger] bit(after, p) == (if at <= p < at + stream.len() {
            stream[p - at]
        } else {
            bit(before, p)
        })
}

proof fn lemma_next_value(len: int, byte_len: int, num_bits: int, v: int)
    requires
        byte_len > 0,
        num_bits > 0,
        0 <= v,
        v * byte_len < len,
    ensures
        ({
            let n = min_int(num_bits, 8 * (len - v * byte_len));
            let total = packed_len(len, num_bits, byte_len);
            &&& len - v * byte_len < byte_len ==> total == v * num_bits + n
            &&& len - v * byte_len >= byte_len && num_bits <= 8 * byte_len ==> {
                &&& n == num_bits
                &&& total >= v * num_bits + n
            }
            &&& len - v * byte_len == byte_len ==> total == (v + 1) * num_bits
            &&& (v + 1) * num_bits == v * num_bits + num_bits
            &&& (v + 1) * byte_len == v * byte_len + byte_len
        }),
{
    let r = len - v * byte_len;
    let q = len / byte_len;
    assert((v + 1) * num_bits == v * num_bits + num_bits) by (nonlinear_arith);
    assert((v + 1) * byte_len == v * byte_len + byte_len) by (nonlinear_arith);
    if r < byte_len {
        lemma_fundamental_div_mod_converse(len, byte_len, v, r);
    } else {
        if r == byte_len {
            lemma_fundamental_div_mod_converse(len, byte_len, v + 1, 0);
        }
        vstd::arithmetic::div_mod::lemma_fundamental_div_mod(len, byte_len);
        assert(q >= v + 1) by (nonlinear_arith)
            requires
                len == byte_len * q + len % byte_len,
                0 <= len % byte_len < byte_len,
                len >= v * byte_len + byte_len,
                byte_len > 0,
        ;
        assert(q * num_bits >= (v + 1) * num_bits) by (nonlinear_arith)
            requires
                q >= v + 1,
                num_bits > 0,
        ;
    }
}

/// Copying the low bits of the next value adds them to the packed bits.
proof fn lemma_value_packed(
    src: Seq<u8>,
    num_bits: int,
    byte_len: int,
    at: int,
    v: int,
    n: int,
    before: Seq<u8>,
    dst: Seq<u8>,
    after: Seq<u8>,
)
    requires
        0 <= v,
        0 <= n <= num_bits,
        0 < num_bits,
        0 <= v * num_bits,
        v * num_bits + n <= packed_bits(src, num_bits, byte_len).len(),
        spliced(before, dst, at, packed_bits(src, num_bits, byte_len).take(v * num_bits)),
        copied(src, 8 * (v * byte_len), dst, after, at + v * num_bits, n),
    ensures
        spliced(before, after, at, packed_bits(src, num_bits, byte_len).take(v * num_bits + n)),
{
    let done = v * num_bits;
    let stream = packed_bits(src, num_bits, byte_len);
    assert forall|p: int| 0 <= p < 8 * after.len() implies #[trigger] bit(after, p) == (if at <= p
        < at + done + n {
        stream.take(done + n)[p - at]
    } else {
        bit(before, p)
    }) by {
        let j = p - at;
        assert(bit(dst, p) == (if at <= p < at + done {
            stream.take(done)[p - at]
        } else {
            bit(before, p)
        }));
        if at + done <= p < at + done + n {
            lemma_fundamental_div_mod_converse(j, num_bits, v, j - done);
            assert(v * (8 * byte_len) == 8 * (v * byte_len)) by (nonlinear_arith);
        }
    }
}

/// Packs the lowest `num_bits` bits of each value of `byte_len` bytes in `src`
/// into `dst`, from bit `dst_offset` of byte `dst_idx` on, and advances that
/// position.
#[verifier::rlimit(40)]
pub fn pack_bits(
    src: &[u8],
    num_bits: u64,
    byte_len: usize,
    dst: &mut [u8],
    dst_idx: &mut usize,
    dst_offset: &mut u8,
)
    requires
        1 <= num_bits <= 64,
        byte_len * 8 <= u64::MAX,
        src@.len() > 0 ==> num_bits <= 8 * byte_len,
        *old(dst_offset) < 8,
        has_room(
            old(dst)@,
            8 * *old(dst_idx) + *old(dst_offset),
            packed_len(src@.len() as int, num_bits as int, byte_len as int),
        ),
    ensures
        spliced(
            old(dst)@,
            final(dst)@,
            8 * *old(dst_idx) + *old(dst_offset),
            packed_bits(src@, num_bits as int, byte_len as int),
        ),
        *final(dst_offset) < 8,
        8 * *final(dst_idx) + *final(dst_offset) == 8 * *old(dst_idx) + *old(dst_offset)
            + packed_len(src@.len() as int, num_bits as int, byte_len as int),
{
    let bit_len: u64 = byte_len as u64 * 8;
    let ghost at: int = 8 * *dst_idx + *dst_offset;
    let ghost total = packed_len(src@.len() as int, num_bits as int, byte_len as int);
    let ghost stream = packed_bits(src@, num_bits as int, byte_len as int);
    let ghost mut v: int = 0;
    let ghost mut done: int = 0;
    let mut src_idx: usize = 0;
    proof {
        if src@.len() > 0 {
            lemma_next_value(src@.len() as int, byte_len as int, num_bits as int, 0);
        }
    }
    while src_idx < src.len()
        invariant
            1 <= num_bits <= 64,
            bit_len == byte_len * 8,
            src@.len() > 0 ==> num_bits <= bit_len,
            at == 8 * *old(dst_idx) + *old(dst_offset),
            total == packed_len(src@.len() as int, num_bits as int, byte_len as int),
            stream == packed_bits(src@, num_bits as int, byte_len as int),
            has_room(old(dst)@, at, total),
            src_idx <= src@.len(),
            0 <= v,
            0 <= done <= total,
            src_idx < src@.len() ==> src_idx == v * byte_len && done == v * num_bits,
            src_idx == src@.len() ==> done == total,
            *dst_offset < 8,
            8 * *dst_idx + *dst_offset == at + done,
            spliced(old(dst)@, dst@, at, stream.take(done)),
        decreases src@.len() - src_idx,
    {
        let ghost dst0 = dst@;
        let mut idx: usize = src_idx;
        let mut src_offset: u64 = 0;
        let mut offset: u64 = *dst_offset as u64;
        let ghost n = min_int(num_bits as int, 8 * (src@.len() - src_idx));
        proof {
            lemma_next_value(src@.len() as int, byte_len as int, num_bits as int, v);
            assert(done + n <= total);
            assert forall|p: int| at + done <= p < at + done + n implies !#[trigger] bit(
                dst@,
                p,
            ) by {}
        }
        copy_bits(src, &mut idx, &mut src_offset, num_bits, dst, dst_idx, &mut offset);
        *dst_offset = offset as u8;
        proof {
            lemma_value_packed(
                src@,
                num_bits as int,
                byte_len as int,
                at,
                v,
                n,
                old(dst)@,
                dst0,
                dst@,
            );
            done = done + n;
            v = v + 1;
        }
        if bit_len != num_bits {
            // the bits that were left out are skipped; where a value takes whole
            // bytes, the position is already behind the last of them
            let partial_bytes_written: usize = ceil(num_bits as usize, 8);
            let mut to_next_byte: usize = 1;
            if num_bits % 8 == 0 {
                to_next_byte = 0;
            }
            let step: usize = byte_len - partial_bytes_written + to_next_byte;
            if step < src.len() - idx {
                src_idx = idx + step;
            } else {
                src_idx = src.len();
            }
        } else {
            src_idx = idx;
        }
    }
}

/// Packs the buffers of a column, of which there is one.
pub fn pack_buffers(
    data: &ArrayData,
    num_bits: u64,
    byte_len: usize,
    dst: &mut [u8],
    dst_idx: &mut usize,
    dst_offset: &mut u8,
)
    requires
        data.buffers@.len() == 1,
        1 <= num_bits <= 64,
        byte_len * 8 <= u64::MAX,
        data.buffers@[0]@.len() > 0 ==> num_bits <= 8 * byte_len,
        *old(dst_offset) < 8,
        has_room(
            old(dst)@,
            8 * *old(dst_idx) + *old(dst_offset),
            packed_len(data.buffers@[0]@.len() as int, num_bits as int, byte_len as int),
        ),
    ensures
        spliced(
            old(dst)@,
            final(dst)@,
            8 * *old(dst_idx) + *old(dst_offset),
            packed_bits(data.buffers@[0]@, num_bits as int, byte_len as int),
        ),
        *final(dst_offset) < 8,
        8 * *final(dst_idx) + *final(dst_offset) == 8 * *old(dst_idx) + *old(dst_offset)
            + packed_len(data.buffers@[0]@.len() as int, num_bits as int, byte_len as int),
{
    pack_bits(data.buffers[0].as_slice(), num_bits, byte_len, dst, dst_idx, dst_offset);
}

/// The lowest `num_bits` bits of the integer in each slot of a column, one slot
/// after the other.
pub open spec fn array_bits(arr: Array, num_bits: int) -> Seq<bool> {
    Seq::new(
        (arr.raw().len() * num_bits) as nat,
        |j: int| int_bit(arr.raw()[j / num_bits], j % num_bits),
    )
}

/// Packing the bytes of a column gives the low bits of its integers.
proof fn lemma_packed_values(arr: Array, src: Seq<u8>, num_bits: int)
    requires
        arr.is_integer(),
        holds_values(src, arr.raw(), arr.width()),
        num_bits >= 1,
        src.len() > 0 ==> num_bits <= 8 * arr.width(),
    ensures
        packed_len(src.len() as int, num_bits, arr.width() as int) == arr.raw().len() * num_bits,
        packed_bits(src, num_bits, arr.width() as int) == array_bits(arr, num_bits),
        src.len() > 0 <==> arr.raw().len() > 0,
{
    let w = arr.width() as int;
    let n = arr.raw().len() as int;
    assert(w >= 1);
    if src.len() > 0 {
        lemma_fundamental_div_mod_converse(src.len() as int, w, n, 0);
    } else {
        assert(n == 0) by (nonlinear_arith)
            requires
                n * w == 0,
                w >= 1,
        ;
    }
    assert(n > 0 <==> n * w > 0) by (nonlinear_arith)
        requires
            w >= 1,
            n >= 0,
    ;
    let packed = packed_bits(src, num_bits, w);
    let low = array_bits(arr, num_bits);
    assert forall|j: int| 0 <= j < n * num_bits implies packed[j] == low[j] by {
        let i = j / num_bits;
        let k = j % num_bits;
        vstd::arithmetic::div_mod::lemma_fundamental_div_mod(j, num_bits);
        assert(0 <= i < n) by (nonlinear_arith)
            requires
                j == num_bits * i + k,
                0 <= k < num_bits,
                0 <= j < n * num_bits,
                num_bits >= 1,
        ;
        assert(i * (8 * w) == 8 * w * i) by (nonlinear_arith);
        assert(value_bit(src, w as nat, i, k) == int_bit(arr.raw()[i], k));
    }
    assert(packed =~= low);
}

/// What is said of a column that holds no integers.
pub open spec fn invalid_type_message(arr: Array) -> Seq<char> {
    "Invalid data type for bitpacking: "@ + arr->data_type@
}

/// Packs the integers of a column; a column that holds none is an error.
pub fn pack_array(
    arr: &Array,
    num_bits: u64,
    dst: &mut [u8],
    dst_idx: &mut usize,
    dst_offset: &mut u8,
) -> (r: Result<(), Error>)
    requires
        arr.is_integer() ==> {
            &&& 1 <= num_bits <= 64
            &&& arr.count() > 0 ==> num_bits <= 8 * arr.width()
            &&& *old(dst_offset) < 8
            &&& has_room(
                old(dst)@,
                8 * *old(dst_idx) + *old(dst_offset),
                arr.raw().len() * num_bits,
            )
        },
    ensures
        r is Ok <==> arr.is_integer(),
        r matches Err(Error::InvalidInput { message }) ==> {
            &&& message@ == invalid_type_message(*arr)
            &&& final(dst)@ == old(dst)@
            &&& *final(dst_idx) == *old(dst_idx)
            &&& *final(dst_offset) == *old(dst_offset)
        },
        r is Ok ==> {
            &&& spliced(
                old(dst)@,
                final(dst)@,
                8 * *old(dst_idx) + *old(dst_offset),
                array_bits(*arr, num_bits as int),
            )
            &&& *final(dst_offset) < 8
            &&& 8 * *final(dst_idx) + *final(dst_offset) == 8 * *old(dst_idx) + *old(dst_offset)
                + arr.raw().len() * num_bits
        },
{
    match arr {
        Array::Other { data_type, .. } => {
            let prefix: String = String::from_str("Invalid data type for bitpacking: ");
            Err(Error::InvalidInput { message: prefix.concat(data_type.as_str()) })
        },
        _ => {
            let data: ArrayData = arr.to_data();
            proof {
                let src = data.buffers@[0]@;
                let n = arr.raw().len() as int;
                let w = arr.width() as int;
                assert(n == 0 ==> n * w == 0);
                lemma_packed_values(*arr, src, num_bits as int);
            }
            pack_buffers(&data, num_bits, arr.byte_width(), dst, dst_idx, dst_offset);
            Ok(())
        },
    }
}

/// The number of slots of a list of columns.
pub open spec fn total_count(arrays: Seq<Array>) -> nat
    decreases arrays.len(),
{
    if arrays.len() == 0 {
        0
    } else {
        total_count(arrays.drop_last()) + arrays.last().count()
    }
}

/// The packed bits of a list of columns, one column after the other.
pub open spec fn arrays_bits(arrays: Seq<Array>, num_bits: int) -> Seq<bool>
    decreases arrays.len(),
{
    if arrays.len() == 0 {
        Seq::empty()
    } else {
        arrays_bits(arrays.drop_last(), num_bits) + array_bits(arrays.last(), num_bits)
    }
}

/// Whether the first `n` columns hold integers.
pub open spec fn integers_up_to(arrays: Seq<Array>, n: int) -> bool {
    forall|i: int| 0 <= i < n ==> (#[trigger] arrays[i]).is_integer()
}

/// A byte string that holds a stream of bits, and clear bits up to the next
/// whole byte.
pub open spec fn holds_stream(bytes: Seq<u8>, stream: Seq<bool>) -> bool {
    &&& bytes.len() == bytes_for(stream.len() as int)
    &&& forall|p: int|
        0 <= p < 8 * bytes.len() ==> #[trigger] bit(bytes, p) == (p < stream.len() && stream[p])
}

/// Integer columns give `num_bits` bits for every slot.
pub proof fn lemma_arrays_bits_len(arrays: Seq<Array>, num_bits: int)
    requires
        num_bits >= 0,
        integers_up_to(arrays, arrays.len() as int),
    ensures
        arrays_bits(arrays, num_bits).len() == total_count(arrays) * num_bits,
    decreases arrays.len(),
{
    if arrays.len() == 0 {
        assert(0 * num_bits == 0);
    } else {
        let rest = arrays.drop_last();
        let last = arrays[arrays.len() - 1];
        assert forall|i: int| 0 <= i < rest.len() implies (#[trigger] rest[i]).is_integer() by {
            assert(arrays[i].is_integer());
        }
        lemma_arrays_bits_len(rest, num_bits);
        assert(last.is_integer());
        assert(last.raw().len() == last.count());
        let a = total_count(rest) as int;
        let b = last.count() as int;
        assert((a + b) * num_bits == a * num_bits + b * num_bits) by (nonlinear_arith);
        assert(b * num_bits >= 0) by (nonlinear_arith)
            requires
                b >= 0,
                num_bits >= 0,
        ;
    }
}

proof fn lemma_count_prefix(arrays: Seq<Array>, n: int)
    requires
        0 <= n <= arrays.len(),
    ensures
        total_count(arrays.take(n)) <= total_count(arrays),
    decreases arrays.len(),
{
    if n < arrays.len() {
        lemma_count_prefix(arrays.drop_last(), n);
        assert(arrays.drop_last().take(n) =~= arrays.take(n));
    } else {
        assert(arrays.take(n) =~= arrays);
    }
}

/// The number of slots of a list of columns, `None` if it cannot be counted.
fn checked_count(arrays: &[Array]) -> (r: Option<usize>)
    ensures
        r is Some <==> total_count(arrays@) <= usize::MAX,
        r matches Some(count) ==> count == total_count(arrays@),
{
    let mut count: usize = 0;
    let mut i: usize = 0;
    while i < arrays.len()
        invariant
            i <= arrays@.len(),
            count == total_count(arrays@.take(i as int)),
        decreases arrays@.len() - i,
    {
        let len: usize = arrays[i].len();
        proof {
            assert(arrays@.take(i + 1).drop_last() =~= arrays@.take(i as int));
            assert(total_count(arrays@.take(i + 1)) == count + len);
            lemma_count_prefix(arrays@, i + 1);
        }
        if len > usize::MAX - count {
            return None;
        }
        count = count + len;
        i = i + 1;
    }
    assert(arrays@.take(i as int) =~= arrays@);
    Some(count)
}

/// The number of slots of a list of columns.
fn count_items(arrays: &[Array]) -> (r: usize)
    requires
        total_count(arrays@) <= usize::MAX,
    ensures
        r == total_count(arrays@),
{
    let mut count: usize = 0;
    let mut i: usize = 0;
    while i < arrays.len()
        invariant
            i <= arrays@.len(),
            count == total_count(arrays@.take(i as int)),
            total_count(arrays@) <= usize::MAX,
        decreases arrays@.len() - i,
    {
        proof {
            assert(arrays@.take(i + 1).drop_last() =~= arrays@.take(i as int));
            lemma_count_prefix(arrays@, i + 1);
        }
        count = count + arrays[i].len();
        i = i + 1;
    }
    proof {
        assert(arrays@.take(i as int) =~= arrays@);
    }
    count
}

/// A size that can be computed can be computed in `usize`, whatever a width that
/// no item has becomes there.
proof fn lemma_size(count: int, num_bits: int, width: int)
    requires
        0 <= count,
        0 <= num_bits,
        count * num_bits <= usize::MAX,
        num_bits <= usize::MAX ==> width == num_bits,
    ensures
        count * width == count * num_bits,
{
    if count > 0 {
        assert(num_bits <= count * num_bits) by (nonlinear_arith)
            requires
                count > 0,
                num_bits >= 0,
        ;
    } else {
        assert(count * width == 0 && count * num_bits == 0) by (nonlinear_arith)
            requires
                count == 0,
        ;
    }
}

proof fn lemma_next_array(arrays: Seq<Array>, k: int, n: int)
    requires
        0 <= k < arrays.len(),
        0 <= n,
        integers_up_to(arrays, k),
    ensures
        ({
            let before = arrays.take(k);
            let after = arrays.take(k + 1);
            let bits = arrays_bits(before, n);
            &&& bits.len() == total_count(before) * n
            &&& arrays_bits(after, n) == bits + array_bits(arrays[k], n)
            &&& total_count(after) * n == total_count(before) * n + arrays[k].count() * n
            &&& total_count(after) * n <= total_count(arrays) * n
        }),
{
    let before = arrays.take(k);
    let after = arrays.take(k + 1);
    assert(after.drop_last() =~= before);
    assert(after.last() == arrays[k]);
    assert forall|i: int| 0 <= i < before.len() implies (#[trigger] before[i]).is_integer() by {
        assert(arrays[i].is_integer());
    }
    lemma_arrays_bits_len(before, n);
    lemma_count_prefix(arrays, k + 1);
    let c0 = total_count(before) as int;
    let c1 = arrays[k].count() as int;
    let c2 = total_count(arrays) as int;
    assert((c0 + c1) * n <= c2 * n && (c0 + c1) * n == c0 * n + c1 * n) by (nonlinear_arith)
        requires
            c0 + c1 <= c2,
            n >= 0,
    ;
}

proof fn lemma_splice_twice(
    zeros: Seq<u8>,
    mid: Seq<u8>,
    end: Seq<u8>,
    first: Seq<bool>,
    second: Seq<bool>,
)
    requires
        spliced(zeros, mid, 0, first),
        spliced(mid, end, first.len() as int, second),
    ensures
        spliced(zeros, end, 0, first + second),
{
    assert forall|p: int| 0 <= p < 8 * end.len() implies #[trigger] bit(end, p) == (if 0 <= p < (
    first + second).len() {
        (first + second)[p]
    } else {
        bit(zeros, p)
    }) by {
        assert(bit(mid, p) == (if 0 <= p < first.len() {
            first[p]
        } else {
            bit(zeros, p)
        }));
    }
}

/// Packs columns to a given number of bits per value.
#[derive(Debug)]
pub struct BitpackingBufferEncoder {
    num_bits: u64,
    signed_type: bool,
}

impl BitpackingBufferEncoder {
    /// The number of bits of a packed value.
    pub closed spec fn spec_num_bits(self) -> u64 {
        self.num_bits
    }

    /// Whether the highest of those bits is a sign.
    pub closed spec fn spec_signed_type(self) -> bool {
        self.signed_type
    }

    pub fn new(num_bits: u64, signed_type: bool) -> (r: Self)
        ensures
            r.spec_num_bits() == num_bits,
            r.spec_signed_type() == signed_type,
    {
        BitpackingBufferEncoder { num_bits, signed_type }
    }

    /// Whether these columns can be handed to `encode`: the packed width suits
    /// every column up to the first that is refused, and the sizes can be
    /// computed.
    pub open spec fn accepts(self, arrays: Seq<Array>) -> bool {
        &&& arrays.len() > 0
        &&& total_count(arrays) <= usize::MAX
        &&& total_count(arrays) * self.spec_num_bits() <= usize::MAX
        &&& forall|i: int|
            0 <= i < arrays.len() && integers_up_to(arrays, i + 1) ==> self.suits(
                #[trigger] arrays[i],
            )
    }

    /// Whether the packed width suits an integer column: it is a width, and no
    /// greater than that of the values.
    pub open spec fn suits(self, arr: Array) -> bool {
        &&& 1 <= self.spec_num_bits() <= 64
        &&& arr.count() > 0 ==> self.spec_num_bits() <= 8 * arr.width()
    }

    /// Whether `encode` can be called with these columns.
    #[verifier::rlimit(40)]
    pub fn can_encode(&self, arrays: &[Array]) -> (r: bool)
        ensures
            r == self.accepts(arrays@),
    {
        if arrays.len() == 0 {
            return false;
        }
        let count: usize = match checked_count(arrays) {
            Some(count) => count,
            None => {
                return false;
            },
        };
        proof {
            let n = self.num_bits as int;
            assert(count * n <= u128::MAX) by (nonlinear_arith)
                requires
                    count <= u64::MAX,
                    0 <= n <= u64::MAX,
            ;
        }
        let size: u128 = count as u128 * self.num_bits as u128;
        if size > usize::MAX as u128 {
            return false;
        }
        let mut k: usize = 0;
        while k < arrays.len()
            invariant
                k <= arrays@.len(),
                arrays@.len() > 0,
                total_count(arrays@) <= usize::MAX,
                total_count(arrays@) * self.num_bits <= usize::MAX,
                integers_up_to(arrays@, k as int),
                forall|j: int|
                    0 <= j < k ==> self.suits(#[trigger] arrays@[j]),
            decreases arrays@.len() - k,
        {
            match &arrays[k] {
                Array::Other { .. } => {
                    // this column is refused, and what follows it is not looked at
                    proof {
                        assert(!arrays@[k as int].is_integer());
                        assert forall|j: int|
                            0 <= j < arrays@.len() && integers_up_to(
                                arrays@,
                                j + 1,
                            ) implies self.suits(#[trigger] arrays@[j]) by {
                            if k <= j {
                                assert(arrays@[k as int].is_integer());
                            }
                        }
                    }
                    return true;
                },
                _ => {},
            }
            proof {
                assert(integers_up_to(arrays@, k + 1));
                assert(arrays@[k as int].is_integer());
            }
            if self.num_bits < 1 || self.num_bits > 64 {
                return false;
            }
            if arrays[k].len() > 0 && self.num_bits > 8 * arrays[k].byte_width() as u64 {
                return false;
            }
            k = k + 1;
        }
        true
    }

    /// Packs the columns into a clear buffer, up to the first that holds no
    /// integers.
    #[verifier::rlimit(60)]
    fn pack_all(&self, arrays: &[Array], dst: &mut [u8]) -> (r: Result<(), Error>)
        requires
            self.accepts(arrays@),
            old(dst)@.len() == bytes_for(total_count(arrays@) * self.spec_num_bits()),
            forall|p: int| 0 <= p < 8 * old(dst)@.len() ==> !#[trigger] bit(old(dst)@, p),
        ensures
            r is Ok <==> integers_up_to(arrays@, arrays@.len() as int),
            r is Ok ==> spliced(
                old(dst)@,
                final(dst)@,
                0,
                arrays_bits(arrays@, self.spec_num_bits() as int),
            ),
            r matches Err(Error::InvalidInput { message }) ==> exists|i: int|
                {
                    &&& 0 <= i < arrays@.len()
                    &&& integers_up_to(arrays@, i)
                    &&& !(#[trigger] arrays@[i]).is_integer()
                    &&& message@ == invalid_type_message(arrays@[i])
                },
    {
        let mut dst_idx: usize = 0;
        let mut dst_offset: u8 = 0;
        let mut k: usize = 0;
        let ghost n = self.num_bits as int;
        let ghost zeros = dst@;
        proof {
            assert(arrays@.take(0) =~= Seq::<Array>::empty());
            assert(0 * n == 0);
        }
        while k < arrays.len()
            invariant
                k <= arrays@.len(),
                self.accepts(arrays@),
                n == self.num_bits,
                integers_up_to(arrays@, k as int),
                dst_offset < 8,
                8 * dst_idx + dst_offset == total_count(arrays@.take(k as int)) * n,
                zeros.len() == bytes_for(total_count(arrays@) * n),
                zeros == old(dst)@,
                forall|p: int| 0 <= p < 8 * zeros.len() ==> !#[trigger] bit(zeros, p),
                spliced(zeros, dst@, 0, arrays_bits(arrays@.take(k as int), n)),
            decreases arrays@.len() - k,
        {
            let ghost before = arrays@.take(k as int);
            let ghost dst0 = dst@;
            let ghost at: int = 8 * dst_idx + dst_offset;
            let ghost next = arrays@[k as int];
            proof {
                lemma_next_array(arrays@, k as int, n);
                assert(at == arrays_bits(before, n).len());
                if next.is_integer() {
                    assert(integers_up_to(arrays@, k + 1));
                    assert(has_room(dst@, at, next.raw().len() * n)) by {
                        assert(next.raw().len() == next.count());
                        assert forall|p: int| at <= p < at + next.raw().len() * n implies !#[trigger] bit(
                            dst@,
                            p,
                        ) by {
                            assert(!bit(zeros, p));
                        }
                    }
                }
            }
            match pack_array(&arrays[k], self.num_bits, dst, &mut dst_idx, &mut dst_offset) {
                Ok(()) => {},
                Err(e) => {
                    return Err(e);
                },
            }
            proof {
                lemma_splice_twice(
                    zeros,
                    dst0,
                    dst@,
                    arrays_bits(before, n),
                    array_bits(next, n),
                );
            }
            k = k + 1;
        }
        proof {
            assert(arrays@.take(k as int) =~= arrays@);
        }
        Ok(())
    }

    /// Packs the columns into one buffer, and says how. The first column that
    /// holds no integers is an error.
    pub fn encode(&self, arrays: &[Array]) -> (r: Result<(EncodedBuffer, EncodedBufferMeta), Error>)
        requires
            self.accepts(arrays@),
        ensures
            r is Ok <==> integers_up_to(arrays@, arrays@.len() as int),
            r matches Ok((buffer, meta)) ==> {
                &&& buffer.parts@.len() == 1
                &&& holds_stream(
                    buffer.parts@[0]@,
                    arrays_bits(arrays@, self.spec_num_bits() as int),
                )
                &&& meta.bits_per_value == 8 * arrays@[0].width()
                &&& meta.bitpacking matches Some(bitpacking) && {
                    &&& bitpacking.bits_per_value == self.spec_num_bits()
                    &&& bitpacking.signed == self.spec_signed_type()
                }
                &&& meta.compression_scheme is None
            },
            r matches Err(Error::InvalidInput { message }) ==> exists|i: int|
                {
                    &&& 0 <= i < arrays@.len()
                    &&& integers_up_to(arrays@, i)
                    &&& !(#[trigger] arrays@[i]).is_integer()
                    &&& message@ == invalid_type_message(arrays@[i])
                },
    {
        // calculate the total number of bytes we need to allocate for the destination.
        // this will be the number of items in the source array times the number of bits.
        let count: usize = count_items(arrays);
        let width: usize = self.num_bits as usize;
        proof {
            lemma_size(count as int, self.num_bits as int, width as int);
        }
        let dst_bytes_total: usize = ceil(count * width, 8);
        let mut dst_buffer: Vec<u8> = vec![0u8; dst_bytes_total];
        let ghost zeros = dst_buffer@;
        proof {
            lemma_zero_bits(zeros);
        }
        match self.pack_all(arrays, dst_buffer.as_mut_slice()) {
            Ok(()) => {},
            Err(e) => {
                return Err(e);
            },
        }
        proof {
            lemma_arrays_bits_len(arrays@, self.num_bits as int);
            assert(holds_stream(dst_buffer@, arrays_bits(arrays@, self.num_bits as int)));
            assert(arrays@[0].is_integer());
        }
        let mut parts: Vec<LanceBuffer> = Vec::new();
        parts.push(LanceBuffer { bytes: dst_buffer });
        Ok(
            (
                EncodedBuffer { parts },
                EncodedBufferMeta {
                    bits_per_value: (arrays[0].byte_width() * 8) as u64,
                    bitpacking: Some(
                        BitpackingBufferMeta {
                            bits_per_value: self.num_bits,
                            signed: self.signed_type,
                        },
                    ),
                    compression_scheme: None,
                },
            ),
        )
    }
}

} // verus!
