//! How many bits the values of a column need.
use vstd::arithmetic::power2::{
    lemma2_to64, lemma2_to64_rest, lemma_pow2_pos, lemma_pow2_strictly_increases, pow2,
};
use vstd::bits::lemma_u64_shr_is_div;
use vstd::prelude::*;
use vstd::std_specs::bits::{axiom_u64_leading_zeros, u64_leading_zeros};

use crate::array::{Array, PrimitiveArray, SignedInt, UnsignedInt};
use crate::bits::pattern;
use crate::outside::{bit_or, or_present};

verus! {

/// The width that the values of a column are packed to.
#[derive(Debug)]
pub struct BitpackParams {
    pub num_bits: u64,
    /// Whether the highest of those bits is a sign.
    pub signed: bool,
}

/// Whether `num_bits` bits can represent an integer, in two's complement if
/// there is a sign bit among them.
pub open spec fn fits(v: int, num_bits: int, signed: bool) -> bool {
    if signed {
        -pow2((num_bits - 1) as nat) <= v < pow2((num_bits - 1) as nat)
    } else {
        0 <= v < pow2(num_bits as nat)
    }
}

/// Whether `num_bits` bits can represent every value that is not null.
pub open spec fn all_fit(slots: Seq<Option<int>>, num_bits: int, signed: bool) -> bool {
    forall|i: int|
        0 <= i < slots.len() ==> ((#[trigger] slots[i]) matches Some(v) ==> fits(
            v,
            num_bits,
            signed,
        ))
}

/// Whether any slot is not null.
pub open spec fn has_value(slots: Seq<Option<int>>) -> bool {
    exists|i: int| 0 <= i < slots.len() && (#[trigger] slots[i]) is Some
}

/// Whether any slot holds a negative value.
pub open spec fn has_negative(slots: Seq<Option<int>>) -> bool {
    exists|i: int| 0 <= i < slots.len() && ((#[trigger] slots[i]) matches Some(v) && v < 0)
}

/// The parameters for these slots: a sign bit if and only if there is a negative
/// value, and the least number of bits, at least one, that represents every
/// value.
pub open spec fn least_params(slots: Seq<Option<int>>, p: BitpackParams) -> bool {
    &&& p.signed == has_negative(slots)
    &&& p.num_bits >= 1
    &&& all_fit(slots, p.num_bits as int, p.signed)
    &&& forall|m: int| 1 <= m < p.num_bits ==> !#[trigger] all_fit(slots, m, p.signed)
}

/// The number of bits up to the highest set one.
fn bit_length(x: u64) -> (r: u64)
    ensures
        r <= 64,
        x < pow2(r as nat),
        r > 0 ==> pow2((r - 1) as nat) <= x,
{
    let zeros: u32 = x.leading_zeros();
    proof {
        lemma_leading_zeros(x);
    }
    64 - zeros as u64
}

proof fn lemma_leading_zeros(x: u64)
    ensures
        u64_leading_zeros(x) <= 64,
        x < pow2((64 - u64_leading_zeros(x)) as nat),
        u64_leading_zeros(x) < 64 ==> pow2((63 - u64_leading_zeros(x)) as nat) <= x,
{
    axiom_u64_leading_zeros(x);
    let z = u64_leading_zeros(x);
    lemma2_to64();
    lemma2_to64_rest();
    if 0 < z {
        lemma_below_pow2(x, (64 - z) as nat);
    }
    if z < 64 {
        let s = (63 - z) as u64;
        assert(x >> s != 0) by (bit_vector)
            requires
                (x >> s) & 1u64 != 0u64,
        ;
        lemma_below_pow2(x, s as nat);
    }
}

proof fn lemma_below_pow2(x: u64, n: nat)
    requires
        n < 64,
    ensures
        x < pow2(n) <==> x >> (n as u64) == 0,
{
    lemma_u64_shr_is_div(x, n as u64);
    lemma_pow2_pos(n);
    let d = pow2(n) as int;
    if x < d {
        vstd::arithmetic::div_mod::lemma_basic_div(x as int, d);
    } else {
        vstd::arithmetic::div_mod::lemma_div_non_zero(x as int, d);
    }
}

/// The "or" of the values is below a power of two if and only if each of them is.
proof fn lemma_or_below(slots: Seq<Option<u64>>, n: nat)
    requires
        n <= 64,
    ensures
        or_present(slots) is Some <==> exists|i: int|
            0 <= i < slots.len() && (#[trigger] slots[i]) is Some,
        or_present(slots) matches Some(x) ==> (x < pow2(n) <==> forall|i: int|
            0 <= i < slots.len() ==> ((#[trigger] slots[i]) matches Some(v) ==> v < pow2(n))),
    decreases slots.len(),
{
    if slots.len() > 0 {
        let rest = slots.drop_last();
        let last = slots.last();
        lemma_or_below(rest, n);
        assert(slots =~= rest.push(last));
        assert forall|i: int| 0 <= i < rest.len() implies rest[i] == #[trigger] slots[i] by {}
        if let (Some(a), Some(b)) = (or_present(rest), last) {
            let c = a | b;
            if n < 64 {
                lemma_below_pow2(a, n);
                lemma_below_pow2(b, n);
                lemma_below_pow2(c, n);
                let s = n as u64;
                assert(c >> s == 0 <==> a >> s == 0 && b >> s == 0) by (bit_vector)
                    requires
                        c == a | b,
                        s < 64,
                ;
            } else {
                lemma2_to64_rest();
            }
        }
        if or_present(rest) is Some {
            let i = choose|i: int| 0 <= i < rest.len() && (#[trigger] rest[i]) is Some;
            assert(slots[i] is Some);
        }
        if last is Some {
            assert(slots[slots.len() - 1] is Some);
        }
    }
}

/// The parameters for a column of an unsigned type, `None` if the column is empty
/// or all null.
pub fn bitpack_params_for_type<T: UnsignedInt>(arr: &PrimitiveArray<T>) -> (r: Option<
    BitpackParams,
>)
    requires
        arr.wf(),
    ensures
        r is Some <==> has_value(arr.slots()),
        r matches Some(p) ==> least_params(arr.slots(), p) && p.num_bits <= 8 * T::width(),
{
    let mut wide: Vec<Option<u64>> = Vec::new();
    let mut i: usize = 0;
    while i < arr.values.len()
        invariant
            arr.wf(),
            i <= arr.values@.len(),
            wide@.len() == i,
            forall|j: int|
                0 <= j < i ==> (#[trigger] wide@[j] is Some <==> arr.slots()[j] is Some),
            forall|j: int|
                0 <= j < i ==> ((#[trigger] wide@[j]) matches Some(x) ==> arr.slots()[j] == Some(
                    x as int,
                )),
        decreases arr.values@.len() - i,
    {
        let slot: Option<u64> = match arr.get(i) {
            Some(val) => {
                proof {
                    T::lemma_unsigned();
                    val.lemma_value_in_range();
                }
                Some(val.to_pattern())
            },
            None => None,
        };
        wide.push(slot);
        i = i + 1;
    }
    let ghost slots = arr.slots();
    let ghost seen = wide@;
    proof {
        lemma_or_below(seen, 64);
        if has_value(slots) {
            let j = choose|j: int| 0 <= j < slots.len() && (#[trigger] slots[j]) is Some;
            assert(seen[j] is Some);
        }
    }
    match bit_or(wide) {
        None => {
            proof {
                if has_value(slots) {
                    let j = choose|j: int| 0 <= j < slots.len() && (#[trigger] slots[j]) is Some;
                    assert(seen[j] is Some);
                }
            }
            None
        },
        Some(max) => {
            // we can't bitpack into 0 bits, so the minimum is 1
            let length: u64 = bit_length(max);
            let num_bits: u64 = if length > 1 {
                length
            } else {
                1
            };
            proof {
                let j = choose|j: int| 0 <= j < seen.len() && (#[trigger] seen[j]) is Some;
                assert(slots[j] is Some);
                lemma_unsigned_params(arr, seen, max, length, num_bits);
            }
            Some(BitpackParams { num_bits, signed: false })
        },
    }
}

proof fn lemma_unsigned_params<T: UnsignedInt>(
    arr: &PrimitiveArray<T>,
    seen: Seq<Option<u64>>,
    max: u64,
    length: u64,
    num_bits: u64,
)
    requires
        arr.wf(),
        seen.len() == arr.values@.len(),
        forall|j: int|
            0 <= j < seen.len() ==> (#[trigger] seen[j] is Some <==> arr.slots()[j] is Some),
        forall|j: int|
            0 <= j < seen.len() ==> ((#[trigger] seen[j]) matches Some(x) ==> arr.slots()[j]
                == Some(x as int)),
        or_present(seen) == Some(max),
        length <= 64,
        max < pow2(length as nat),
        length > 0 ==> pow2((length - 1) as nat) <= max,
        num_bits == (if length > 1 {
            length
        } else {
            1
        }),
    ensures
        least_params(arr.slots(), (BitpackParams { num_bits, signed: false })),
        num_bits <= 8 * T::width(),
{
    let slots = arr.slots();
    assert(!has_negative(slots)) by {
        assert forall|i: int| 0 <= i < slots.len() implies !((#[trigger] slots[i]) matches Some(v)
            && v < 0) by {
            assert(seen[i] is Some <==> slots[i] is Some);
        }
    }
    assert(all_fit(slots, num_bits as int, false)) by {
        lemma_or_below(seen, length as nat);
        if length < num_bits {
            lemma_pow2_strictly_increases(length as nat, num_bits as nat);
        }
        assert forall|i: int| 0 <= i < slots.len() implies ((#[trigger] slots[i]) matches Some(v)
            ==> fits(v, num_bits as int, false)) by {
            assert(seen[i] is Some <==> slots[i] is Some);
        }
    }
    assert forall|m: int| 1 <= m < num_bits implies !#[trigger] all_fit(slots, m, false) by {
        lemma_or_below(seen, m as nat);
        if m < length - 1 {
            lemma_pow2_strictly_increases(m as nat, (length - 1) as nat);
        }
        let i = choose|i: int|
            0 <= i < seen.len() && !((#[trigger] seen[i]) matches Some(v) ==> v < pow2(m as nat));
        assert(slots[i] is Some);
    }
    let w = (8 * T::width()) as nat;
    T::lemma_unsigned();
    lemma_width::<T>(arr, seen);
    lemma_or_below(seen, w);
    assert(max < pow2(w));
    if w < num_bits && w < length - 1 {
        lemma_pow2_strictly_increases(w, (length - 1) as nat);
    }
}

/// Widened, the values still lie below the bound that their own width gives.
proof fn lemma_width<T: UnsignedInt>(arr: &PrimitiveArray<T>, seen: Seq<Option<u64>>)
    requires
        seen.len() == arr.values@.len(),
        forall|j: int|
            0 <= j < seen.len() ==> ((#[trigger] seen[j]) matches Some(x) ==> arr.slots()[j]
                == Some(x as int)),
    ensures
        1 <= 8 * T::width() <= 64,
        forall|i: int|
            0 <= i < seen.len() ==> ((#[trigger] seen[i]) matches Some(v) ==> v < pow2(
                (8 * T::width()) as nat,
            )),
{
    T::lemma_unsigned();
    T::lemma_bounds();
    assert forall|i: int| 0 <= i < seen.len() implies ((#[trigger] seen[i]) matches Some(v) ==> v
        < pow2((8 * T::width()) as nat)) by {
        arr.values@[i].lemma_value_in_range();
    }
}

/// How far an integer is from the nearer of 0 and -1: what is left of it without
/// its sign.
pub open spec fn magnitude(v: int) -> int {
    if v >= 0 {
        v
    } else {
        -v - 1
    }
}

/// The number of leading bits of a native value that equal its sign.
fn leading_sign_bits<T: SignedInt>(val: T) -> (r: u64)
    ensures
        1 <= r <= 8 * T::width(),
        magnitude(val.value()) < pow2((8 * T::width() - r) as nat),
        r < 8 * T::width() ==> pow2((8 * T::width() - r - 1) as nat) <= magnitude(val.value()),
{
    let width: u64 = T::byte_width() as u64 * 8;
    let x: u64 = val.to_pattern();
    proof {
        T::lemma_signed();
        T::lemma_bounds();
        val.lemma_value_in_range();
        assert(!x == u64::MAX - x) by (bit_vector);
        lemma_leading_zeros(x);
        lemma_leading_zeros(!x);
        lemma2_to64();
        lemma2_to64_rest();
        let z = if x >> 63 == 1 {
            u64_leading_zeros(!x)
        } else {
            u64_leading_zeros(x)
        };
        assert((x >> 63 == 1) <==> x >= 0x8000_0000_0000_0000u64) by (bit_vector);
        if 64 - z > width - 1 && 63 - z > width - 1 {
            lemma_pow2_strictly_increases((width - 1) as nat, (63 - z) as nat);
        }
    }
    let leading: u32 = if x >> 63 == 1 {
        x.leading_ones()
    } else {
        x.leading_zeros()
    };
    leading as u64 - (64 - width)
}

/// The minimum number of bits that can represent the values of a column of a
/// signed type: the significant bits, and one for the sign if any value is
/// negative. `None` if the column is empty or all null.
pub fn bitpack_params_for_signed_type<T: SignedInt>(arr: &PrimitiveArray<T>) -> (r: Option<
    BitpackParams,
>)
    requires
        arr.wf(),
    ensures
        r is Some <==> has_value(arr.slots()),
        r matches Some(p) ==> least_params(arr.slots(), p) && p.num_bits <= 8 * T::width(),
{
    let width: u64 = T::byte_width() as u64 * 8;
    let mut add_signed_bit = false;
    let mut min_leading_bits: Option<u64> = None;
    let mut i: usize = 0;
    let ghost slots = arr.slots();
    let ghost mut widest: int = 0;
    while i < arr.values.len()
        invariant
            arr.wf(),
            slots == arr.slots(),
            i <= arr.values@.len(),
            width == 8 * T::width(),
            add_signed_bit == has_negative(slots.take(i as int)),
            min_leading_bits is Some <==> has_value(slots.take(i as int)),
            min_leading_bits matches Some(bits) ==> {
                &&& 1 <= bits <= width
                &&& forall|j: int|
                    0 <= j < i ==> ((#[trigger] slots[j]) matches Some(v) ==> magnitude(v) < pow2(
                        (width - bits) as nat,
                    ))
                &&& 0 <= widest < i
                &&& slots[widest] matches Some(v) && (bits < width ==> pow2(
                    (width - bits - 1) as nat,
                ) <= magnitude(v))
            },
        decreases arr.values@.len() - i,
    {
        let ghost seen = slots.take(i as int);
        let ghost now = slots.take(i + 1);
        proof {
            assert(now =~= seen.push(slots[i as int]));
            lemma_one_more_slot(seen, slots[i as int]);
        }
        if let Some(val) = arr.get(i) {
            let leading: u64 = leading_sign_bits(val);
            let ghost before = min_leading_bits;
            if val.to_pattern() >> 63 == 1 {
                add_signed_bit = true;
            }
            min_leading_bits = match min_leading_bits {
                Some(bits) => Some(
                    if leading < bits {
                        leading
                    } else {
                        bits
                    },
                ),
                None => Some(leading),
            };
            proof {
                T::lemma_signed();
                T::lemma_bounds();
                val.lemma_value_in_range();
                lemma2_to64();
                lemma2_to64_rest();
                let x = pattern(val.value()) as u64;
                assert((x >> 63 == 1) <==> x >= 0x8000_0000_0000_0000u64) by (bit_vector);
                match before {
                    Some(bits) => {
                        if leading < bits {
                            widest = i as int;
                            lemma_pow2_strictly_increases(
                                (width - bits) as nat,
                                (width - leading) as nat,
                            );
                        } else if bits < leading {
                            lemma_pow2_strictly_increases(
                                (width - leading) as nat,
                                (width - bits) as nat,
                            );
                        }
                    },
                    None => {
                        widest = i as int;
                        assert forall|j: int| 0 <= j < i implies (#[trigger] slots[j]) is None by {
                            assert(seen[j] == slots[j]);
                        }
                    },
                }
            }
        }
        i = i + 1;
    }
    proof {
        assert(slots.take(i as int) =~= slots);
    }
    match min_leading_bits {
        None => None,
        Some(bits) => {
            let mut num_bits: u64 = width - bits;
            if add_signed_bit {
                // Need extra sign bit
                num_bits = num_bits + 1;
            }
            // cannot bitpack into <1 bit
            if num_bits < 1 {
                num_bits = 1;
            }
            proof {
                lemma_signed_params(slots, (width - bits) as nat, widest, num_bits, add_signed_bit);
            }
            Some(BitpackParams { num_bits, signed: add_signed_bit })
        },
    }
}

proof fn lemma_one_more_slot(seen: Seq<Option<int>>, slot: Option<int>)
    ensures
        has_value(seen.push(slot)) <==> has_value(seen) || slot is Some,
        has_negative(seen.push(slot)) <==> has_negative(seen) || (slot matches Some(v) && v < 0),
{
    let now = seen.push(slot);
    assert(now[seen.len() as int] == slot);
    if has_value(seen) {
        let j = choose|j: int| 0 <= j < seen.len() && (#[trigger] seen[j]) is Some;
        assert(now[j] is Some);
    }
    if has_negative(seen) {
        let j = choose|j: int|
            0 <= j < seen.len() && ((#[trigger] seen[j]) matches Some(v) && v < 0);
        assert(now[j] == seen[j]);
    }
    if has_value(now) && slot is None {
        let j = choose|j: int| 0 <= j < now.len() && (#[trigger] now[j]) is Some;
        assert(seen[j] is Some);
    }
    if has_negative(now) && !(slot matches Some(v) && v < 0) {
        let j = choose|j: int| 0 <= j < now.len() && ((#[trigger] now[j]) matches Some(v) && v < 0);
        assert(seen[j] == now[j]);
    }
}

proof fn lemma_signed_params(
    slots: Seq<Option<int>>,
    significant: nat,
    widest: int,
    num_bits: u64,
    signed: bool,
)
    requires
        signed == has_negative(slots),
        forall|j: int|
            0 <= j < slots.len() ==> ((#[trigger] slots[j]) matches Some(v) ==> magnitude(v)
                < pow2(significant)),
        0 <= widest < slots.len(),
        slots[widest] matches Some(v) && (significant > 0 ==> pow2((significant - 1) as nat)
            <= magnitude(v)),
        num_bits == (if signed {
            significant + 1
        } else if significant > 0 {
            significant
        } else {
            1
        }),
    ensures
        least_params(slots, (BitpackParams { num_bits, signed })),
{
    if significant < num_bits && !signed {
        lemma_pow2_strictly_increases(significant, num_bits as nat);
    }
    assert forall|i: int| 0 <= i < slots.len() implies ((#[trigger] slots[i]) matches Some(v)
        ==> fits(v, num_bits as int, signed)) by {
        if let Some(v) = slots[i] {
            if !signed {
                assert(!has_negative(slots));
                assert(v >= 0);
            }
        }
    }
    assert forall|m: int| 1 <= m < num_bits implies !#[trigger] all_fit(slots, m, signed) by {
        let v = slots[widest]->0;
        let top = if signed {
            m - 1
        } else {
            m
        };
        if top < significant - 1 {
            lemma_pow2_strictly_increases(top as nat, (significant - 1) as nat);
        }
        assert(!fits(v, m, signed));
    }
}

/// The number of bits to use for each item, if this column can be bitpacked;
/// `None` if its type or its data is not supported.
pub fn bitpack_params(arr: &Array) -> (r: Option<BitpackParams>)
    requires
        arr.wf(),
    ensures
        r is Some <==> arr.is_integer() && has_value(arr.slots()),
        r matches Some(p) ==> least_params(arr.slots(), p) && p.num_bits <= 8 * arr.width(),
{
    match arr {
        Array::UInt8(arr) => bitpack_params_for_type(arr),
        Array::UInt16(arr) => bitpack_params_for_type(arr),
        Array::UInt32(arr) => bitpack_params_for_type(arr),
        Array::UInt64(arr) => bitpack_params_for_type(arr),
        Array::Int8(arr) => bitpack_params_for_signed_type(arr),
        Array::Int16(arr) => bitpack_params_for_signed_type(arr),
        Array::Int32(arr) => bitpack_params_for_signed_type(arr),
        Array::Int64(arr) => bitpack_params_for_signed_type(arr),
        Array::Other { .. } => None,
    }
}

} // verus!
