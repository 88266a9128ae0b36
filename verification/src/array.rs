//! Integer columns: the values in native form, the validity of each slot, and
//! the bytes that the values occupy.
use vstd::arithmetic::power2::{lemma2_to64, lemma2_to64_rest, pow2};
use vstd::prelude::*;

use crate::bits::{bit, int_bit, lemma_pattern_bit, pattern};

verus! {

/// A native integer type that a column can hold.
pub trait NativeInt: Copy {
    /// The integer that a native value stands for.
    spec fn value(self) -> int;

    /// The number of bytes of a native value.
    spec fn width() -> nat;

    /// The least integer of the type.
    spec fn least() -> int;

    /// One more than the greatest integer of the type.
    spec fn bound() -> int;

    /// The number of bytes of a native value.
    fn byte_width() -> (r: usize)
        ensures
            r == Self::width(),
            r == 1 || r == 2 || r == 4 || r == 8,
    ;

    /// The value in two's complement, extended to 64 bits.
    fn to_pattern(self) -> (r: u64)
        ensures
            r == pattern(self.value()),
    ;

    /// Every native value lies between the bounds of its type.
    proof fn lemma_value_in_range(self)
        ensures
            Self::least() <= self.value() < Self::bound(),
    ;

    /// The width of the type gives its bounds.
    proof fn lemma_bounds()
        ensures
            Self::width() == 1 || Self::width() == 2 || Self::width() == 4 || Self::width() == 8,
            Self::least() == 0 || Self::least() == -Self::bound(),
            Self::least() == 0 ==> Self::bound() == pow2((8 * Self::width()) as nat),
            Self::least() < 0 ==> Self::bound() == pow2((8 * Self::width() - 1) as nat),
    ;
}

/// An unsigned native integer type.
pub trait UnsignedInt: NativeInt {
    /// No value of the type is negative.
    proof fn lemma_unsigned()
        ensures
            Self::least() == 0,
    ;
}

/// A signed native integer type.
pub trait SignedInt: NativeInt {
    /// The type has negative values.
    proof fn lemma_signed()
        ensures
            Self::least() < 0,
    ;
}

/// The two's complement pattern of a signed value.
fn signed_pattern(x: i64) -> (r: u64)
    ensures
        r == pattern(x as int),
{
    assert(x as u64 == (if x >= 0 {
        x as int
    } else {
        x + 0x1_0000_0000_0000_0000
    })) by (bit_vector);
    x as u64
}

impl NativeInt for u8 {
    open spec fn value(self) -> int {
        self as int
    }

    open spec fn width() -> nat {
        1
    }

    open spec fn least() -> int {
        0
    }

    open spec fn bound() -> int {
        0x100
    }

    fn byte_width() -> (r: usize) {
        1
    }

    fn to_pattern(self) -> (r: u64) {
        self as u64
    }

    proof fn lemma_value_in_range(self) {
    }

    proof fn lemma_bounds() {
        lemma2_to64();
        lemma2_to64_rest();
    }
}

impl UnsignedInt for u8 {
    proof fn lemma_unsigned() {
    }
}

impl NativeInt for u16 {
    open spec fn value(self) -> int {
        self as int
    }

    open spec fn width() -> nat {
        2
    }

    open spec fn least() -> int {
        0
    }

    open spec fn bound() -> int {
        0x1_0000
    }

    fn byte_width() -> (r: usize) {
        2
    }

    fn to_pattern(self) -> (r: u64) {
        self as u64
    }

    proof fn lemma_value_in_range(self) {
    }

    proof fn lemma_bounds() {
        lemma2_to64();
        lemma2_to64_rest();
    }
}

impl UnsignedInt for u16 {
    proof fn lemma_unsigned() {
    }
}

impl NativeInt for u32 {
    open spec fn value(self) -> int {
        self as int
    }

    open spec fn width() -> nat {
        4
    }

    open spec fn least() -> int {
        0
    }

    open spec fn bound() -> int {
        0x1_0000_0000
    }

    fn byte_width() -> (r: usize) {
        4
    }

    fn to_pattern(self) -> (r: u64) {
        self as u64
    }

    proof fn lemma_value_in_range(self) {
    }

    proof fn lemma_bounds() {
        lemma2_to64();
        lemma2_to64_rest();
    }
}

impl UnsignedInt for u32 {
    proof fn lemma_unsigned() {
    }
}

impl NativeInt for u64 {
    open spec fn value(self) -> int {
        self as int
    }

    open spec fn width() -> nat {
        8
    }

    open spec fn least() -> int {
        0
    }

    open spec fn bound() -> int {
        0x1_0000_0000_0000_0000
    }

    fn byte_width() -> (r: usize) {
        8
    }

    fn to_pattern(self) -> (r: u64) {
        self
    }

    proof fn lemma_value_in_range(self) {
    }

    proof fn lemma_bounds() {
        lemma2_to64();
        lemma2_to64_rest();
    }
}

impl UnsignedInt for u64 {
    proof fn lemma_unsigned() {
    }
}

impl NativeInt for i8 {
    open spec fn value(self) -> int {
        self as int
    }

    open spec fn width() -> nat {
        1
    }

    open spec fn least() -> int {
        -0x80
    }

    open spec fn bound() -> int {
        0x80
    }

    fn byte_width() -> (r: usize) {
        1
    }

    fn to_pattern(self) -> (r: u64) {
        signed_pattern(self as i64)
    }

    proof fn lemma_value_in_range(self) {
    }

    proof fn lemma_bounds() {
        lemma2_to64();
        lemma2_to64_rest();
    }
}

impl SignedInt for i8 {
    proof fn lemma_signed() {
    }
}

impl NativeInt for i16 {
    open spec fn value(self) -> int {
        self as int
    }

    open spec fn width() -> nat {
        2
    }

    open spec fn least() -> int {
        -0x8000
    }

    open spec fn bound() -> int {
        0x8000
    }

    fn byte_width() -> (r: usize) {
        2
    }

    fn to_pattern(self) -> (r: u64) {
        signed_pattern(self as i64)
    }

    proof fn lemma_value_in_range(self) {
    }

    proof fn lemma_bounds() {
        lemma2_to64();
        lemma2_to64_rest();
    }
}

impl SignedInt for i16 {
    proof fn lemma_signed() {
    }
}

impl NativeInt for i32 {
    open spec fn value(self) -> int {
        self as int
    }

    open spec fn width() -> nat {
        4
    }

    open spec fn least() -> int {
        -0x8000_0000
    }

    open spec fn bound() -> int {
        0x8000_0000
    }

    fn byte_width() -> (r: usize) {
        4
    }

    fn to_pattern(self) -> (r: u64) {
        signed_pattern(self as i64)
    }

    proof fn lemma_value_in_range(self) {
    }

    proof fn lemma_bounds() {
        lemma2_to64();
        lemma2_to64_rest();
    }
}

impl SignedInt for i32 {
    proof fn lemma_signed() {
    }
}

impl NativeInt for i64 {
    open spec fn value(self) -> int {
        self as int
    }

    open spec fn width() -> nat {
        8
    }

    open spec fn least() -> int {
        -0x8000_0000_0000_0000
    }

    open spec fn bound() -> int {
        0x8000_0000_0000_0000
    }

    fn byte_width() -> (r: usize) {
        8
    }

    fn to_pattern(self) -> (r: u64) {
        signed_pattern(self)
    }

    proof fn lemma_value_in_range(self) {
    }

    proof fn lemma_bounds() {
        lemma2_to64();
        lemma2_to64_rest();
    }
}

impl SignedInt for i64 {
    proof fn lemma_signed() {
    }
}

/// A column of one native integer type.
///
/// A slot always has a value; where the validity says so, the slot is null and
/// its value means nothing.
#[derive(Debug)]
pub struct PrimitiveArray<T> {
    /// The values of all slots, those of null slots included.
    pub values: Vec<T>,
    /// For each slot whether it holds a value; if missing, all slots do.
    pub validity: Option<Vec<bool>>,
}

impl<T: NativeInt> PrimitiveArray<T> {
    /// The validity covers exactly the slots.
    pub open spec fn wf(self) -> bool {
        self.validity matches Some(valid) ==> valid@.len() == self.values@.len()
    }

    /// Whether slot `i` holds a value.
    pub open spec fn is_valid(self, i: int) -> bool {
        self.validity matches Some(valid) ==> valid@[i]
    }

    /// The integers in all slots, those of null slots included.
    pub open spec fn raw(self) -> Seq<int> {
        Seq::new(self.values@.len(), |i: int| self.values@[i].value())
    }

    /// The slots, null slots being `None`.
    pub open spec fn slots(self) -> Seq<Option<int>> {
        Seq::new(
            self.values@.len(),
            |i: int|
                if self.is_valid(i) {
                    Some(self.values@[i].value())
                } else {
                    None
                },
        )
    }

    /// A column of these values, with this validity.
    pub fn new(values: Vec<T>, validity: Option<Vec<bool>>) -> (r: Self)
        requires
            validity matches Some(valid) ==> valid@.len() == values@.len(),
        ensures
            r.wf(),
            r.values == values,
            r.validity == validity,
    {
        PrimitiveArray { values, validity }
    }

    /// The value in slot `i`, `None` if the slot is null.
    pub fn get(&self, i: usize) -> (r: Option<T>)
        requires
            self.wf(),
            i < self.values@.len(),
        ensures
            r == (if self.is_valid(i as int) {
                Some(self.values@[i as int])
            } else {
                None
            }),
    {
        match &self.validity {
            Some(valid) => if valid[i] {
                Some(self.values[i])
            } else {
                None
            },
            None => Some(self.values[i]),
        }
    }

    /// The values of all slots as bytes, each value in little-endian order.
    fn value_bytes(&self) -> (r: Vec<u8>)
        ensures
            holds_values(r@, self.raw(), T::width()),
    {
        let width: usize = T::byte_width();
        let mut bytes: Vec<u8> = Vec::new();
        let mut i: usize = 0;
        while i < self.values.len()
            invariant
                i <= self.values@.len(),
                width == T::width(),
                1 <= width <= 8,
                holds_values(bytes@, self.raw().take(i as int), T::width()),
            decreases self.values@.len() - i,
        {
            let x: u64 = self.values[i].to_pattern();
            let ghost v = self.values@[i as int].value();
            let ghost before = bytes@;
            let mut m: usize = 0;
            while m < width
                invariant
                    m <= width,
                    1 <= width <= 8,
                    x == pattern(v),
                    bytes@.len() == before.len() + m,
                    before == bytes@.take(before.len() as int),
                    forall|k: int|
                        0 <= k < 8 * m ==> #[trigger] bit(bytes@, 8 * before.len() + k) == int_bit(
                            v,
                            k,
                        ),
                decreases width - m,
            {
                let ghost prior = bytes@;
                let b: u8 = (x >> (8 * m as u64)) as u8;
                bytes.push(b);
                proof {
                    assert forall|k: int| 0 <= k < 8 * (m + 1) implies #[trigger] bit(
                        bytes@,
                        8 * before.len() + k,
                    ) == int_bit(v, k) by {
                        if k < 8 * m {
                            assert(bit(bytes@, 8 * before.len() + k) == bit(
                                prior,
                                8 * before.len() + k,
                            ));
                        } else {
                            let j = (k - 8 * m) as u8;
                            let s = (8 * m) as u64;
                            let t = k as u64;
                            assert(((x >> s) as u8 >> j) & 1u8 == (x >> t) & 1u64) by (bit_vector)
                                requires
                                    j < 8,
                                    t < 64,
                                    t == s + j,
                            ;
                            lemma_pattern_bit(v, x, k);
                        }
                    }
                    assert(before =~= bytes@.take(before.len() as int));
                }
                m = m + 1;
            }
            proof {
                let done = self.raw().take(i as int);
                let next = self.raw().take(i + 1);
                assert(next =~= done.push(v));
                lemma_holds_one_more(before, bytes@, done, v, T::width());
            }
            i = i + 1;
        }
        proof {
            assert(self.raw().take(i as int) =~= self.raw());
        }
        bytes
    }
}

/// A byte string holds these integers, each in `width` bytes in little-endian
/// two's complement, and nothing else.
pub open spec fn holds_values(bytes: Seq<u8>, values: Seq<int>, width: nat) -> bool {
    &&& bytes.len() == values.len() * width
    &&& forall|i: int, k: int|
        0 <= i < values.len() && 0 <= k < 8 * width ==> #[trigger] value_bit(bytes, width, i, k)
            == int_bit(values[i], k)
}

/// Bit `k` of the `i`-th of the values of `width` bytes in a byte string.
pub open spec fn value_bit(bytes: Seq<u8>, width: nat, i: int, k: int) -> bool {
    bit(bytes, 8 * width * i + k)
}

proof fn lemma_holds_one_more(
    before: Seq<u8>,
    after: Seq<u8>,
    values: Seq<int>,
    v: int,
    width: nat,
)
    requires
        width > 0,
        holds_values(before, values, width),
        after.len() == before.len() + width,
        before == after.take(before.len() as int),
        forall|k: int|
            0 <= k < 8 * width ==> #[trigger] bit(after, 8 * before.len() + k) == int_bit(v, k),
    ensures
        holds_values(after, values.push(v), width),
{
    let n = values.len() as int;
    assert(after.len() == (n + 1) * width) by (nonlinear_arith)
        requires
            after.len() == n * width + width,
    ;
    assert forall|i: int, k: int|
        0 <= i < n + 1 && 0 <= k < 8 * width implies #[trigger] value_bit(after, width, i, k)
        == int_bit(values.push(v)[i], k) by {
        if i == n {
            assert(8 * width * i == 8 * before.len()) by (nonlinear_arith)
                requires
                    before.len() == i * width,
            ;
            assert(value_bit(after, width, i, k) == bit(after, 8 * before.len() + k));
        } else {
            let p = 8 * width * i + k;
            assert(0 <= p < 8 * before.len()) by (nonlinear_arith)
                requires
                    0 <= i < n,
                    0 <= k < 8 * width,
                    p == 8 * width * i + k,
                    before.len() == n * width,
            ;
            assert(before[p / 8] == after[p / 8]);
            assert(value_bit(before, width, i, k) == int_bit(values[i], k));
        }
    }
}

/// A column of any type. Only integer columns can be bitpacked; of the others
/// the library knows the name of the type and the number of slots.
#[derive(Debug)]
pub enum Array {
    UInt8(PrimitiveArray<u8>),
    UInt16(PrimitiveArray<u16>),
    UInt32(PrimitiveArray<u32>),
    UInt64(PrimitiveArray<u64>),
    Int8(PrimitiveArray<i8>),
    Int16(PrimitiveArray<i16>),
    Int32(PrimitiveArray<i32>),
    Int64(PrimitiveArray<i64>),
    Other { data_type: String, len: usize },
}

/// The buffers that hold the values of a column.
#[derive(Debug)]
pub struct ArrayData {
    pub buffers: Vec<Vec<u8>>,
}

impl Array {
    /// Whether the column holds integers.
    pub open spec fn is_integer(self) -> bool {
        self !is Other
    }

    /// The validity covers exactly the slots.
    pub open spec fn wf(self) -> bool {
        match self {
            Array::UInt8(arr) => arr.wf(),
            Array::UInt16(arr) => arr.wf(),
            Array::UInt32(arr) => arr.wf(),
            Array::UInt64(arr) => arr.wf(),
            Array::Int8(arr) => arr.wf(),
            Array::Int16(arr) => arr.wf(),
            Array::Int32(arr) => arr.wf(),
            Array::Int64(arr) => arr.wf(),
            Array::Other { .. } => true,
        }
    }

    /// The number of slots.
    pub open spec fn count(self) -> nat {
        match self {
            Array::UInt8(arr) => arr.values@.len(),
            Array::UInt16(arr) => arr.values@.len(),
            Array::UInt32(arr) => arr.values@.len(),
            Array::UInt64(arr) => arr.values@.len(),
            Array::Int8(arr) => arr.values@.len(),
            Array::Int16(arr) => arr.values@.len(),
            Array::Int32(arr) => arr.values@.len(),
            Array::Int64(arr) => arr.values@.len(),
            Array::Other { len, .. } => len as nat,
        }
    }

    /// The number of bytes of a value, 0 if the column holds no integers.
    pub open spec fn width(self) -> nat {
        match self {
            Array::UInt8(_) => u8::width(),
            Array::UInt16(_) => u16::width(),
            Array::UInt32(_) => u32::width(),
            Array::UInt64(_) => u64::width(),
            Array::Int8(_) => i8::width(),
            Array::Int16(_) => i16::width(),
            Array::Int32(_) => i32::width(),
            Array::Int64(_) => i64::width(),
            Array::Other { .. } => 0,
        }
    }

    /// The integers in all slots, those of null slots included.
    pub open spec fn raw(self) -> Seq<int> {
        match self {
            Array::UInt8(arr) => arr.raw(),
            Array::UInt16(arr) => arr.raw(),
            Array::UInt32(arr) => arr.raw(),
            Array::UInt64(arr) => arr.raw(),
            Array::Int8(arr) => arr.raw(),
            Array::Int16(arr) => arr.raw(),
            Array::Int32(arr) => arr.raw(),
            Array::Int64(arr) => arr.raw(),
            Array::Other { .. } => Seq::empty(),
        }
    }

    /// The slots of an integer column, null slots being `None`.
    pub open spec fn slots(self) -> Seq<Option<int>> {
        match self {
            Array::UInt8(arr) => arr.slots(),
            Array::UInt16(arr) => arr.slots(),
            Array::UInt32(arr) => arr.slots(),
            Array::UInt64(arr) => arr.slots(),
            Array::Int8(arr) => arr.slots(),
            Array::Int16(arr) => arr.slots(),
            Array::Int32(arr) => arr.slots(),
            Array::Int64(arr) => arr.slots(),
            Array::Other { .. } => Seq::empty(),
        }
    }

    /// The number of slots.
    pub fn len(&self) -> (r: usize)
        ensures
            r == self.count(),
    {
        match self {
            Array::UInt8(arr) => arr.values.len(),
            Array::UInt16(arr) => arr.values.len(),
            Array::UInt32(arr) => arr.values.len(),
            Array::UInt64(arr) => arr.values.len(),
            Array::Int8(arr) => arr.values.len(),
            Array::Int16(arr) => arr.values.len(),
            Array::Int32(arr) => arr.values.len(),
            Array::Int64(arr) => arr.values.len(),
            Array::Other { len, .. } => *len,
        }
    }

    /// The number of bytes of a value of an integer column.
    pub fn byte_width(&self) -> (r: usize)
        requires
            self.is_integer(),
        ensures
            r == self.width(),
            r == 1 || r == 2 || r == 4 || r == 8,
    {
        match self {
            Array::UInt8(_) => u8::byte_width(),
            Array::UInt16(_) => u16::byte_width(),
            Array::UInt32(_) => u32::byte_width(),
            Array::UInt64(_) => u64::byte_width(),
            Array::Int8(_) => i8::byte_width(),
            Array::Int16(_) => i16::byte_width(),
            Array::Int32(_) => i32::byte_width(),
            Array::Int64(_) => i64::byte_width(),
            Array::Other { .. } => 0,
        }
    }

    /// The buffers of an integer column: one, with the values of all slots.
    pub fn to_data(&self) -> (r: ArrayData)
        requires
            self.is_integer(),
        ensures
            r.buffers@.len() == 1,
            holds_values(r.buffers@[0]@, self.raw(), self.width()),
    {
        let values: Vec<u8> = match self {
            Array::UInt8(arr) => arr.value_bytes(),
            Array::UInt16(arr) => arr.value_bytes(),
            Array::UInt32(arr) => arr.value_bytes(),
            Array::UInt64(arr) => arr.value_bytes(),
            Array::Int8(arr) => arr.value_bytes(),
            Array::Int16(arr) => arr.value_bytes(),
            Array::Int32(arr) => arr.value_bytes(),
            Array::Int64(arr) => arr.value_bytes(),
            Array::Other { .. } => Vec::new(),
        };
        let mut buffers: Vec<Vec<u8>> = Vec::new();
        buffers.push(values);
        ArrayData { buffers }
    }
}

} // verus!
