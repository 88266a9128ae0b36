//! What the library takes from `arrow` and `bytes`, with the contracts that are
//! believed of it.
use bytes::Bytes;
use vstd::prelude::*;

verus! {

/// `arrow::util::bit_util::ceil` divides and rounds up. It divides by `divisor`,
/// so a zero divisor is left out.
pub assume_specification[ arrow::util::bit_util::ceil ](value: usize, divisor: usize) -> (r: usize)
    requires
        divisor > 0,
    ensures
        r == (value + divisor - 1) / divisor as int,
;

/// The bitwise "or" of the values that are there, `None` if there is none.
pub open spec fn or_present(slots: Seq<Option<u64>>) -> Option<u64>
    decreases slots.len(),
{
    if slots.len() == 0 {
        None
    } else {
        match (or_present(slots.drop_last()), slots.last()) {
            (None, last) => last,
            (Some(acc), None) => Some(acc),
            (Some(acc), Some(last)) => Some(acc | last),
        }
    }
}

/// `arrow::compute::bit_or` on a `UInt64Array` with these slots: the "or" of the
/// values that are not null, `None` if the array is empty or all null.
#[verifier::external_body]
pub(crate) fn bit_or(slots: Vec<Option<u64>>) -> (r: Option<u64>)
    ensures
        r == or_present(slots@),
{
    arrow::compute::bit_or(&arrow::array::UInt64Array::from(slots))
}

/// `bytes::Bytes`, a shared and immutable byte string.
#[verifier::external_type_specification]
#[verifier::external_body]
pub struct ExBytes(Bytes);

/// The bytes that a `Bytes` holds.
pub uninterp spec fn bytes_contents(b: Bytes) -> Seq<u8>;

/// `Bytes` dereferences to the slice of the bytes that it holds.
pub assume_specification[ <Bytes as core::ops::Deref>::deref ](b: &Bytes) -> (r: &[u8])
    ensures
        r@ == bytes_contents(*b),
;

} // verus!
