use bitpack::array::{Array, PrimitiveArray};
use bitpack::block::Error;
use bitpack::encoder::{pack_array, pack_bits, pack_buffers, BitpackingBufferEncoder};

fn u8s(values: Vec<u8>) -> Array {
    Array::UInt8(PrimitiveArray::new(values, None))
}

fn encode(num_bits: u64, arrays: &[Array]) -> Vec<u8> {
    let encoder = BitpackingBufferEncoder::new(num_bits, false);
    assert!(encoder.can_encode(arrays));
    let (buffer, _) = encoder.encode(arrays).unwrap();
    assert_eq!(1, buffer.parts.len());
    buffer.parts.into_iter().next().unwrap().bytes
}

#[test]
fn packs_the_low_bits_one_after_the_other() {
    // 001 010 111 from the low end: 1 | 2 << 3 | 7 << 6
    assert_eq!(vec![0b11_010_001, 0b1], encode(3, &[u8s(vec![1, 2, 7])]));
    // what lies above the packed bits is left out
    assert_eq!(vec![0b11_010_001, 0b1], encode(3, &[u8s(vec![0xf9, 0x0a, 0xff])]));
    assert_eq!(vec![1, 2, 7], encode(8, &[u8s(vec![1, 2, 7])]));
}

#[test]
fn packs_across_bytes() {
    let values = Array::UInt32(PrimitiveArray::new(vec![0xabcd, 0x1234], None));
    assert_eq!(vec![0xcd, 0xab, 0x34, 0x12], encode(16, &[values]));
    let values = Array::UInt32(PrimitiveArray::new(vec![0xabc, 0x123], None));
    assert_eq!(vec![0xbc, 0x3a, 0x12], encode(12, &[values]));
    let values = Array::Int64(PrimitiveArray::new(vec![-2, i64::MAX], None));
    let mut expected = (-2i64).to_le_bytes().to_vec();
    expected.extend_from_slice(&i64::MAX.to_le_bytes());
    assert_eq!(expected, encode(64, &[values]));
}

#[test]
fn null_slots_are_packed_too() {
    let values = PrimitiveArray::new(vec![1, 3, 2], Some(vec![true, false, true]));
    assert_eq!(vec![0b10_11_01], encode(2, &[Array::UInt8(values)]));
}

#[test]
fn column_boundaries_do_not_matter() {
    let whole = encode(5, &[u8s(vec![1, 2, 3, 4, 31])]);
    assert_eq!(whole, encode(5, &[u8s(vec![1]), u8s(vec![2, 3, 4]), u8s(vec![]), u8s(vec![31])]));
    let mixed = Array::UInt16(PrimitiveArray::new(vec![3, 4, 31], None));
    assert_eq!(whole, encode(5, &[u8s(vec![1, 2]), mixed]));
}

#[test]
fn packed_size_is_rounded_up() {
    for count in 0..20usize {
        let packed = encode(3, &[u8s(vec![5; count])]);
        assert_eq!((3 * count + 7) / 8, packed.len());
        assert!(packed.len() <= count);
    }
}

#[test]
fn describes_the_buffer() {
    let arrays = [Array::Int16(PrimitiveArray::new(vec![-1, 1], None))];
    let (_, meta) = BitpackingBufferEncoder::new(2, true).encode(&arrays).unwrap();
    assert_eq!(16, meta.bits_per_value);
    let bitpacking = meta.bitpacking.unwrap();
    assert_eq!(2, bitpacking.bits_per_value);
    assert!(bitpacking.signed);
    assert!(meta.compression_scheme.is_none());
}

#[test]
fn other_columns_are_refused() {
    let other = |name: &str| Array::Other { data_type: name.to_string(), len: 2 };
    let encoder = BitpackingBufferEncoder::new(3, false);
    let arrays = [u8s(vec![1]), other("Float64"), other("Utf8")];
    assert!(encoder.can_encode(&arrays));
    let Err(Error::InvalidInput { message }) = encoder.encode(&arrays) else {
        panic!("a float column was packed");
    };
    assert_eq!("Invalid data type for bitpacking: Float64", message);

    let mut dst = [7u8];
    let (mut idx, mut offset) = (0, 3);
    let result = pack_array(&other("Utf8"), 3, &mut dst, &mut idx, &mut offset);
    assert!(matches!(
        result,
        Err(Error::InvalidInput { message }) if message == "Invalid data type for bitpacking: Utf8"
    ));
    assert_eq!(([7u8], 0, 3), (dst, idx, offset));
}

#[test]
fn tells_what_it_cannot_encode() {
    assert!(!BitpackingBufferEncoder::new(3, false).can_encode(&[]));
    assert!(!BitpackingBufferEncoder::new(0, false).can_encode(&[u8s(vec![])]));
    assert!(!BitpackingBufferEncoder::new(65, false).can_encode(&[u8s(vec![])]));
    assert!(!BitpackingBufferEncoder::new(9, false).can_encode(&[u8s(vec![1])]));
    assert!(BitpackingBufferEncoder::new(9, false).can_encode(&[u8s(vec![])]));
    assert!(BitpackingBufferEncoder::new(8, false).can_encode(&[u8s(vec![1])]));
    let other = Array::Other { data_type: "Utf8".to_string(), len: usize::MAX };
    assert!(!BitpackingBufferEncoder::new(1, false).can_encode(&[u8s(vec![1]), other]));
    let other = Array::Other { data_type: "Utf8".to_string(), len: 1 };
    assert!(BitpackingBufferEncoder::new(0, false).can_encode(&[other]));
}

#[test]
fn packing_goes_on_where_it_stopped() {
    let mut dst = [0u8; 3];
    let (mut idx, mut offset) = (0, 0);
    pack_bits(&[0xff, 0x01], 3, 1, &mut dst, &mut idx, &mut offset);
    assert_eq!(([0b001_111, 0, 0], 0, 6), (dst, idx, offset));
    pack_bits(&[0x34, 0x12, 0x78, 0x56], 7, 2, &mut dst, &mut idx, &mut offset);
    // 0110100 and 1111000 from bit 6 on
    assert_eq!(([0b00_001_111, 0b000_01101, 0b1111], 2, 4), (dst, idx, offset));
}

#[test]
fn an_incomplete_value_gives_the_bits_it_has() {
    let mut dst = [0u8; 3];
    let (mut idx, mut offset) = (0, 0);
    pack_bits(&[0xbc, 0xfa, 0x5e], 12, 2, &mut dst, &mut idx, &mut offset);
    assert_eq!(([0xbc, 0xea, 0x5], 2, 4), (dst, idx, offset));
}

#[test]
fn packs_the_buffer_of_a_column() {
    let arr = Array::Int16(PrimitiveArray::new(vec![-1, 2], None));
    let data = arr.to_data();
    assert_eq!(vec![vec![0xff, 0xff, 2, 0]], data.buffers);
    let mut dst = [0u8; 1];
    let (mut idx, mut offset) = (0, 0);
    pack_buffers(&data, 3, arr.byte_width(), &mut dst, &mut idx, &mut offset);
    assert_eq!(([0b010_111], 0, 6), (dst, idx, offset));
}
