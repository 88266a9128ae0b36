use bitpack::array::{Array, PrimitiveArray};
use bitpack::params::bitpack_params;

/// A sequence of pseudo-random numbers, the same in every run.
struct Random(u64);

impl Random {
    fn next_unit(&mut self) -> f64 {
        self.0 = self.0.wrapping_mul(6364136223846793005).wrapping_add(1442695040888963407);
        (self.0 >> 11) as f64 / (1u64 << 53) as f64
    }
}

/// 10000 slots with the same value, null with the given probability, but not all
/// of them.
fn fill<T: Copy>(value: T, null_probability: f64) -> (Vec<T>, Option<Vec<bool>>) {
    let mut random = Random(42);
    loop {
        let valid: Vec<bool> = (0..10000)
            .map(|_| random.next_unit() >= null_probability)
            .collect();
        if valid.contains(&true) {
            return (vec![value; 10000], Some(valid));
        }
    }
}

fn check_u8(num_bits: u64, null_probability: f64) {
    let (values, validity) = fill(1u8 << (num_bits - 1), null_probability);
    let result = bitpack_params(&Array::UInt8(PrimitiveArray { values, validity }));
    assert!(result.is_some());
    assert_eq!(num_bits, result.unwrap().num_bits);
}

fn check_u16(num_bits: u64, null_probability: f64) {
    let (values, validity) = fill(1u16 << (num_bits - 1), null_probability);
    let result = bitpack_params(&Array::UInt16(PrimitiveArray { values, validity }));
    assert!(result.is_some());
    assert_eq!(num_bits, result.unwrap().num_bits);
}

fn check_u32(num_bits: u64, null_probability: f64) {
    let (values, validity) = fill(1u32 << (num_bits - 1), null_probability);
    let result = bitpack_params(&Array::UInt32(PrimitiveArray { values, validity }));
    assert!(result.is_some());
    assert_eq!(num_bits, result.unwrap().num_bits);
}

fn check_u64(num_bits: u64, null_probability: f64) {
    let (values, validity) = fill(1u64 << (num_bits - 1), null_probability);
    let result = bitpack_params(&Array::UInt64(PrimitiveArray { values, validity }));
    assert!(result.is_some());
    assert_eq!(num_bits, result.unwrap().num_bits);
}

#[test]
fn test_bitpack_params() {
    let test_cases = vec![
        (5u64, 0.0f64),
        (5u64, 0.9f64),
        (1u64, 0.0f64),
        (1u64, 0.5f64),
        (8u64, 0.0f64),
        (8u64, 0.5f64),
    ];
    for (num_bits, null_probability) in &test_cases {
        check_u8(*num_bits, *null_probability);
        check_u16(*num_bits, *null_probability);
        check_u32(*num_bits, *null_probability);
        check_u64(*num_bits, *null_probability);
    }

    // do some test cases that that will only work on larger types
    let test_cases = vec![
        (13u64, 0.0f64),
        (13u64, 0.5f64),
        (16u64, 0.0f64),
        (16u64, 0.5f64),
    ];
    for (num_bits, null_probability) in &test_cases {
        check_u16(*num_bits, *null_probability);
        check_u32(*num_bits, *null_probability);
        check_u64(*num_bits, *null_probability);
    }
    let test_cases = vec![
        (25u64, 0.0f64),
        (25u64, 0.5f64),
        (32u64, 0.0f64),
        (32u64, 0.5f64),
    ];
    for (num_bits, null_probability) in &test_cases {
        check_u32(*num_bits, *null_probability);
        check_u64(*num_bits, *null_probability);
    }
    let test_cases = vec![
        (48u64, 0.0f64),
        (48u64, 0.5f64),
        (64u64, 0.0f64),
        (64u64, 0.5f64),
    ];
    for (num_bits, null_probability) in &test_cases {
        check_u64(*num_bits, *null_probability);
    }

    // test that it returns None for datatypes that don't support bitpacking
    let arr = Array::Other { data_type: "Float64".to_string(), len: 3 };
    let result = bitpack_params(&arr);
    assert!(result.is_none());
}

#[test]
fn test_num_compressed_bits_signed_types() {
    let arr = Array::Int32(PrimitiveArray::new(vec![1, 2, -7], None));
    let result = bitpack_params(&arr);
    assert!(result.is_some());
    let result = result.unwrap();
    assert_eq!(4, result.num_bits);
    assert!(result.signed);

    // check that it doesn't add a sign bit if it doesn't need to
    let arr = Array::Int32(PrimitiveArray::new(vec![1, 2, 7], None));
    let result = bitpack_params(&arr);
    assert!(result.is_some());
    let result = result.unwrap();
    assert_eq!(3, result.num_bits);
    assert!(!result.signed);
}

#[test]
fn empty_and_null_columns_have_no_parameters() {
    assert!(bitpack_params(&Array::UInt16(PrimitiveArray::new(vec![], None))).is_none());
    assert!(bitpack_params(&Array::Int8(PrimitiveArray::new(vec![], None))).is_none());
    let nulls = Some(vec![false, false]);
    assert!(bitpack_params(&Array::UInt32(PrimitiveArray::new(vec![9, 9], nulls.clone()))).is_none());
    assert!(bitpack_params(&Array::Int64(PrimitiveArray::new(vec![-9, 9], nulls))).is_none());
}

#[test]
fn zeros_take_one_bit() {
    let unsigned = bitpack_params(&Array::UInt64(PrimitiveArray::new(vec![0, 0], None))).unwrap();
    assert_eq!((1, false), (unsigned.num_bits, unsigned.signed));
    let signed = bitpack_params(&Array::Int16(PrimitiveArray::new(vec![0, 0], None))).unwrap();
    assert_eq!((1, false), (signed.num_bits, signed.signed));
}

#[test]
fn unsigned_values_are_combined() {
    // no single value has the highest bit of each of the others
    let p = bitpack_params(&Array::UInt8(PrimitiveArray::new(vec![1, 2, 4, 9], None))).unwrap();
    assert_eq!((4, false), (p.num_bits, p.signed));
    let p = bitpack_params(&Array::UInt8(PrimitiveArray::new(vec![255], None))).unwrap();
    assert_eq!((8, false), (p.num_bits, p.signed));
}

#[test]
fn values_of_null_slots_do_not_count() {
    let valid = Some(vec![true, false, true]);
    let p = bitpack_params(&Array::UInt16(PrimitiveArray::new(vec![3, 60000, 1], valid.clone())))
        .unwrap();
    assert_eq!((2, false), (p.num_bits, p.signed));
    let p = bitpack_params(&Array::Int16(PrimitiveArray::new(vec![3, -30000, 1], valid))).unwrap();
    assert_eq!((2, false), (p.num_bits, p.signed));
}

#[test]
fn signed_extremes() {
    let p = bitpack_params(&Array::Int64(PrimitiveArray::new(vec![-1], None))).unwrap();
    assert_eq!((1, true), (p.num_bits, p.signed));
    let p = bitpack_params(&Array::Int64(PrimitiveArray::new(vec![i64::MIN, i64::MAX], None)))
        .unwrap();
    assert_eq!((64, true), (p.num_bits, p.signed));
    let p = bitpack_params(&Array::Int64(PrimitiveArray::new(vec![i64::MAX], None))).unwrap();
    assert_eq!((63, false), (p.num_bits, p.signed));
    let p = bitpack_params(&Array::Int8(PrimitiveArray::new(vec![-128, 5], None))).unwrap();
    assert_eq!((8, true), (p.num_bits, p.signed));
    let p = bitpack_params(&Array::Int8(PrimitiveArray::new(vec![-8, 7], None))).unwrap();
    assert_eq!((4, true), (p.num_bits, p.signed));
    let p = bitpack_params(&Array::Int8(PrimitiveArray::new(vec![-8, 8], None))).unwrap();
    assert_eq!((5, true), (p.num_bits, p.signed));
}
