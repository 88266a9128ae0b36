use std::ops::Range;

use bytes::Bytes;

use bitpack::array::{Array, PrimitiveArray};
use bitpack::block::DataBlock;
use bitpack::decoder::{
    compute_start_offset, is_encoded_item_negative, rows_in_buffer, BitpackedPageDecoder,
    BufferStartOffset, StartOffset,
};
use bitpack::encoder::BitpackingBufferEncoder;
use bitpack::params::bitpack_params;
use bitpack::scheduler::BitpackedScheduler;

#[test]
fn test_rows_in_buffer() {
    let test_cases = vec![
        (5usize, 5u64, 0u8, None, 8u64),
        (2, 3, 0, Some(5), 4),
        (2, 3, 7, Some(6), 2),
    ];

    for (buffer_len, bits_per_value, buffer_start_bit_offset, buffer_end_bit_offset, expected) in
        test_cases
    {
        let result = rows_in_buffer(
            buffer_len,
            bits_per_value,
            buffer_start_bit_offset,
            buffer_end_bit_offset,
        );
        assert_eq!(expected, result);
    }
}

#[test]
fn test_compute_start_offset() {
    let result = compute_start_offset(0, 5, 5, 0, None);
    assert_eq!(
        StartOffset::SkipSome(BufferStartOffset {
            index: 0,
            bit_offset: 0
        }),
        result
    );

    let result = compute_start_offset(10, 5, 5, 0, None);
    assert_eq!(StartOffset::SkipFull(8), result);
}

#[test]
fn start_offset_counts_from_the_first_value() {
    let start = |index, bit_offset| StartOffset::SkipSome(BufferStartOffset { index, bit_offset });
    assert_eq!(start(1, 7), compute_start_offset(3, 5, 5, 0, None));
    assert_eq!(start(1, 2), compute_start_offset(1, 2, 3, 7, Some(6)));
    assert_eq!(StartOffset::SkipFull(2), compute_start_offset(2, 2, 3, 7, Some(6)));
    assert_eq!(StartOffset::SkipFull(0), compute_start_offset(0, 0, 3, 0, None));
}

#[test]
fn sign_is_the_highest_packed_bit() {
    let src = Bytes::from(vec![0b1000_0000, 0b0000_0101]);
    assert!(is_encoded_item_negative(&src, 0, 5, 3));
    assert!(!is_encoded_item_negative(&src, 0, 4, 3));
    assert!(is_encoded_item_negative(&src, 0, 6, 3));
    assert!(!is_encoded_item_negative(&src, 0, 6, 4));
    assert!(is_encoded_item_negative(&src, 1, 0, 3));
    assert!(!is_encoded_item_negative(&src, 1, 0, 8));
}

fn decoder(
    bits_per_value: u64,
    uncompressed_bits_per_value: u64,
    signed: bool,
    buffers: Vec<(u8, Option<u8>, Vec<u8>)>,
) -> BitpackedPageDecoder {
    BitpackedPageDecoder {
        buffer_bit_start_offsets: buffers.iter().map(|b| b.0).collect(),
        buffer_bit_end_offsets: buffers.iter().map(|b| b.1).collect(),
        bits_per_value,
        uncompressed_bits_per_value,
        signed,
        data: buffers.into_iter().map(|b| Bytes::from(b.2)).collect(),
    }
}

fn decode(decoder: &BitpackedPageDecoder, rows_to_skip: u64, num_rows: u64) -> Vec<u8> {
    assert!(decoder.can_decode(rows_to_skip, num_rows));
    let DataBlock::FixedWidth(block) = decoder.decode(rows_to_skip, num_rows).unwrap();
    assert_eq!(decoder.uncompressed_bits_per_value, block.bits_per_value);
    assert_eq!(num_rows, block.num_values);
    block.data.bytes
}

#[test]
fn decodes_unsigned_values() {
    let page = decoder(3, 8, false, vec![(0, Some(1), vec![0b11_010_001, 0b1])]);
    assert_eq!(vec![1, 2, 7], decode(&page, 0, 3));
    assert_eq!(vec![2, 7], decode(&page, 1, 2));
    assert_eq!(vec![2], decode(&page, 1, 1));
    let page = decoder(12, 32, false, vec![(0, None, vec![0xbc, 0x3a, 0x12])]);
    assert_eq!(vec![0xbc, 0x0a, 0, 0, 0x23, 0x01, 0, 0], decode(&page, 0, 2));
}

#[test]
fn rows_that_are_not_there_are_zero() {
    let page = decoder(3, 8, false, vec![(0, Some(1), vec![0b11_010_001, 0b1])]);
    assert_eq!(vec![7, 0, 0], decode(&page, 2, 3));
    assert_eq!(vec![0], decode(&page, 3, 1));
    assert_eq!(Vec::<u8>::new(), decode(&page, 0, 0));
}

#[test]
fn negative_values_are_extended() {
    // 1, 2 and -7 in four bits
    let page = decoder(4, 32, true, vec![(0, Some(4), vec![0x21, 0x09])]);
    let mut expected = 1i32.to_le_bytes().to_vec();
    expected.extend_from_slice(&2i32.to_le_bytes());
    expected.extend_from_slice(&(-7i32).to_le_bytes());
    assert_eq!(expected, decode(&page, 0, 3));
    // the same bits without a sign
    let page = decoder(4, 8, false, vec![(0, Some(4), vec![0x21, 0x09])]);
    assert_eq!(vec![1, 2, 9], decode(&page, 0, 3));
    // whole bytes
    let page = decoder(8, 32, true, vec![(0, None, vec![0xf9, 0x7f])]);
    assert_eq!(vec![0xf9, 0xff, 0xff, 0xff, 0x7f, 0, 0, 0], decode(&page, 0, 2));
}

#[test]
fn buffers_follow_each_other() {
    // rows 1..3 and 4..8 of 0..8 in five bits
    let page = decoder(
        5,
        8,
        false,
        vec![
            (5, Some(7), vec![0b001_00000, 0b1_00010_00]),
            (4, None, vec![0b0100_0001, 0b10_00101_0, 0b00111_001]),
        ],
    );
    assert_eq!(vec![1, 2, 4, 5, 6, 7], decode(&page, 0, 6));
    assert_eq!(vec![4, 5], decode(&page, 2, 2));
    assert_eq!(vec![2], decode(&page, 1, 1));
}

#[test]
fn a_skip_into_a_buffer_is_repeated_in_the_next() {
    let page = decoder(8, 8, false, vec![(0, None, vec![1, 2, 3]), (0, None, vec![4, 5, 6])]);
    assert_eq!(vec![2, 3, 5, 6], decode(&page, 1, 4));
    let page = decoder(8, 8, false, vec![(0, None, vec![1, 2, 3]), (0, None, vec![4, 5])]);
    assert_eq!(vec![3, 0, 0], decode(&page, 2, 3));
}

#[test]
fn tells_what_it_cannot_decode() {
    let bytes = vec![0b11_010_001, 0b1];
    assert!(!decoder(0, 8, false, vec![]).can_decode(0, 0));
    assert!(!decoder(65, 128, false, vec![]).can_decode(0, 0));
    assert!(decoder(64, 64, false, vec![]).can_decode(0, 0));
    // too many rows
    assert!(!decoder(3, 64, false, vec![]).can_decode(0, u64::MAX));
    // offsets that do not lie in the buffer
    assert!(!decoder(3, 8, false, vec![(0, Some(9), bytes.clone())]).can_decode(0, 1));
    assert!(!decoder(3, 8, false, vec![(10, Some(1), bytes.clone())]).can_decode(0, 1));
    assert!(!decoder(3, 8, false, vec![(0, Some(1), vec![])]).can_decode(0, 1));
    // a value that is wider than what it is decoded into
    assert!(!decoder(9, 8, false, vec![(0, None, bytes.clone())]).can_decode(0, 1));
    assert!(decoder(9, 8, false, vec![(0, None, bytes.clone())]).can_decode(1, 1));
    // a last row that is not complete
    let page = decoder(3, 8, false, vec![(0, None, bytes.clone())]);
    assert!(page.can_decode(0, 5));
    assert!(!page.can_decode(0, 6));
    // offsets that are missing
    let mut page = decoder(3, 8, false, vec![(0, Some(1), bytes)]);
    assert!(page.can_decode(0, 3));
    page.buffer_bit_start_offsets.clear();
    assert!(!page.can_decode(0, 3));
}

#[test]
fn schedules_the_bytes_of_each_range() {
    let scheduler = BitpackedScheduler::new(5, 8, 100, true);
    let ranges = [1..3, 4..8, 8..8, 3..3];
    assert!(scheduler.can_schedule(&ranges));
    let page = scheduler.schedule_ranges(&ranges, 77);
    assert_eq!(vec![100..102, 102..105, 105..105, 101..102], page.byte_ranges);
    assert_eq!(vec![5, 4, 0, 7], page.buffer_bit_start_offsets);
    assert_eq!(vec![Some(7), None, None, Some(7)], page.buffer_bit_end_offsets);
    assert_eq!(100..105, page.spread);
    assert_eq!(77, page.top_level_row);
    assert_eq!((5, 8, true), (page.bits_per_value, page.uncompressed_bits_per_value, page.signed));

    let none = scheduler.schedule_ranges(&[], 0);
    assert!(none.byte_ranges.is_empty());
    assert_eq!(u64::MAX..0, none.spread);
}

#[test]
fn tells_what_it_cannot_schedule() {
    let scheduler = BitpackedScheduler::new(5, 8, 100, false);
    assert!(!scheduler.can_schedule(&[0..u64::MAX]));
    assert!(!scheduler.can_schedule(&[0..1, u64::MAX..1]));
    let far = BitpackedScheduler::new(5, 8, u64::MAX, false);
    assert!(!far.can_schedule(&[0..1]));
    assert!(far.can_schedule(&[0..0, 1..0]));
    assert!(!far.can_schedule(&[2..0]));
}

#[test]
fn an_error_is_handed_on() {
    let page = BitpackedScheduler::new(5, 8, 0, false).schedule_ranges(&[0..1], 0);
    assert_eq!("no disk", page.into_decoder(Err("no disk")).unwrap_err());
}

/// Packs a column with the parameters that it asks for, stores it behind some
/// other bytes, and reads ranges of its rows.
fn round_trip(
    arr: Array,
    ranges: Vec<Range<u64>>,
    rows_to_skip: u64,
    num_rows: u64,
) -> Vec<u8> {
    let params = bitpack_params(&arr).unwrap();
    let width = 8 * arr.byte_width() as u64;
    let arrays = [arr];
    let encoder = BitpackingBufferEncoder::new(params.num_bits, params.signed);
    assert!(encoder.can_encode(&arrays));
    let (buffer, meta) = encoder.encode(&arrays).unwrap();
    assert_eq!(width, meta.bits_per_value);
    let mut file = vec![0xa5; 7];
    file.extend_from_slice(&buffer.parts[0].bytes);
    file.extend_from_slice(&[0x5a; 9]);
    let scheduler = BitpackedScheduler::new(params.num_bits, width, 7, params.signed);
    assert!(scheduler.can_schedule(&ranges));
    let page = scheduler.schedule_ranges(&ranges, 0);
    let data: Vec<Bytes> = page
        .byte_ranges
        .iter()
        .map(|r| Bytes::from(file[r.start as usize..r.end as usize].to_vec()))
        .collect();
    let decoder = page.into_decoder(Ok::<_, ()>(data)).unwrap();
    decode(&decoder, rows_to_skip, num_rows)
}

#[test]
fn stored_columns_are_read_back() {
    for shift in 0..64u32 {
        let values: Vec<u64> = (0..40u64)
            .map(|i| i.wrapping_mul(0x9e37_79b9_7f4a_7c15) >> shift)
            .collect();
        let bytes = |rows: Vec<usize>| -> Vec<u8> {
            rows.iter().flat_map(|r| values[*r].to_le_bytes()).collect()
        };
        let column = || Array::UInt64(PrimitiveArray::new(values.clone(), None));
        assert_eq!(bytes((0..40).collect()), round_trip(column(), vec![0..40], 0, 40));
        assert_eq!(bytes((5..31).collect()), round_trip(column(), vec![2..37], 3, 26));
        assert_eq!(
            bytes(vec![3, 4, 5, 9, 10, 39]),
            round_trip(column(), vec![3..6, 9..11, 20..20, 39..40], 0, 6)
        );
        assert_eq!(
            bytes(vec![9, 10, 39]),
            round_trip(column(), vec![3..6, 9..11, 39..40], 3, 3)
        );
    }
}

#[test]
fn stored_signed_columns_are_read_back() {
    for shift in 0..32u32 {
        let values: Vec<i32> = (0..40u32)
            .map(|i| (i.wrapping_mul(0x9e37_79b9) as i32) >> shift)
            .collect();
        let bytes = |rows: Range<usize>| -> Vec<u8> {
            rows.flat_map(|r| values[r].to_le_bytes()).collect()
        };
        let column = || Array::Int32(PrimitiveArray::new(values.clone(), None));
        assert_eq!(bytes(0..40), round_trip(column(), vec![0..40], 0, 40));
        assert_eq!(bytes(7..19), round_trip(column(), vec![1..40], 6, 12));
    }
    let values = vec![-128i8, 127, 0, -1];
    let bytes: Vec<u8> = values.iter().map(|v| *v as u8).collect();
    let column = Array::Int8(PrimitiveArray::new(values, None));
    assert_eq!(bytes, round_trip(column, vec![0..4], 0, 4));
}

#[test]
fn reading_in_pieces_reads_the_same() {
    let values: Vec<u16> = (0..50u16).map(|i| i * 37 % 1000).collect();
    let column = || Array::UInt16(PrimitiveArray::new(values.clone(), None));
    let mut pieces = round_trip(column(), vec![0..50], 4, 11);
    pieces.extend(round_trip(column(), vec![0..50], 15, 20));
    assert_eq!(pieces, round_trip(column(), vec![0..50], 4, 31));
}

#[test]
fn an_incomplete_last_row_is_read_but_not_counted() {
    // 1, 2, 3, 4 and 5 in three bits; the values are said to end in the fifth row
    let page = decoder(3, 8, false, vec![(0, Some(5), vec![0xd1, 0x58])]);
    assert_eq!(vec![1, 2, 3, 4, 5], decode(&page, 0, 5));
    assert_eq!(vec![1, 2], decode(&page, 0, 2));
    assert_eq!(vec![3, 4, 5], decode(&page, 2, 3));
    // behind the four complete rows there is nothing left to skip to
    assert_eq!(vec![0], decode(&page, 4, 1));
    // within the complete rows the last one does not matter
    assert_eq!(vec![2, 3], decode(&page, 1, 2));
}
