use bytes::{Bytes, BytesMut};
use rs8583::bitmap::BitMap;
use rs8583::error::RS8583Error;

fn read(wire: &[u8]) -> (Result<BitMap, RS8583Error>, Vec<u8>) {
    let mut cursor = Bytes::from(wire.to_vec());
    let bitmap = BitMap::from_cursor(&mut cursor);
    (bitmap, cursor.to_vec())
}

fn written(bitmap: &BitMap) -> Vec<u8> {
    let mut buf = BytesMut::new();
    bitmap.serialize(&mut buf);
    buf.to_vec()
}

fn set_bits(bitmap: &BitMap) -> Vec<usize> {
    (0..bitmap.len()).filter(|idx| bitmap.test(*idx)).collect()
}

#[test]
fn new_bitmap_is_one_clear_chunk() {
    let bitmap = BitMap::new();
    assert_eq!(bitmap.len(), 64);
    assert_eq!(set_bits(&bitmap), Vec::<usize>::new());
    assert_eq!(bitmap.iter_set(), Vec::<usize>::new());
    assert_eq!(written(&bitmap), [0u8; 8]);
}

#[test]
fn bits_count_from_the_low_end_of_the_first_byte() {
    let (bitmap, rest) = read(b"\x56\x00\x00\x00\x00\x00\x00\x00rest");
    let bitmap = bitmap.unwrap();
    assert_eq!(bitmap.len(), 64);
    assert_eq!(set_bits(&bitmap), [1, 2, 4, 6]);
    assert_eq!(rest, b"rest");
}

#[test]
fn bits_run_through_the_bytes_in_order() {
    let (bitmap, _) = read(b"\x00\x01\x00\x00\x80\x00\x00\x80");
    let bitmap = bitmap.unwrap();
    assert_eq!(set_bits(&bitmap), [8, 39, 63]);
    assert_eq!(bitmap.iter_set(), [8, 39, 63]);
}

#[test]
fn a_set_first_bit_brings_the_next_chunk() {
    let wire = b"\x03\x00\x00\x00\x00\x00\x00\x00\x04\x00\x00\x00\x00\x00\x00\x00tail";
    let (bitmap, rest) = read(wire);
    let bitmap = bitmap.unwrap();
    assert_eq!(bitmap.len(), 128);
    assert_eq!(set_bits(&bitmap), [0, 1, 66]);
    assert_eq!(bitmap.iter_set(), [1, 66]);
    assert_eq!(rest, b"tail");
    assert_eq!(written(&bitmap), &wire[..16]);
}

#[test]
fn three_chunks_are_read() {
    let mut wire = Vec::new();
    wire.extend_from_slice(&[0x01, 0, 0, 0, 0, 0, 0, 0]);
    wire.extend_from_slice(&[0x01, 0, 0, 0, 0, 0, 0, 0x80]);
    wire.extend_from_slice(&[0x02, 0, 0, 0, 0, 0, 0, 0]);
    wire.extend_from_slice(b"x");
    let (bitmap, rest) = read(&wire);
    let bitmap = bitmap.unwrap();
    assert_eq!(bitmap.len(), 192);
    assert_eq!(set_bits(&bitmap), [0, 64, 127, 129]);
    assert_eq!(bitmap.iter_set(), [127, 129]);
    assert_eq!(rest, b"x");
    assert_eq!(written(&bitmap), &wire[..24]);
}

#[test]
fn reading_goes_on_while_the_first_bit_is_set() {
    let mut wire = Vec::new();
    for _ in 0..4 {
        wire.extend_from_slice(&[0x01, 0, 0, 0, 0, 0, 0, 0]);
    }
    wire.extend_from_slice(&[0x10, 0, 0, 0, 0, 0, 0, 0]);
    let (bitmap, rest) = read(&wire);
    let bitmap = bitmap.unwrap();
    assert_eq!(bitmap.len(), 320);
    assert_eq!(bitmap.iter_set(), [260]);
    assert!(rest.is_empty());
}

#[test]
fn truncated_bitmap() {
    let failure = RS8583Error::ParseError { error: String::from("Truncated bitmap") };
    let (bitmap, rest) = read(b"");
    assert_eq!(bitmap.err(), Some(RS8583Error::ParseError { error: String::from("Truncated bitmap") }));
    assert!(rest.is_empty());
    let (bitmap, rest) = read(b"\x02\x00\x00\x00\x00\x00\x00");
    assert_eq!(bitmap.err().as_ref(), Some(&failure));
    assert_eq!(rest, b"\x02\x00\x00\x00\x00\x00\x00");
    let (bitmap, rest) = read(b"\x01\x00\x00\x00\x00\x00\x00\x00\x02\x00\x00");
    assert_eq!(bitmap.err().as_ref(), Some(&failure));
    assert_eq!(rest, b"\x02\x00\x00");
    let (bitmap, rest) = read(b"\x01\x00\x00\x00\x00\x00\x00\x00");
    assert_eq!(bitmap.err().as_ref(), Some(&failure));
    assert!(rest.is_empty());
}

#[test]
fn test_beyond_the_length_is_false() {
    let mut bitmap = BitMap::new();
    bitmap.set(63);
    assert!(bitmap.test(63));
    assert!(!bitmap.test(64));
    assert!(!bitmap.test(1000));
    assert!(!bitmap.test(usize::MAX));
}

#[test]
fn set_within_the_first_chunk() {
    let mut bitmap = BitMap::new();
    bitmap.set(7);
    assert_eq!(bitmap.len(), 64);
    assert_eq!(set_bits(&bitmap), [7]);
    assert!(!bitmap.test(0));
    assert_eq!(written(&bitmap), b"\x80\x00\x00\x00\x00\x00\x00\x00");
}

#[test]
fn set_grows_to_the_chunk_of_the_bit() {
    let mut bitmap = BitMap::new();
    bitmap.set(63);
    assert_eq!(bitmap.len(), 64);
    bitmap.set(64);
    assert_eq!(bitmap.len(), 128);
    assert_eq!(set_bits(&bitmap), [0, 63, 64]);
    bitmap.set(191);
    assert_eq!(bitmap.len(), 192);
    assert_eq!(set_bits(&bitmap), [0, 63, 64, 191]);
    bitmap.set(5);
    assert_eq!(bitmap.len(), 192);
}

#[test]
fn set_in_the_second_chunk_sets_the_first_continuation_bit() {
    let mut bitmap = BitMap::new();
    bitmap.set(100);
    assert_eq!(bitmap.len(), 128);
    assert_eq!(set_bits(&bitmap), [0, 100]);
    assert_eq!(bitmap.iter_set(), [100]);
}

#[test]
fn set_in_the_third_chunk_sets_both_continuation_bits() {
    let mut bitmap = BitMap::new();
    bitmap.set(150);
    assert_eq!(bitmap.len(), 192);
    assert_eq!(set_bits(&bitmap), [0, 64, 150]);
    assert_eq!(bitmap.iter_set(), [150]);
}

#[test]
fn set_far_out_sets_every_continuation_bit_before() {
    let mut bitmap = BitMap::new();
    bitmap.set(300);
    assert_eq!(bitmap.len(), 320);
    assert_eq!(set_bits(&bitmap), [0, 64, 128, 192, 300]);
}

#[test]
fn set_restores_a_cleared_continuation_bit() {
    let mut bitmap = BitMap::new();
    bitmap.set(100);
    bitmap.clear(0);
    assert_eq!(set_bits(&bitmap), [100]);
    bitmap.set(101);
    assert_eq!(set_bits(&bitmap), [0, 100, 101]);
}

#[test]
fn set_twice_is_set_once() {
    let mut bitmap = BitMap::new();
    bitmap.set(9);
    bitmap.set(9);
    assert_eq!(set_bits(&bitmap), [9]);
}

#[test]
fn clear_keeps_the_length_and_the_other_bits() {
    let mut bitmap = BitMap::new();
    bitmap.set(3);
    bitmap.set(100);
    bitmap.clear(100);
    assert_eq!(bitmap.len(), 128);
    assert_eq!(set_bits(&bitmap), [0, 3]);
    assert_eq!(written(&bitmap).len(), 16);
    bitmap.clear(3);
    assert_eq!(set_bits(&bitmap), [0]);
    bitmap.clear(3);
    bitmap.clear(5000);
    assert_eq!(bitmap.len(), 128);
    assert_eq!(set_bits(&bitmap), [0]);
}

#[test]
fn iter_set_leaves_the_continuation_bits_out() {
    let mut wire = vec![0xffu8; 24];
    wire[16] = 0xfe;
    let (bitmap, _) = read(&wire);
    let bitmap = bitmap.unwrap();
    assert_eq!(bitmap.len(), 192);
    let present = bitmap.iter_set();
    assert_eq!(present.len(), 189);
    assert!(present.iter().all(|idx| idx % 64 != 0));
    assert!(present.windows(2).all(|pair| pair[0] < pair[1]));
    for idx in 0..192 {
        assert_eq!(present.contains(&idx), bitmap.test(idx) && idx % 64 != 0);
    }
}

#[test]
fn serialize_writes_behind_what_is_there() {
    let mut bitmap = BitMap::new();
    bitmap.set(1);
    bitmap.set(8);
    bitmap.set(63);
    let mut buf = BytesMut::new();
    buf.extend_from_slice(b"0120");
    bitmap.serialize(&mut buf);
    assert_eq!(buf.as_ref(), b"0120\x02\x01\x00\x00\x00\x00\x00\x80");
}

#[test]
fn a_bitmap_read_is_written_back_as_it_was() {
    let wires: [&[u8]; 3] = [
        b"\x56\x00\x00\x00\x00\x00\x00\x00",
        b"\xff\xee\xdd\xcc\xbb\xaa\x99\x88\x76\x65\x54\x43\x32\x21\x10\x0f",
        b"\x01\x02\x03\x04\x05\x06\x07\x08\x09\x0a\x0b\x0c\x0d\x0e\x0f\x10\x12\x34\x56\x78\x9a\xbc\xde\xf0",
    ];
    for wire in wires {
        let (bitmap, rest) = read(wire);
        assert!(rest.is_empty());
        assert_eq!(written(&bitmap.unwrap()), wire);
    }
}
