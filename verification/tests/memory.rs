use typepy_stdlib::bitmap::{test_bit, test_byte_bit};
use typepy_stdlib::memory::{frame_slot, read_i32_le, ByteRegion, WordRegion};
use typepy_stdlib::object::Type;
use typepy_stdlib::roots::get_reference_bitmap_from_rip;
use typepy_stdlib::words::{pack_word, unpack_byte, unpack_i32};

#[test]
fn read_i32_le_reads_little_endian() {
    let region = ByteRegion {
        base: 100,
        bytes: vec![0x78, 0x56, 0x34, 0x12, 0xff, 0xff, 0xff, 0xff, 0x00, 0x00, 0x00, 0x80],
    };
    assert_eq!(read_i32_le(&region, 100), 0x1234_5678);
    assert_eq!(read_i32_le(&region, 104), -1);
    assert_eq!(read_i32_le(&region, 108), i32::MIN);
    assert_eq!(read_i32_le(&region, 101), i32::from_le_bytes([0x56, 0x34, 0x12, 0xff]));
    assert_eq!(region.read(103), 0x12);
}

#[test]
fn reference_map_follows_the_jump() {
    let mut bytes = vec![0u8; 64];
    bytes[13..17].copy_from_slice(&20i32.to_le_bytes());
    bytes[43..47].copy_from_slice(&(-30i32).to_le_bytes());
    let code = ByteRegion { base: 0x40_0000, bytes };
    assert_eq!(get_reference_bitmap_from_rip(&code, 0x40_0000 + 10), 0x40_0000 + 10 + 20 + 7);
    assert_eq!(get_reference_bitmap_from_rip(&code, 0x40_0000 + 40), 0x40_0000 + 40 - 30 + 7);
}

#[test]
fn bitmap_bits_are_little_endian() {
    let bitmap = vec![0b0000_0101, 0b1000_0000];
    let expected = [0u64, 2, 15];
    for i in 0..16u64 {
        assert_eq!(test_bit(&bitmap, i), expected.contains(&i));
        assert_eq!(test_bit(&bitmap, i), (bitmap[(i / 8) as usize] >> (i % 8)) & 1 == 1);
    }
    assert!(test_byte_bit(0x80, 7));
    assert!(!test_byte_bit(0x7f, 7));
}

#[test]
fn word_regions_are_addressed_by_bytes() {
    let mut stack = WordRegion { base: 0x1000, words: vec![1, 2, 3, 4] };
    assert_eq!(stack.load(0x1000), 1);
    assert_eq!(stack.load(0x1018), 4);
    stack.store(0x1008, 20);
    assert_eq!(stack.words, vec![1, 20, 3, 4]);
    assert_eq!(frame_slot(0x1010, 1), 0x1018);
    assert_eq!(frame_slot(0x1010, -2), 0x1000);
    assert_eq!(frame_slot(0x1010, 0), 0x1010);
}

#[test]
fn words_hold_eight_bytes() {
    let bytes = *b"abcdefghij";
    assert_eq!(pack_word(&bytes, 10, 0), u64::from_le_bytes(*b"abcdefgh"));
    assert_eq!(pack_word(&bytes, 10, 1), u64::from_le_bytes([b'i', b'j', 0, 0, 0, 0, 0, 0]));
    assert_eq!(pack_word(&bytes, 9, 1), u64::from_le_bytes([b'i', 0, 0, 0, 0, 0, 0, 0]));
    assert_eq!(pack_word(&bytes, 10, 2), 0);
    let word = 0x0807_0605_0403_0201u64;
    for t in 0..8u8 {
        assert_eq!(unpack_byte(word, t), t + 1);
    }
    assert_eq!(unpack_i32(word), 0x0403_0201);
    assert_eq!(unpack_i32(0xffff_ffff), -1);
    assert_eq!(unpack_i32(0x1_8000_0000), i32::MIN);
}

#[test]
fn type_tags_round_trip() {
    let all = [Type::Other, Type::Int, Type::Bool, Type::Str, Type::ValueList, Type::ObjList];
    let tags = [0, 1, 2, 3, -1, -2];
    for (ty, tag) in all.into_iter().zip(tags) {
        assert_eq!(ty.tag(), tag);
        assert_eq!(Type::from_tag(tag), Some(ty));
    }
    assert_eq!(Type::from_tag(4), None);
    assert_eq!(Type::from_tag(-3), None);
}
