use ebml_iterable::tags::TagData;
use webm_iterable::{Block, BlockLacing, SimpleBlock, WebmError};

fn block(track: u64, value: i16, invisible: bool, lacing: Option<BlockLacing>, payload: Vec<u8>) -> Block {
    Block { payload, track, value, invisible, lacing, track_vint_length: None, reserved_flags: 0 }
}

#[test]
fn decode_encode_simple_block() {
    let block_content = vec![0x81, 0x00, 0x01, 0x9d, 0x00, 0x00, 0x00];
    let simple_block = SimpleBlock::try_from_tag_data(TagData::Binary(block_content.clone())).unwrap();

    assert!(simple_block.keyframe);
    assert!(simple_block.discardable);
    assert!(simple_block.block.invisible);
    assert_eq!(Some(BlockLacing::FixedSize), simple_block.block.lacing);
    assert_eq!(1, simple_block.block.track);
    assert_eq!(1, simple_block.block.value);

    let encoded: TagData = simple_block.into_tag_data().unwrap();

    match encoded {
        TagData::Binary(data) => {
            assert_eq!(block_content, data);
        },
        _ => panic!("not binary type?"),
    }
}

#[test]
fn boundary_buffer_decodes_and_reencodes() {
    let bytes = vec![0x81, 0x00, 0x01, 0x9d, 0x00, 0x00, 0x00];
    let sb = SimpleBlock::decode(&bytes).unwrap();
    assert_eq!(sb.block.track, 1);
    assert_eq!(sb.block.value, 1);
    assert!(sb.block.invisible);
    assert_eq!(sb.block.lacing, Some(BlockLacing::FixedSize));
    assert!(sb.keyframe);
    assert!(sb.discardable);
    assert_eq!(sb.block.payload, vec![0x00, 0x00, 0x00]);
    assert_eq!(sb.block.track_vint_length, None);
    assert_eq!(sb.block.reserved_flags, 0x10);
    assert_eq!(sb.encode().unwrap(), bytes);
}

#[test]
fn fresh_block_encodes_exact_bytes() {
    let b = block(5, -2, false, Some(BlockLacing::EBML), vec![1, 2, 3]);
    assert_eq!(b.encode().unwrap(), vec![0x85, 0xFF, 0xFE, 0x06, 1, 2, 3]);
}

#[test]
fn fresh_block_round_trips() {
    let b = block(300, -12345, true, Some(BlockLacing::Xiph), vec![9, 8]);
    let bytes = b.encode().unwrap();
    assert_eq!(bytes, vec![0x41, 0x2C, 0xCF, 0xC7, 0x0A, 9, 8]);
    let d = Block::decode(&bytes).unwrap();
    assert_eq!(d.track, 300);
    assert_eq!(d.value, -12345);
    assert!(d.invisible);
    assert_eq!(d.lacing, Some(BlockLacing::Xiph));
    assert_eq!(d.payload, vec![9, 8]);
    assert_eq!(d.track_vint_length, None);
}

#[test]
fn fresh_simple_block_round_trips() {
    let sb = SimpleBlock { block: block(2, 7, false, None, vec![0xAA]), discardable: false, keyframe: true };
    let bytes = sb.encode().unwrap();
    assert_eq!(bytes, vec![0x82, 0x00, 0x07, 0x80, 0xAA]);
    let d = SimpleBlock::decode(&bytes).unwrap();
    assert!(d.keyframe);
    assert!(!d.discardable);
    assert_eq!(d.block.track, 2);
    assert_eq!(d.block.value, 7);
    assert!(!d.block.invisible);
    assert_eq!(d.block.lacing, None);
    assert_eq!(d.block.payload, vec![0xAA]);
}

#[test]
fn block_bytes_round_trip() {
    let bytes = vec![0x83, 0x80, 0x00, 0x0E, 5, 6];
    let d = Block::decode(&bytes).unwrap();
    assert_eq!(d.value, i16::MIN);
    assert_eq!(d.encode().unwrap(), bytes);
}

#[test]
fn block_ignores_simple_block_bits() {
    let bytes = vec![0x81, 0x00, 0x00, 0x81];
    let d = Block::decode(&bytes).unwrap();
    assert!(!d.invisible);
    assert_eq!(d.lacing, None);
    assert_eq!(d.encode().unwrap(), vec![0x81, 0x00, 0x00, 0x00]);
}

#[test]
fn longer_track_vint_is_kept() {
    let bytes = vec![0x40, 0x01, 0x00, 0x02, 0x08];
    let d = SimpleBlock::decode(&bytes).unwrap();
    assert_eq!(d.block.track, 1);
    assert_eq!(d.block.track_vint_length, Some(2));
    assert!(d.block.invisible);
    assert_eq!(d.encode().unwrap(), bytes);
}

#[test]
fn discardable_changes_only_bit_zero() {
    let a = SimpleBlock { block: block(1, 3, true, Some(BlockLacing::Xiph), vec![4, 5]), discardable: false, keyframe: true };
    let b = SimpleBlock { block: block(1, 3, true, Some(BlockLacing::Xiph), vec![4, 5]), discardable: true, keyframe: true };
    let ea = a.encode().unwrap();
    let eb = b.encode().unwrap();
    assert_eq!(ea.len(), eb.len());
    for i in 0..ea.len() {
        if i == 3 {
            assert_eq!(ea[i] ^ eb[i], 0x01);
        } else {
            assert_eq!(ea[i], eb[i]);
        }
    }
}

#[test]
fn keyframe_changes_only_bit_seven() {
    let a = SimpleBlock { block: block(200, -1, false, Some(BlockLacing::EBML), vec![]), discardable: true, keyframe: false };
    let b = SimpleBlock { block: block(200, -1, false, Some(BlockLacing::EBML), vec![]), discardable: true, keyframe: true };
    let ea = a.encode().unwrap();
    let eb = b.encode().unwrap();
    assert_eq!(ea.len(), eb.len());
    for i in 0..ea.len() {
        if i == 4 {
            assert_eq!(ea[i] ^ eb[i], 0x80);
        } else {
            assert_eq!(ea[i], eb[i]);
        }
    }
}

#[test]
fn every_lacing_code_decodes() {
    let expected = [None, Some(BlockLacing::Xiph), Some(BlockLacing::FixedSize), Some(BlockLacing::EBML)];
    for code in 0..4u8 {
        let bytes = vec![0x81, 0x00, 0x00, code << 1];
        let d = Block::decode(&bytes).unwrap();
        assert_eq!(d.lacing, expected[code as usize]);
        assert_eq!(d.encode().unwrap(), bytes);
    }
}

#[test]
fn truncated_buffers_are_errors() {
    assert_eq!(Block::decode(&[]).err(), Some(WebmError::VintReadError));
    assert_eq!(SimpleBlock::decode(&[0x40]).err(), Some(WebmError::VintReadError));
    assert_eq!(SimpleBlock::decode(&[0x81]).err(), Some(WebmError::TruncatedBlock));
    assert_eq!(SimpleBlock::decode(&[0x81, 0x00, 0x01]).err(), Some(WebmError::TruncatedBlock));
    assert_eq!(Block::decode(&[0x40, 0x01, 0x00, 0x00]).err(), Some(WebmError::TruncatedBlock));
}

#[test]
fn zero_first_byte_is_vint_error() {
    assert_eq!(SimpleBlock::decode(&[0x00, 0x81, 0x00, 0x00, 0x00]).err(), Some(WebmError::VintReadError));
}

#[test]
fn track_127_stays_one_byte() {
    let b = block(127, 0, false, None, vec![]);
    assert_eq!(b.encode().unwrap(), vec![0xFF, 0x00, 0x00, 0x00]);
    let d = Block::decode(&[0xFF, 0x00, 0x00, 0x00]).unwrap();
    assert_eq!(d.track, 127);
    assert_eq!(d.track_vint_length, None);
    assert_eq!(d.encode().unwrap(), vec![0xFF, 0x00, 0x00, 0x00]);
}

#[test]
fn track_128_takes_two_bytes() {
    let b = block(128, 0, false, None, vec![]);
    assert_eq!(b.encode().unwrap(), vec![0x40, 0x80, 0x00, 0x00, 0x00]);
}

#[test]
fn largest_track_encodes_on_eight_bytes() {
    let b = block(0xFF_FFFF_FFFF_FFFE, 0, false, None, vec![]);
    assert_eq!(
        b.encode().unwrap(),
        vec![0x01, 0xFF, 0xFF, 0xFF, 0xFF, 0xFF, 0xFF, 0xFE, 0x00, 0x00, 0x00]
    );
}

#[test]
fn oversized_track_is_write_error() {
    let b = block(0xFF_FFFF_FFFF_FFFF, 0, false, None, vec![]);
    assert_eq!(b.encode().err(), Some(WebmError::VintWriteError));
    let d = Block::decode(&[0x01, 0xFF, 0xFF, 0xFF, 0xFF, 0xFF, 0xFF, 0xFF, 0x00, 0x00, 0x00]).unwrap();
    assert_eq!(d.track, 0xFF_FFFF_FFFF_FFFF);
    assert_eq!(d.encode().err(), Some(WebmError::VintWriteError));
}

#[test]
fn too_short_recorded_vint_length_is_write_error() {
    let mut b = block(300, 0, false, None, vec![]);
    b.track_vint_length = Some(1);
    assert_eq!(b.encode().err(), Some(WebmError::VintWriteError));
    b.track_vint_length = Some(9);
    assert_eq!(b.encode().err(), Some(WebmError::VintWriteError));
}

#[test]
fn non_binary_tag_is_type_mismatch() {
    assert_eq!(SimpleBlock::try_from_tag_data(TagData::UnsignedInt(5)).err(), Some(WebmError::TypeMismatch));
    assert_eq!(Block::try_from_tag_data(TagData::Utf8(String::from("x"))).err(), Some(WebmError::TypeMismatch));
}

#[test]
fn block_through_tag_data() {
    let b = Block::try_from_tag_data(TagData::Binary(vec![0x81, 0x00, 0x05, 0x04, 0x11])).unwrap();
    assert_eq!(b.value, 5);
    assert_eq!(b.lacing, Some(BlockLacing::FixedSize));
    match b.into_tag_data().unwrap() {
        TagData::Binary(data) => assert_eq!(data, vec![0x81, 0x00, 0x05, 0x04, 0x11]),
        _ => panic!("expected binary content"),
    }
}

#[test]
fn unassigned_flag_bits_are_kept() {
    let bytes = vec![0x81, 0x00, 0x00, 0x70];
    let d = Block::decode(&bytes).unwrap();
    assert_eq!(d.reserved_flags, 0x70);
    assert!(!d.invisible);
    assert_eq!(d.lacing, None);
    assert_eq!(d.encode().unwrap(), bytes);
}

#[test]
fn only_unassigned_bits_of_reserved_are_written() {
    let mut b = block(1, 0, false, None, vec![]);
    b.reserved_flags = 0xFF;
    assert_eq!(b.encode().unwrap(), vec![0x81, 0x00, 0x00, 0x70]);
}

#[test]
fn fresh_simple_block_round_trips_through_tag_data() {
    let s0 = SimpleBlock { block: block(4000, -300, true, Some(BlockLacing::EBML), vec![7, 7, 1]), discardable: true, keyframe: false };
    let tag = s0.into_tag_data().unwrap();
    let s = SimpleBlock::try_from_tag_data(tag).unwrap();
    assert_eq!(s.block.track, 4000);
    assert_eq!(s.block.value, -300);
    assert!(s.block.invisible);
    assert_eq!(s.block.lacing, Some(BlockLacing::EBML));
    assert_eq!(s.block.payload, vec![7, 7, 1]);
    assert_eq!(s.block.track_vint_length, None);
    assert_eq!(s.block.reserved_flags, 0);
    assert!(s.discardable);
    assert!(!s.keyframe);
}
