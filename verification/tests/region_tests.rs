use std::io::Write;

use mca_reader::nbt::{read_nbt, NbtValue};
use mca_reader::region::{read_locations, read_mca, Location};
use mca_reader::NbtError;

fn zlib_compress(data: &[u8]) -> Vec<u8> {
    let mut enc = flate2::write::ZlibEncoder::new(Vec::new(), flate2::Compression::default());
    enc.write_all(data).unwrap();
    enc.finish().unwrap()
}

/// A region buffer whose slot 0 points at sector 2 and holds one frame with
/// the given compression type and payload.
fn region_with_frame(compression_type: u8, payload: &[u8]) -> Vec<u8> {
    let mut bytes = vec![0u8; 8192];
    bytes[2] = 2;
    bytes[3] = 1;
    let length = (payload.len() + 1) as u32;
    bytes.extend_from_slice(&length.to_be_bytes());
    bytes.push(compression_type);
    bytes.extend_from_slice(payload);
    bytes
}

#[test]
fn all_zero_table_decodes_to_nothing() {
    let bytes = vec![0u8; 8192];
    let locs = read_locations(&bytes).unwrap();
    assert_eq!(locs.len(), 1024);
    for loc in locs.iter() {
        assert_eq!(*loc, Location { offset: 0, sector_count: 0 });
    }
    let outcomes = read_mca(&bytes).unwrap();
    assert_eq!(outcomes.len(), 0);
}

#[test]
fn location_entry_decodes_offset_and_count() {
    let mut bytes = vec![0u8; 8192];
    bytes[0] = 0;
    bytes[1] = 0;
    bytes[2] = 2;
    bytes[3] = 1;
    let locs = read_locations(&bytes).unwrap();
    assert_eq!(locs[0], Location { offset: 2, sector_count: 1 });
    assert_eq!(locs[0].offset as usize * 4096, 8192);
}

#[test]
fn gzip_compression_type_is_rejected_before_inflating() {
    let bytes = region_with_frame(1, &[0xAB, 0xCD]);
    let outcomes = read_mca(&bytes).unwrap();
    assert_eq!(outcomes.len(), 1);
    assert_eq!(outcomes[0].slot, 0);
    assert_eq!(outcomes[0].result, Err(NbtError::UnsupportedCompressionType(1)));
}

#[test]
fn garbage_zlib_stream_is_a_decompression_error() {
    let bytes = region_with_frame(2, &[0xFF, 0xFF, 0xFF, 0xFF]);
    let outcomes = read_mca(&bytes).unwrap();
    assert_eq!(outcomes.len(), 1);
    assert_eq!(outcomes[0].result, Err(NbtError::DecompressionError));
}

#[test]
fn short_header_is_fatal() {
    let bytes = vec![0u8; 8191];
    assert_eq!(read_mca(&bytes), Err(NbtError::TruncatedHeader));
    let short = vec![0u8; 4095];
    assert!(read_locations(&short).is_err());
}

#[test]
fn frame_past_end_is_truncated_chunk() {
    let mut bytes = vec![0u8; 8192];
    bytes[2] = 3;
    bytes[3] = 1;
    let outcomes = read_mca(&bytes).unwrap();
    assert_eq!(outcomes.len(), 1);
    assert_eq!(outcomes[0].result, Err(NbtError::TruncatedChunk));
}

#[test]
fn zero_frame_length_is_invalid() {
    let mut bytes = vec![0u8; 8192 + 5];
    bytes[2] = 2;
    bytes[3] = 1;
    let outcomes = read_mca(&bytes).unwrap();
    assert_eq!(outcomes.len(), 1);
    assert_eq!(outcomes[0].result, Err(NbtError::InvalidLength));
}

#[test]
fn frame_length_past_end_is_truncated_chunk() {
    let mut bytes = vec![0u8; 8192];
    bytes[2] = 2;
    bytes[3] = 1;
    bytes.extend_from_slice(&[0x00, 0x00, 0x10, 0x00, 0x02]);
    let outcomes = read_mca(&bytes).unwrap();
    assert_eq!(outcomes.len(), 1);
    assert_eq!(outcomes[0].result, Err(NbtError::TruncatedChunk));
}

#[test]
fn whole_region_round_trip() {
    let nbt: Vec<u8> = vec![0x0A, 0x00, 0x00, 0x02, 0x00, 0x01, b'x', 0x00, 0x07, 0x00];
    let compressed = zlib_compress(&nbt);
    assert_ne!(compressed, nbt);
    let bytes = region_with_frame(2, &compressed);
    let outcomes = read_mca(&bytes).unwrap();
    assert_eq!(outcomes.len(), 1);
    assert_eq!(outcomes[0].slot, 0);
    let tag = outcomes[0].result.as_ref().unwrap();
    assert_eq!(*tag, read_nbt(&nbt).unwrap());
    match tag.data.as_ref().unwrap() {
        NbtValue::Compound(entries) => {
            assert_eq!(entries.len(), 1);
            assert_eq!(entries[0].1, NbtValue::Short(7));
        }
        other => panic!("expected a compound, got {:?}", other),
    }
}

#[test]
fn chunks_come_back_in_slot_order() {
    let nbt: Vec<u8> = vec![0x01, 0x00, 0x01, b'v', 0x09];
    let compressed = zlib_compress(&nbt);
    let mut bytes = vec![0u8; 8192];
    // slot 5 at sector 2, slot 9 at sector 3
    bytes[5 * 4 + 2] = 2;
    bytes[5 * 4 + 3] = 1;
    bytes[9 * 4 + 2] = 3;
    bytes[9 * 4 + 3] = 1;
    let mut frame = Vec::new();
    frame.extend_from_slice(&((compressed.len() + 1) as u32).to_be_bytes());
    frame.push(2);
    frame.extend_from_slice(&compressed);
    bytes.extend_from_slice(&frame);
    bytes.resize(3 * 4096, 0);
    bytes.extend_from_slice(&frame);
    let outcomes = read_mca(&bytes).unwrap();
    assert_eq!(outcomes.len(), 2);
    assert_eq!(outcomes[0].slot, 5);
    assert_eq!(outcomes[1].slot, 9);
    assert!(outcomes[0].result.is_ok());
    assert_eq!(outcomes[0].result, outcomes[1].result);
}

#[test]
fn region_decode_twice_is_equal() {
    let nbt: Vec<u8> = vec![0x03, 0x00, 0x01, b'n', 0x00, 0x00, 0x00, 0x2A];
    let bytes = region_with_frame(2, &zlib_compress(&nbt));
    let first = read_mca(&bytes);
    let second = read_mca(&bytes);
    assert_eq!(first, second);
    assert!(first.is_ok());
}

#[test]
fn corrupt_chunk_does_not_stop_other_slots() {
    let nbt: Vec<u8> = vec![0x01, 0x00, 0x01, b'v', 0x09];
    let compressed = zlib_compress(&nbt);
    let mut bytes = vec![0u8; 8192];
    bytes[2] = 2;
    bytes[3] = 1;
    bytes[4 + 2] = 3;
    bytes[4 + 3] = 1;
    // slot 0: unsupported compression type; slot 1: a good zlib frame
    bytes.extend_from_slice(&2u32.to_be_bytes());
    bytes.push(1);
    bytes.push(0xAB);
    bytes.resize(3 * 4096, 0);
    bytes.extend_from_slice(&((compressed.len() + 1) as u32).to_be_bytes());
    bytes.push(2);
    bytes.extend_from_slice(&compressed);
    let outcomes = read_mca(&bytes).unwrap();
    assert_eq!(outcomes.len(), 2);
    assert_eq!(outcomes[0].slot, 0);
    assert_eq!(outcomes[0].result, Err(NbtError::UnsupportedCompressionType(1)));
    assert_eq!(outcomes[1].slot, 1);
    assert!(outcomes[1].result.is_ok());
}
