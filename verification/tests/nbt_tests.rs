use mca_reader::nbt::{decode_payload, decode_tags, read_nbt, NbtTag, NbtValue, MAX_DEPTH};
use mca_reader::NbtError;

#[test]
fn byte_tag_with_name() {
    let bytes: Vec<u8> = vec![0x01, 0x00, 0x03, b'F', b'o', b'o', 0x05];
    let tag = read_nbt(&bytes).unwrap();
    assert_eq!(tag.name, Some(String::from("Foo")));
    assert_eq!(tag.data, Some(NbtValue::Byte(5)));
}

#[test]
fn compound_single_short() {
    let bytes: Vec<u8> = vec![0x0A, 0x00, 0x00, 0x02, 0x00, 0x01, b'x', 0x00, 0x07, 0x00];
    let tag = read_nbt(&bytes).unwrap();
    assert_eq!(tag.name, Some(String::new()));
    match tag.data.unwrap() {
        NbtValue::Compound(entries) => {
            assert_eq!(entries.len(), 1);
            assert_eq!(entries[0].0, String::from("x"));
            assert_eq!(entries[0].1, NbtValue::Short(7));
        }
        other => panic!("expected a compound, got {:?}", other),
    }
}

#[test]
fn list_of_two_ints() {
    let bytes: Vec<u8> = vec![
        0x03, 0x00, 0x00, 0x00, 0x02, 0x00, 0x00, 0x00, 0x01, 0x00, 0x00, 0x00, 0x02,
    ];
    let (v, p) = decode_payload(&bytes, 0, 9, MAX_DEPTH).unwrap();
    assert_eq!(p, 13);
    assert_eq!(v, NbtValue::List(vec![NbtValue::Int(1), NbtValue::Int(2)]));
}

#[test]
fn compound_missing_terminator() {
    let bytes: Vec<u8> = vec![0x0A, 0x00, 0x00, 0x01, 0x00, 0x01, b'a', 0x05];
    assert_eq!(read_nbt(&bytes), Err(NbtError::MissingTerminator));
}

#[test]
fn decode_twice_is_equal() {
    let bytes: Vec<u8> = vec![
        0x0A, 0x00, 0x01, b'r', 0x03, 0x00, 0x01, b'n', 0x00, 0x00, 0x00, 0x2A, 0x08, 0x00, 0x01,
        b's', 0x00, 0x02, b'h', b'i', 0x00,
    ];
    let first = read_nbt(&bytes);
    let second = read_nbt(&bytes);
    assert_eq!(first, second);
    assert!(first.is_ok());
}

#[test]
fn end_tag_is_sentinel() {
    let bytes: Vec<u8> = vec![0x00];
    let tag = read_nbt(&bytes).unwrap();
    assert_eq!(tag, NbtTag { name: None, data: None });
}

#[test]
fn empty_buffer_is_truncated() {
    let bytes: Vec<u8> = vec![];
    assert_eq!(read_nbt(&bytes), Err(NbtError::TruncatedChunk));
}

#[test]
fn invalid_tag_type_is_reported() {
    let bytes: Vec<u8> = vec![0x0D, 0x00, 0x00];
    assert_eq!(read_nbt(&bytes), Err(NbtError::InvalidTagType(13)));
}

#[test]
fn truncated_int_payload() {
    let bytes: Vec<u8> = vec![0x03, 0x00, 0x01, b'n', 0x00, 0x00];
    assert_eq!(read_nbt(&bytes), Err(NbtError::TruncatedChunk));
}

#[test]
fn negative_array_count_is_invalid() {
    let bytes: Vec<u8> = vec![0x07, 0x00, 0x00, 0xFF, 0xFF, 0xFF, 0xFF];
    assert_eq!(read_nbt(&bytes), Err(NbtError::InvalidLength));
}

#[test]
fn negative_list_count_is_invalid() {
    let bytes: Vec<u8> = vec![0x09, 0x00, 0x00, 0x01, 0x80, 0x00, 0x00, 0x00];
    assert_eq!(read_nbt(&bytes), Err(NbtError::InvalidLength));
}

#[test]
fn string_length_past_end_is_invalid() {
    let bytes: Vec<u8> = vec![0x08, 0x00, 0x00, 0x00, 0x10, b'a', b'b'];
    assert_eq!(read_nbt(&bytes), Err(NbtError::InvalidLength));
}

#[test]
fn name_not_utf8_is_text_error() {
    let bytes: Vec<u8> = vec![0x01, 0x00, 0x01, 0xFF, 0x05];
    assert_eq!(read_nbt(&bytes), Err(NbtError::TextDecodeError));
}

#[test]
fn multibyte_utf8_name_is_decoded() {
    let bytes: Vec<u8> = vec![0x01, 0x00, 0x02, 0xC3, 0xA9, 0x07];
    let tag = read_nbt(&bytes).unwrap();
    let name = tag.name.unwrap();
    assert_eq!(name, String::from("\u{e9}"));
    assert_eq!(name.chars().count(), 1);
    assert_eq!(tag.data, Some(NbtValue::Byte(7)));
}

#[test]
fn scalar_payloads_decode_exactly() {
    let short = read_nbt(&vec![0x02, 0x00, 0x00, 0xFF, 0xFE]).unwrap();
    assert_eq!(short.data, Some(NbtValue::Short(-2)));
    let long = read_nbt(&vec![
        0x04, 0x00, 0x00, 0xFF, 0xFF, 0xFF, 0xFF, 0xFF, 0xFF, 0xFF, 0xFF,
    ])
    .unwrap();
    assert_eq!(long.data, Some(NbtValue::Long(-1)));
    let float = read_nbt(&vec![0x05, 0x00, 0x00, 0x3F, 0x80, 0x00, 0x00]).unwrap();
    assert_eq!(float.data, Some(NbtValue::Float(0x3F800000)));
    assert_eq!(f32::from_bits(0x3F800000), 1.0f32);
    let double = read_nbt(&vec![
        0x06, 0x00, 0x00, 0x40, 0x09, 0x21, 0xFB, 0x54, 0x44, 0x2D, 0x18,
    ])
    .unwrap();
    assert_eq!(double.data, Some(NbtValue::Double(0x400921FB54442D18)));
}

#[test]
fn string_payload_decodes() {
    let bytes: Vec<u8> = vec![0x08, 0x00, 0x01, b's', 0x00, 0x02, b'h', b'i'];
    let tag = read_nbt(&bytes).unwrap();
    assert_eq!(tag.data, Some(NbtValue::String(String::from("hi"))));
}

#[test]
fn byte_array_converts_to_signed() {
    let bytes: Vec<u8> = vec![0x07, 0x00, 0x00, 0x00, 0x00, 0x00, 0x03, 0x00, 0x7F, 0xFF];
    let tag = read_nbt(&bytes).unwrap();
    assert_eq!(tag.data, Some(NbtValue::ByteArray(vec![0, 127, -1])));
}

#[test]
fn int_array_decodes() {
    let bytes: Vec<u8> = vec![
        0x0B, 0x00, 0x00, 0x00, 0x00, 0x00, 0x02, 0x00, 0x00, 0x00, 0x05, 0xFF, 0xFF, 0xFF, 0xFB,
    ];
    let tag = read_nbt(&bytes).unwrap();
    assert_eq!(tag.data, Some(NbtValue::IntArray(vec![5, -5])));
}

#[test]
fn long_array_decodes() {
    let bytes: Vec<u8> = vec![
        0x0C, 0x00, 0x00, 0x00, 0x00, 0x00, 0x01, 0x00, 0x00, 0x00, 0x00, 0x00, 0x00, 0x01, 0x00,
    ];
    let tag = read_nbt(&bytes).unwrap();
    assert_eq!(tag.data, Some(NbtValue::LongArray(vec![256])));
}

#[test]
fn empty_list_is_valid() {
    let bytes: Vec<u8> = vec![0x09, 0x00, 0x00, 0x00, 0x00, 0x00, 0x00, 0x00];
    let tag = read_nbt(&bytes).unwrap();
    assert_eq!(tag.data, Some(NbtValue::List(vec![])));
}

#[test]
fn list_of_end_elements_is_invalid() {
    let bytes: Vec<u8> = vec![0x09, 0x00, 0x00, 0x00, 0x00, 0x00, 0x00, 0x01];
    assert_eq!(read_nbt(&bytes), Err(NbtError::InvalidTagType(0)));
}

#[test]
fn nested_compound_decodes() {
    let bytes: Vec<u8> = vec![
        0x0A, 0x00, 0x00, 0x0A, 0x00, 0x01, b'c', 0x01, 0x00, 0x01, b'b', 0x09, 0x00, 0x00,
    ];
    let tag = read_nbt(&bytes).unwrap();
    match tag.data.unwrap() {
        NbtValue::Compound(outer) => {
            assert_eq!(outer.len(), 1);
            assert_eq!(outer[0].0, String::from("c"));
            match &outer[0].1 {
                NbtValue::Compound(inner) => {
                    assert_eq!(inner.len(), 1);
                    assert_eq!(inner[0].0, String::from("b"));
                    assert_eq!(inner[0].1, NbtValue::Byte(9));
                }
                other => panic!("expected an inner compound, got {:?}", other),
            }
        }
        other => panic!("expected a compound, got {:?}", other),
    }
}

#[test]
fn duplicate_name_overwrites_in_place() {
    let bytes: Vec<u8> = vec![
        0x0A, 0x00, 0x00, 0x01, 0x00, 0x01, b'x', 0x01, 0x01, 0x00, 0x01, b'x', 0x02, 0x00,
    ];
    let tag = read_nbt(&bytes).unwrap();
    match tag.data.unwrap() {
        NbtValue::Compound(entries) => {
            assert_eq!(entries.len(), 1);
            assert_eq!(entries[0].0, String::from("x"));
            assert_eq!(entries[0].1, NbtValue::Byte(2));
        }
        other => panic!("expected a compound, got {:?}", other),
    }
}

#[test]
fn nesting_past_depth_limit_is_rejected() {
    let mut bytes: Vec<u8> = Vec::new();
    for _ in 0..300 {
        bytes.extend_from_slice(&[0x0A, 0x00, 0x00]);
    }
    assert_eq!(read_nbt(&bytes), Err(NbtError::DepthLimitExceeded));
}

#[test]
fn moderate_nesting_is_accepted() {
    let mut bytes: Vec<u8> = Vec::new();
    for _ in 0..10 {
        bytes.extend_from_slice(&[0x0A, 0x00, 0x00]);
    }
    bytes.extend_from_slice(&[0x01, 0x00, 0x01, b'v', 0x2A]);
    for _ in 0..10 {
        bytes.push(0x00);
    }
    assert!(read_nbt(&bytes).is_ok());
}

#[test]
fn decode_tags_reports_position() {
    let bytes: Vec<u8> = vec![0x01, 0x00, 0x03, b'F', b'o', b'o', 0x05, 0xAA, 0xBB];
    let (tag, p) = decode_tags(&bytes, 0, MAX_DEPTH).unwrap();
    assert_eq!(p, 7);
    assert_eq!(tag.data, Some(NbtValue::Byte(5)));
}
