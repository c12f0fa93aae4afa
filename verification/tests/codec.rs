use nbt_tree::{
    read_nbt_gz_compressed, read_nbt_uncompressed, read_nbt_zlib_compressed,
    write_nbt_uncompressed, NbtCompound, NbtDecodeError, NbtList, NbtTag,
};
use std::io::Write;

fn sample_tree() -> NbtCompound {
    let mut inner = NbtCompound::new();
    inner.insert("answer".to_string(), NbtTag::Int(42));
    inner.insert("half".to_string(), NbtTag::Float(0.5f32.to_bits()));
    inner.insert("third".to_string(), NbtTag::Double((1.0f64 / 3.0).to_bits()));

    let list = NbtList {
        tags: vec![
            NbtTag::String("alpha".to_string()),
            NbtTag::String("b\u{00e9}ta".to_string()),
            NbtTag::String("\u{0000}null\u{10348}".to_string()),
        ],
    };

    let mut root = NbtCompound::new();
    root.insert("byte".to_string(), NbtTag::Byte(-7));
    root.insert("short".to_string(), NbtTag::Short(-30000));
    root.insert("long".to_string(), NbtTag::Long(i64::MIN));
    root.insert("bytes".to_string(), NbtTag::ByteArray(vec![-128, -1, 0, 1, 127]));
    root.insert("ints".to_string(), NbtTag::IntArray(vec![i32::MIN, -1, 0, i32::MAX]));
    root.insert("longs".to_string(), NbtTag::LongArray(vec![i64::MIN, 0, i64::MAX]));
    root.insert("names".to_string(), NbtTag::List(list));
    root.insert("empty".to_string(), NbtTag::List(NbtList { tags: vec![] }));
    root.insert("nested".to_string(), NbtTag::Compound(inner));
    root
}

#[test]
fn round_trip_uncompressed() {
    let tree = sample_tree();
    let bytes = write_nbt_uncompressed(&tree, "root name");
    let (back, name) = read_nbt_uncompressed(&bytes).unwrap();
    assert_eq!(name, "root name");
    assert!(back.equals(&tree));
}

#[test]
fn round_trip_empty_root_and_name() {
    let tree = NbtCompound::new();
    let bytes = write_nbt_uncompressed(&tree, "");
    assert_eq!(bytes, vec![0x0A, 0x00, 0x00, 0x00]);
    let (back, name) = read_nbt_uncompressed(&bytes).unwrap();
    assert_eq!(name, "");
    assert_eq!(back.len(), 0);
}

#[test]
fn scalar_exact_bytes() {
    let mut tree = NbtCompound::new();
    tree.insert("s".to_string(), NbtTag::Short(-2));
    let bytes = write_nbt_uncompressed(&tree, "");
    // root id, empty name, entry id 0x2, name "s", value 0xFFFE, end sentinel
    assert_eq!(
        bytes,
        vec![0x0A, 0x00, 0x00, 0x02, 0x00, 0x01, b's', 0xFF, 0xFE, 0x00]
    );
}

#[test]
fn root_framing_rejected() {
    // the first byte must be the compound identifier
    let bytes = vec![0x09, 0x00, 0x00, 0x00];
    assert_eq!(
        read_nbt_uncompressed(&bytes).unwrap_err(),
        NbtDecodeError::NotACompoundRoot
    );
}

#[test]
fn empty_stream_is_eof() {
    assert_eq!(
        read_nbt_uncompressed(&[]).unwrap_err(),
        NbtDecodeError::UnexpectedEof
    );
}

#[test]
fn list_sentinel_empty_ok() {
    // root, empty name, list entry "l" with element type 0x00 and length 0
    let bytes = vec![
        0x0A, 0x00, 0x00, 0x09, 0x00, 0x01, b'l', 0x00, 0x00, 0x00, 0x00, 0x00, 0x00,
    ];
    let (root, _) = read_nbt_uncompressed(&bytes).unwrap();
    match root.get("l") {
        Some(NbtTag::List(l)) => assert_eq!(l.tags.len(), 0),
        _ => panic!("expected an empty list"),
    }
}

#[test]
fn list_sentinel_nonzero_len_rejected() {
    // element type 0x00 with length 1 cannot hold elements
    let bytes = vec![
        0x0A, 0x00, 0x00, 0x09, 0x00, 0x01, b'l', 0x00, 0x00, 0x00, 0x00, 0x01, 0x00,
    ];
    assert_eq!(
        read_nbt_uncompressed(&bytes).unwrap_err(),
        NbtDecodeError::InvalidListType
    );
}

#[test]
fn list_element_type_past_defined_set_rejected() {
    let bytes = vec![
        0x0A, 0x00, 0x00, 0x09, 0x00, 0x01, b'l', 0x0D, 0x00, 0x00, 0x00, 0x00, 0x00,
    ];
    assert_eq!(
        read_nbt_uncompressed(&bytes).unwrap_err(),
        NbtDecodeError::InvalidListType
    );
}

#[test]
fn unknown_type_identifier_rejected() {
    // entry with type identifier 0xFF
    let bytes = vec![0x0A, 0x00, 0x00, 0xFF, 0x00, 0x01, b'x', 0x00];
    assert_eq!(
        read_nbt_uncompressed(&bytes).unwrap_err(),
        NbtDecodeError::InvalidTagType
    );
}

#[test]
fn truncated_streams_are_eof() {
    let tree = sample_tree();
    let bytes = write_nbt_uncompressed(&tree, "n");
    // any strict prefix of a valid document must fail, and every failure that
    // comes from running out of bytes is the end-of-stream error
    for cut in 0..bytes.len() {
        let err = read_nbt_uncompressed(&bytes[..cut]).unwrap_err();
        assert_eq!(err, NbtDecodeError::UnexpectedEof);
    }
}

#[test]
fn declared_length_past_stream_is_eof() {
    // byte array of declared length 5 with only two bytes behind it
    let bytes = vec![
        0x0A, 0x00, 0x00, 0x07, 0x00, 0x01, b'a', 0x00, 0x00, 0x00, 0x05, 0x01, 0x02,
    ];
    assert_eq!(
        read_nbt_uncompressed(&bytes).unwrap_err(),
        NbtDecodeError::UnexpectedEof
    );
}

#[test]
fn negative_array_length_fails_fast() {
    // byte array of declared length -1
    let bytes = vec![
        0x0A, 0x00, 0x00, 0x07, 0x00, 0x01, b'a', 0xFF, 0xFF, 0xFF, 0xFF, 0x00,
    ];
    assert_eq!(
        read_nbt_uncompressed(&bytes).unwrap_err(),
        NbtDecodeError::UnexpectedEof
    );
}

#[test]
fn null_byte_decodes_to_null_char() {
    // a string value whose single payload byte is 0x00
    let bytes = vec![
        0x0A, 0x00, 0x00, 0x08, 0x00, 0x01, b's', 0x00, 0x01, 0x00, 0x00,
    ];
    let (root, _) = read_nbt_uncompressed(&bytes).unwrap();
    match root.get("s") {
        Some(NbtTag::String(s)) => assert_eq!(s, "\u{0000}"),
        _ => panic!("expected a string"),
    }
}

#[test]
fn null_char_encodes_two_bytes() {
    let mut tree = NbtCompound::new();
    tree.insert("s".to_string(), NbtTag::String("\u{0000}".to_string()));
    let bytes = write_nbt_uncompressed(&tree, "");
    // string payload is the Java two-byte form C0 80
    assert_eq!(
        bytes,
        vec![0x0A, 0x00, 0x00, 0x08, 0x00, 0x01, b's', 0x00, 0x02, 0xC0, 0x80, 0x00]
    );
}

#[test]
fn string_encoding_matches_java_form() {
    let samples = [
        "",
        "plain ascii",
        "caf\u{00e9}",
        "\u{0000}embedded\u{0000}nulls",
        "bmp \u{4e2d}\u{6587}",
        "astral \u{10348}\u{1f600}",
    ];
    for sample in samples {
        let mut tree = NbtCompound::new();
        tree.insert("s".to_string(), NbtTag::String(sample.to_string()));
        let bytes = write_nbt_uncompressed(&tree, "");
        // payload sits between the 2-byte length prefix and the end sentinel
        let len = ((bytes[7] as usize) << 8) | bytes[8] as usize;
        let payload = &bytes[9..9 + len];
        assert_eq!(payload, cesu8::to_java_cesu8(sample).as_ref());
        assert_eq!(cesu8::from_java_cesu8(payload).unwrap(), sample);
        let (back, _) = read_nbt_uncompressed(&bytes).unwrap();
        match back.get("s") {
            Some(NbtTag::String(s)) => assert_eq!(s, sample),
            _ => panic!("expected a string"),
        }
    }
}

#[test]
fn invalid_string_encoding_rejected() {
    // 0xF0 opens a four-byte unit, which the modified encoding does not use
    let bytes = vec![
        0x0A, 0x00, 0x00, 0x08, 0x00, 0x02, b's', b't', 0x00, 0x01, 0xF0, 0x00,
    ];
    assert_eq!(
        read_nbt_uncompressed(&bytes).unwrap_err(),
        NbtDecodeError::InvalidStringEncoding
    );
}

#[test]
fn overlong_forms_rejected() {
    // C1 81, C0 81 and E0 80 80 are overlong; only the C0 80 pair is taken
    let payloads: [&[u8]; 3] = [&[0xC1, 0x81], &[0xC0, 0x81], &[0xE0, 0x80, 0x80]];
    for payload in payloads {
        let mut bytes = vec![0x0A, 0x00, 0x00, 0x08, 0x00, 0x01, b's', 0x00, payload.len() as u8];
        bytes.extend_from_slice(payload);
        bytes.push(0x00);
        assert!(cesu8::from_java_cesu8(payload).is_err());
        assert_eq!(
            read_nbt_uncompressed(&bytes).unwrap_err(),
            NbtDecodeError::InvalidStringEncoding
        );
    }
}

#[test]
fn shortest_three_byte_form_accepted() {
    // E0 A0 80 is the shortest valid three-byte unit
    let bytes = vec![
        0x0A, 0x00, 0x00, 0x08, 0x00, 0x01, b's', 0x00, 0x03, 0xE0, 0xA0, 0x80, 0x00,
    ];
    let (root, _) = read_nbt_uncompressed(&bytes).unwrap();
    match root.get("s") {
        Some(NbtTag::String(s)) => assert_eq!(s, "\u{0800}"),
        _ => panic!("expected a string"),
    }
}

#[test]
fn lone_surrogate_rejected() {
    // ED A0 80 is an unpaired high surrogate
    let bytes = vec![
        0x0A, 0x00, 0x00, 0x08, 0x00, 0x01, b's', 0x00, 0x03, 0xED, 0xA0, 0x80, 0x00,
    ];
    assert_eq!(
        read_nbt_uncompressed(&bytes).unwrap_err(),
        NbtDecodeError::InvalidStringEncoding
    );
}

#[test]
fn duplicate_keys_last_write_wins() {
    // two entries named "k": an Int 1, then an Int 2
    let bytes = vec![
        0x0A, 0x00, 0x00, //
        0x03, 0x00, 0x01, b'k', 0x00, 0x00, 0x00, 0x01, //
        0x03, 0x00, 0x01, b'k', 0x00, 0x00, 0x00, 0x02, //
        0x00,
    ];
    let (root, _) = read_nbt_uncompressed(&bytes).unwrap();
    assert_eq!(root.len(), 1);
    match root.get("k") {
        Some(NbtTag::Int(v)) => assert_eq!(*v, 2),
        _ => panic!("expected an int"),
    }
}

#[test]
fn nested_depth_round_trip() {
    let mut tree = NbtCompound::new();
    for _ in 0..64 {
        let mut outer = NbtCompound::new();
        outer.insert("inner".to_string(), NbtTag::Compound(tree));
        tree = outer;
    }
    let bytes = write_nbt_uncompressed(&tree, "deep");
    let (back, _) = read_nbt_uncompressed(&bytes).unwrap();
    assert!(back.equals(&tree));
}

#[test]
fn zlib_round_trip() {
    let tree = sample_tree();
    let plain = write_nbt_uncompressed(&tree, "packed");
    let mut enc = flate2::write::ZlibEncoder::new(Vec::new(), flate2::Compression::default());
    enc.write_all(&plain).unwrap();
    let compressed = enc.finish().unwrap();
    assert_ne!(compressed, plain);
    let (back, name) = read_nbt_zlib_compressed(&compressed).unwrap();
    assert_eq!(name, "packed");
    assert!(back.equals(&tree));
}

#[test]
fn gz_round_trip() {
    let tree = sample_tree();
    let plain = write_nbt_uncompressed(&tree, "packed");
    let mut enc = flate2::write::GzEncoder::new(Vec::new(), flate2::Compression::default());
    enc.write_all(&plain).unwrap();
    let compressed = enc.finish().unwrap();
    let (back, name) = read_nbt_gz_compressed(&compressed).unwrap();
    assert_eq!(name, "packed");
    assert!(back.equals(&tree));
}

#[test]
fn garbage_compressed_stream_fails() {
    let bytes = vec![0x01, 0x02, 0x03, 0x04];
    assert_eq!(
        read_nbt_zlib_compressed(&bytes).unwrap_err(),
        NbtDecodeError::DecompressionFailed
    );
}

#[test]
fn trailing_bytes_are_ignored() {
    let tree = sample_tree();
    let mut bytes = write_nbt_uncompressed(&tree, "n");
    bytes.extend_from_slice(&[0xDE, 0xAD, 0xBE, 0xEF]);
    let (back, _) = read_nbt_uncompressed(&bytes).unwrap();
    assert!(back.equals(&tree));
}
