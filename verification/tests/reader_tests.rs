use rusty_nrrd::header::{Encoding, Endian, PixelType, Version};
use rusty_nrrd::reader::{read_nrrd, MalformedReason, ReadNrrdErr};

fn float_header() -> Vec<u8> {
    b"NRRD0005\ntype: float\ndimension: 2\nsizes: 2 2\nendian: little\nencoding: raw\n\n".to_vec()
}

fn float_payload() -> Vec<u8> {
    let mut p = Vec::new();
    for v in [1.0f32, 2.0, 3.0, 4.0] {
        p.extend_from_slice(&v.to_le_bytes());
    }
    p
}

#[test]
fn parses_simple_float_header() {
    let mut input = float_header();
    input.extend_from_slice(&float_payload());
    let nrrd = read_nrrd(&input).unwrap();
    assert_eq!(nrrd.version(), Version::Nrrd5);
    assert_eq!(nrrd.dimension(), 2);
    assert_eq!(nrrd.sizes().as_slice(), &[2, 2]);
    assert_eq!(nrrd.pixel_type(), PixelType::Float32);
    assert!(matches!(nrrd.endian(), Endian::Little));
    assert!(matches!(nrrd.encoding(), Encoding::Raw));
    assert_eq!(nrrd.buffer().len(), 16);
    assert_eq!(nrrd.fields().len(), 5);
    assert!(nrrd.key_values().is_empty());
}

#[test]
fn unknown_magic_is_rejected() {
    let input = b"NRRD9999\ntype: float\n".to_vec();
    match read_nrrd(&input) {
        Err(ReadNrrdErr::UnknownVersion { magic }) => assert_eq!(magic, b"NRRD9999".to_vec()),
        other => panic!("expected UnknownVersion, got {:?}", other),
    }
}

#[test]
fn duplicate_field_fails_even_with_equal_descriptors() {
    let input = b"NRRD0005\ntype: float\ndimension: 2\ndimension: 2\n".to_vec();
    match read_nrrd(&input) {
        Err(ReadNrrdErr::DuplicateField { identifier, line }) => {
            assert_eq!(identifier, b"dimension".to_vec());
            assert_eq!(line, 3);
        },
        other => panic!("expected DuplicateField, got {:?}", other),
    }
}

#[test]
fn duplicate_field_fails_with_differing_descriptors() {
    let input = b"NRRD0005\ndimension: 2\ndimension: 3\n".to_vec();
    assert!(matches!(
        read_nrrd(&input),
        Err(ReadNrrdErr::DuplicateField { .. })
    ));
}

#[test]
fn missing_type_is_its_own_case() {
    let input = b"NRRD0005\ndimension: 1\nsizes: 0\nencoding: raw\n\n".to_vec();
    assert!(matches!(
        read_nrrd(&input),
        Err(ReadNrrdErr::Malformed { reason: MalformedReason::MissingType })
    ));
}

#[test]
fn block_without_block_size_is_its_own_case() {
    let input = b"NRRD0005\ntype: block\ndimension: 1\nsizes: 0\nencoding: raw\n\n".to_vec();
    assert!(matches!(
        read_nrrd(&input),
        Err(ReadNrrdErr::Malformed { reason: MalformedReason::MissingBlockSize })
    ));
}

#[test]
fn wide_type_without_endian_is_its_own_case() {
    let input = b"NRRD0005\ntype: int32\ndimension: 1\nsizes: 0\nencoding: raw\n\n".to_vec();
    assert!(matches!(
        read_nrrd(&input),
        Err(ReadNrrdErr::Malformed { reason: MalformedReason::MissingEndian })
    ));
}

#[test]
fn one_byte_type_may_omit_endian_and_defaults_little() {
    let input = b"NRRD0005\ntype: uint8\ndimension: 1\nsizes: 2\nencoding: raw\n\nab".to_vec();
    let nrrd = read_nrrd(&input).unwrap();
    assert!(matches!(nrrd.endian(), Endian::Little));
    assert_eq!(nrrd.buffer(), &b"ab".to_vec());
}

#[test]
fn matching_sizes_parse_and_mismatched_sizes_fail() {
    let ok = b"NRRD0005\ntype: uint8\ndimension: 3\nsizes: 1 2 3\nencoding: raw\n\nabcdef".to_vec();
    let nrrd = read_nrrd(&ok).unwrap();
    assert_eq!(nrrd.sizes().as_slice(), &[1, 2, 3]);

    let bad = b"NRRD0005\ntype: uint8\ndimension: 2\nsizes: 1 2 3\nencoding: raw\n\nab".to_vec();
    assert!(matches!(
        read_nrrd(&bad),
        Err(ReadNrrdErr::Malformed { reason: MalformedReason::MismatchedDimensionSizes })
    ));
}

#[test]
fn sizes_before_dimension_fails() {
    let input = b"NRRD0005\nsizes: 1 2\ndimension: 2\n".to_vec();
    assert!(matches!(
        read_nrrd(&input),
        Err(ReadNrrdErr::Malformed { reason: MalformedReason::SizesBeforeDimension })
    ));
}

#[test]
fn dimension_must_be_a_positive_integer() {
    let bad = b"NRRD0005\ndimension: abc\n".to_vec();
    assert!(matches!(
        read_nrrd(&bad),
        Err(ReadNrrdErr::Malformed { reason: MalformedReason::InvalidDimension })
    ));
    let zero = b"NRRD0005\ndimension: 0\n".to_vec();
    assert!(matches!(
        read_nrrd(&zero),
        Err(ReadNrrdErr::Malformed { reason: MalformedReason::InvalidDimension })
    ));
}

#[test]
fn dimension_accepts_a_plus_sign() {
    let input = b"NRRD0005\ntype: uint8\ndimension: +2\nsizes: 1 2\nencoding: raw\n\nab".to_vec();
    let nrrd = read_nrrd(&input).unwrap();
    assert_eq!(nrrd.dimension(), 2);
}

#[test]
fn buffer_size_mismatch_fails() {
    let mut input = float_header();
    let mut p = float_payload();
    p.pop();
    input.extend_from_slice(&p);
    assert_eq!(p.len(), 15);
    assert!(matches!(
        read_nrrd(&input),
        Err(ReadNrrdErr::Malformed { reason: MalformedReason::BufferSizeMismatch })
    ));
}

#[test]
fn comments_are_skipped() {
    let input =
        b"NRRD0005\n# a comment\ntype: uint8\ndimension: 1\n# more\nsizes: 1\nencoding: raw\n\nx"
            .to_vec();
    let nrrd = read_nrrd(&input).unwrap();
    assert_eq!(nrrd.buffer(), &b"x".to_vec());
}

#[test]
fn key_values_are_rejected_below_nrrd2() {
    let input = b"NRRD0001\nkey:=value\ntype: uint8\ndimension: 1\nsizes: 0\nencoding: raw\n\n"
        .to_vec();
    match read_nrrd(&input) {
        Err(ReadNrrdErr::Malformed {
            reason: MalformedReason::UnexpectedLine { line, text },
        }) => {
            assert_eq!(line, 1);
            assert_eq!(text, b"key:=value".to_vec());
        },
        other => panic!("expected UnexpectedLine, got {:?}", other),
    }
}

#[test]
fn key_values_are_accepted_at_nrrd2() {
    let input = b"NRRD0002\ntype: uint8\ndimension: 1\nsizes: 0\nencoding: raw\nkey:=value\n\n"
        .to_vec();
    let nrrd = read_nrrd(&input).unwrap();
    assert_eq!(nrrd.key_values().len(), 1);
    assert_eq!(nrrd.key_values()[0].key, b"key".to_vec());
    assert_eq!(nrrd.key_values()[0].value, b"value".to_vec());
}

#[test]
fn duplicate_key_keeps_the_last_value() {
    let input =
        b"NRRD0005\ntype: uint8\ndimension: 1\nsizes: 0\nencoding: raw\nk:=one\nk:=two\n\n"
            .to_vec();
    let nrrd = read_nrrd(&input).unwrap();
    assert_eq!(nrrd.key_values().len(), 1);
    assert_eq!(nrrd.key_values()[0].value, b"two".to_vec());
}

#[test]
fn empty_key_is_malformed() {
    let input = b"NRRD0005\n:=value\n".to_vec();
    assert!(matches!(
        read_nrrd(&input),
        Err(ReadNrrdErr::Malformed { reason: MalformedReason::UnexpectedLine { .. } })
    ));
}

#[test]
fn identifier_case_is_folded_and_descriptor_trailing_space_trimmed() {
    let input = b"NRRD0005\nTYPE: float   \nDIMENSION: 1\nsizes: 1\nENDIAN: little\nencoding: raw\n\nabcd"
        .to_vec();
    let nrrd = read_nrrd(&input).unwrap();
    assert_eq!(nrrd.pixel_type(), PixelType::Float32);
    assert_eq!(nrrd.fields()[0].identifier, b"type".to_vec());
    assert_eq!(nrrd.fields()[0].descriptor, b"float".to_vec());
}

#[test]
fn crlf_line_endings_are_accepted() {
    let input =
        b"NRRD0005\r\ntype: uint8\r\ndimension: 1\r\nsizes: 1\r\nencoding: raw\r\n\r\nz".to_vec();
    let nrrd = read_nrrd(&input).unwrap();
    assert_eq!(nrrd.buffer(), &b"z".to_vec());
}

#[test]
fn type_aliases_resolve_to_canonical_variants() {
    let cases: Vec<(&[u8], PixelType)> = vec![
        (b"signed char", PixelType::Int8),
        (b"uchar", PixelType::UInt8),
        (b"unsigned short int", PixelType::UInt16),
        (b"short", PixelType::Int16),
        (b"int", PixelType::Int32),
        (b"unsigned int", PixelType::UInt32),
        (b"long long", PixelType::Int64),
        (b"uint64_t", PixelType::UInt64),
        (b"double", PixelType::Float64),
    ];
    for (alias, expected) in cases {
        let mut input = b"NRRD0005\ntype: ".to_vec();
        input.extend_from_slice(alias);
        input.extend_from_slice(b"\ndimension: 1\nsizes: 0\nendian: little\nencoding: raw\n\n");
        let nrrd = read_nrrd(&input).unwrap();
        assert_eq!(nrrd.pixel_type(), expected);
    }
}

#[test]
fn unknown_type_is_malformed() {
    let input = b"NRRD0005\ntype: quaternion\ndimension: 1\nsizes: 0\nencoding: raw\n\n".to_vec();
    assert!(matches!(
        read_nrrd(&input),
        Err(ReadNrrdErr::Malformed { reason: MalformedReason::InvalidType })
    ));
}

#[test]
fn unknown_encoding_is_kept_verbatim_not_rejected() {
    let input =
        b"NRRD0005\ntype: uint8\ndimension: 1\nsizes: 1\nencoding: zippy\n\nq".to_vec();
    let nrrd = read_nrrd(&input).unwrap();
    match nrrd.encoding() {
        Encoding::Other(token) => assert_eq!(token, &b"zippy".to_vec()),
        other => panic!("expected Other, got {:?}", other),
    }
}

#[test]
fn invalid_endian_token_is_malformed() {
    let input = b"NRRD0005\ntype: float\ndimension: 1\nsizes: 1\nendian: middle\n".to_vec();
    assert!(matches!(
        read_nrrd(&input),
        Err(ReadNrrdErr::Malformed { reason: MalformedReason::InvalidEndian })
    ));
}

#[test]
fn block_type_takes_its_size_from_the_block_size_field() {
    let input =
        b"NRRD0005\ntype: block\nblock size: 3\ndimension: 1\nsizes: 2\nencoding: raw\n\nabcdef"
            .to_vec();
    let nrrd = read_nrrd(&input).unwrap();
    assert_eq!(nrrd.pixel_type(), PixelType::Block(3));
    assert_eq!(nrrd.buffer().len(), 6);
}

#[test]
fn nonpositive_block_size_is_malformed() {
    let input =
        b"NRRD0005\ntype: block\nblock size: 0\ndimension: 1\nsizes: 2\nencoding: raw\n\n".to_vec();
    assert!(matches!(
        read_nrrd(&input),
        Err(ReadNrrdErr::Malformed { reason: MalformedReason::InvalidBlockSize })
    ));
}

#[test]
fn missing_encoding_is_its_own_case() {
    let input = b"NRRD0005\ntype: uint8\ndimension: 1\nsizes: 1\n\nx".to_vec();
    assert!(matches!(
        read_nrrd(&input),
        Err(ReadNrrdErr::Malformed { reason: MalformedReason::MissingEncoding })
    ));
}

#[test]
fn missing_dimension_and_missing_sizes_are_their_own_cases() {
    let no_dim = b"NRRD0005\ntype: uint8\nencoding: raw\n\n".to_vec();
    assert!(matches!(
        read_nrrd(&no_dim),
        Err(ReadNrrdErr::Malformed { reason: MalformedReason::MissingDimension })
    ));
    let no_sizes = b"NRRD0005\ntype: uint8\ndimension: 1\nencoding: raw\n\n".to_vec();
    assert!(matches!(
        read_nrrd(&no_sizes),
        Err(ReadNrrdErr::Malformed { reason: MalformedReason::MissingSizes })
    ));
}

#[test]
fn header_ending_at_end_of_input_checks_the_empty_payload() {
    // No blank line and no payload: the size check still runs, against zero
    // bytes, so only an empty shape passes.
    let ok = b"NRRD0005\ntype: uint8\ndimension: 1\nsizes: 0\nencoding: raw".to_vec();
    let nrrd = read_nrrd(&ok).unwrap();
    assert_eq!(nrrd.buffer().len(), 0);
    let bad = b"NRRD0005\ntype: uint8\ndimension: 1\nsizes: 2\nencoding: raw".to_vec();
    assert!(matches!(
        read_nrrd(&bad),
        Err(ReadNrrdErr::Malformed { reason: MalformedReason::BufferSizeMismatch })
    ));
}
