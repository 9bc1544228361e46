use refgraph::codec::{a_code_to_usize, decode, encode, filename_to_acode, to_text, FormatError, Identifier};

#[test]
fn decode_canonical_name() {
    let id = decode("A000123").unwrap();
    assert_eq!(id.value, 123);
}

#[test]
fn decode_strips_extension() {
    let id = decode("A000045.seq").unwrap();
    assert_eq!(id.value, 45);
}

#[test]
fn decode_tolerates_padding_differences() {
    assert_eq!(decode("A1").unwrap().value, 1);
    assert_eq!(decode("A0000001").unwrap().value, 1);
    assert_eq!(decode("A000001").unwrap(), decode("A1.seq").unwrap());
}

#[test]
fn decode_missing_prefix() {
    assert_eq!(decode("B000001"), Err(FormatError::MissingPrefix));
    assert_eq!(decode(""), Err(FormatError::MissingPrefix));
    assert_eq!(decode("000001"), Err(FormatError::MissingPrefix));
}

#[test]
fn decode_empty_digits() {
    assert_eq!(decode("A"), Err(FormatError::EmptyDigits));
    assert_eq!(decode("A.seq"), Err(FormatError::EmptyDigits));
}

#[test]
fn decode_non_digit() {
    assert_eq!(decode("A12x45"), Err(FormatError::NonDigit));
    assert_eq!(decode("A-1"), Err(FormatError::NonDigit));
}

#[test]
fn decode_out_of_range() {
    assert_eq!(decode("A1234567"), Err(FormatError::OutOfRange));
    assert_eq!(decode("A9999999999999999999999"), Err(FormatError::OutOfRange));
}

#[test]
fn round_trip_canonical_width() {
    // to_text(decode(T)) == T whenever T has the canonical digit width.
    for t in ["A000000", "A000123", "A999999", "A010203"] {
        let id = decode(t).unwrap();
        assert_eq!(to_text(id), t);
    }
}

#[test]
fn to_text_pads_to_canonical_width() {
    assert_eq!(to_text(Identifier { value: 7 }), "A000007");
    assert_eq!(to_text(encode(999999)), "A999999");
    assert_eq!(to_text(encode(0)), "A000000");
}

#[test]
fn a_code_to_usize_parses_digits_after_prefix() {
    assert_eq!(a_code_to_usize("A000123"), 123);
    assert_eq!(a_code_to_usize("A7"), 7);
}

#[test]
fn filename_to_acode_takes_stem() {
    assert_eq!(filename_to_acode("seq/a00/A000001.seq"), "A000001");
    assert_eq!(filename_to_acode("C:\\data\\seq\\A000123.seq"), "A000123");
    assert_eq!(filename_to_acode("A000045"), "A000045");
    assert_eq!(filename_to_acode("dir/A000045"), "A000045");
}
