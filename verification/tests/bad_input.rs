use harsh::{DecodeError, Error, Harsh, HarshBuilder};

#[test]
fn bad_input_small_alphabet() {
    assert!(
        !HarshBuilder::new().alphabet("1234567890").build().is_ok(),
        "should throw an error with a small alphabet"
    );
}

#[test]
fn bad_input_spaces_in_alphabet() {
    assert!(
        !HarshBuilder::new()
            .alphabet("a cdefghijklmnopqrstuvwxyz")
            .build()
            .is_ok(),
        "should throw an error when alphabet includes spaces"
    );
}

#[test]
fn should_fail_for_encoding_nothing() {
    assert_eq!(
        "",
        &Harsh::default().encode(&[]),
        "should return None when encoding an empty array"
    );
}

#[test]
#[should_panic]
fn should_fail_for_decoding_nothing() {
    Harsh::default().decode("").unwrap();
}

#[test]
#[should_panic]
fn should_fail_for_decoding_invalid_id() {
    Harsh::default().decode("f").unwrap();
}

#[test]
#[should_panic]
fn should_fail_when_encoding_non_hex_input() {
    Harsh::default().encode_hex("z").unwrap();
}

#[test]
#[should_panic]
fn should_fail_when_hex_decoding_invalid_id() {
    Harsh::default().decode_hex("f").unwrap();
}

#[test]
fn should_return_none_for_encoding_nothing() {
    assert_eq!(
        "",
        Harsh::default().encode(&[]),
        "should return None when encoding an empty array"
    );
}

#[test]
fn should_return_none_for_decoding_nothing() {
    assert!(
        Harsh::default().decode("").is_err(),
        "should return None when decoding nothing"
    );
}

#[test]
fn should_return_none_for_decoding_invalid_id() {
    assert!(
        Harsh::default().decode("f").is_err(),
        "should return None when decoding an invalid id"
    );
}

#[test]
fn should_return_none_when_encoding_non_hex_input() {
    assert!(
        Harsh::default().encode_hex("z").is_err(),
        "should return None when hex-encoding non-hex input"
    );
}

#[test]
fn should_return_none_when_hex_decoding_invalid_id() {
    assert!(
        Harsh::default().decode_hex("f").is_err(),
        "should return None when hex-decoding an invalid id"
    );
}

#[test]
fn decode_errors_carry_their_kind() {
    let harsh = Harsh::default();
    assert_eq!(
        Error::Decode(DecodeError::Hash),
        harsh.decode("").unwrap_err()
    );
    assert_eq!(Error::Hex, harsh.encode_hex("xyz").unwrap_err());
}
