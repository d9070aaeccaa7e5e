use harsh::{BuildHarshError, DecodeError, Error, Harsh, HarshBuilder};

#[test]
fn round_trip_with_salt_and_padding() {
    let harsh = HarshBuilder::new()
        .salt("round trip")
        .length(20)
        .build()
        .unwrap();

    let values: &[u64] = &[0, 1, 97, 1_000_000, u64::MAX];
    let encoded = harsh.encode(values);
    assert!(encoded.len() >= 20);
    assert_eq!(values, &harsh.decode(&encoded).unwrap()[..]);
}

#[test]
fn round_trip_single_value() {
    let harsh = Harsh::default();
    let encoded = harsh.encode(&[42]);
    assert_eq!(vec![42], harsh.decode(&encoded).unwrap());
}

#[test]
fn shuffle_is_deterministic() {
    let mut first = b"abcdefgh".to_vec();
    let mut second = b"abcdefgh".to_vec();
    harsh::shuffle(&mut first, b"salt");
    harsh::shuffle(&mut second, b"salt");
    assert_eq!(first, second);
}

#[test]
fn shuffle_with_empty_salt_is_identity() {
    let mut values = b"abcdefgh".to_vec();
    harsh::shuffle(&mut values, b"");
    assert_eq!(b"abcdefgh".to_vec(), values);
}

#[test]
fn trailing_garbage_is_rejected() {
    let harsh = HarshBuilder::new().salt("tamper").build().unwrap();
    let encoded = harsh.encode(&[7, 8, 9]);

    let appended = format!("{}x", encoded);
    assert!(harsh.decode(&appended).is_err());

    let mut mutated = encoded.clone();
    mutated.pop();
    mutated.push('!');
    assert!(harsh.decode(&mutated).is_err());
}

#[test]
fn alphabet_validation_reports_the_reason() {
    assert_eq!(
        BuildHarshError::AlphabetLength,
        HarshBuilder::new()
            .alphabet("abcabcabcabcabcabc")
            .build()
            .unwrap_err()
    );
    assert_eq!(
        BuildHarshError::IllegalCharacter(' '),
        HarshBuilder::new()
            .alphabet("abcdefghijklmnop qrstuvwxyz")
            .build()
            .unwrap_err()
    );
}

#[test]
fn bad_value_is_reported_as_such() {
    let harsh = Harsh::default();
    assert_eq!(
        Error::Decode(DecodeError::Value),
        harsh.decode("$$").unwrap_err()
    );
}

#[test]
fn round_trip_with_custom_separators() {
    let harsh = Harsh::builder()
        .salt("sep test")
        .separators("aeiou")
        .build()
        .unwrap();

    let values: &[u64] = &[10, 20, 30, 40];
    let encoded = harsh.encode(values);
    assert_eq!(values, &harsh.decode(&encoded).unwrap()[..]);
}

#[test]
fn encoding_empty_input_yields_empty_output() {
    let harsh = HarshBuilder::new().salt("any").length(8).build().unwrap();
    assert_eq!("", harsh.encode(&[]));
}
