use harsh::{Harsh, HarshBuilder};

#[test]
fn harsh_default_does_not_panic() {
    Harsh::default();
}

#[test]
fn can_encode() {
    let harsh = HarshBuilder::new()
        .salt("this is my salt")
        .build()
        .expect("failed to initialize harsh");

    assert_eq!(
        "4o6Z7KqxE",
        harsh.encode(&[1226198605112]),
        "error encoding [1226198605112]"
    );
    assert_eq!("laHquq", harsh.encode(&[1, 2, 3]));
}

#[test]
fn can_encode_with_guards() {
    let harsh = HarshBuilder::new()
        .salt("this is my salt")
        .length(8)
        .build()
        .expect("failed to initialize harsh");

    assert_eq!("GlaHquq0", harsh.encode(&[1, 2, 3]));
}

#[test]
fn can_encode_with_padding() {
    let harsh = HarshBuilder::new()
        .salt("this is my salt")
        .length(12)
        .build()
        .expect("failed to initialize harsh");

    assert_eq!("9LGlaHquq06D", harsh.encode(&[1, 2, 3]));
}

#[test]
fn can_decode() {
    let harsh = HarshBuilder::new()
        .salt("this is my salt")
        .build()
        .expect("failed to initialize harsh");

    assert_eq!(
        &[1226198605112],
        &harsh.decode("4o6Z7KqxE").expect("failed to decode")[..],
        "error decoding \"4o6Z7KqxE\""
    );
    assert_eq!(
        &[1u64, 2, 3],
        &harsh.decode("laHquq").expect("failed to decode")[..]
    );
}

#[test]
fn can_decode_with_guards() {
    let harsh = HarshBuilder::new()
        .salt("this is my salt")
        .length(8)
        .build()
        .expect("failed to initialize harsh");

    assert_eq!(
        &[1u64, 2, 3],
        &harsh.decode("GlaHquq0").expect("failed to decode")[..]
    );
}

#[test]
fn can_decode_with_padding() {
    let harsh = HarshBuilder::new()
        .salt("this is my salt")
        .length(12)
        .build()
        .expect("failed to initialize harsh");

    assert_eq!(
        &[1u64, 2, 3],
        &harsh.decode("9LGlaHquq06D").expect("failed to decode")[..]
    );
}

#[test]
fn can_encode_with_custom_alphabet() {
    let harsh = HarshBuilder::new()
        .alphabet("abcdefghijklmnopqrstuvwxyz")
        .build()
        .expect("failed to initialize harsh");

    assert_eq!(
        "mdfphx",
        harsh.encode(&[1, 2, 3]),
        "failed to encode [1, 2, 3]"
    );
}

#[test]
#[should_panic]
fn can_decode_with_invalid_alphabet() {
    let harsh = Harsh::default();
    harsh.decode("this$ain't|a\number").unwrap();
}

#[test]
fn can_decode_with_custom_alphabet() {
    let harsh = HarshBuilder::new()
        .alphabet("abcdefghijklmnopqrstuvwxyz")
        .build()
        .expect("failed to initialize harsh");

    assert_eq!(
        &[1, 2, 3],
        &harsh.decode("mdfphx").expect("failed to decode")[..],
        "failed to decode mdfphx"
    );
}

#[test]
fn create_nhash() {
    let values = &[1, 2, 3];
    let nhash = harsh::create_nhash(values);
    assert_eq!(6, nhash);
}

#[test]
fn hash() {
    let result = harsh::hash(22, b"abcdefghijklmnopqrstuvwxyz");
    assert_eq!("w", result);
}

#[test]
fn shuffle() {
    let salt = b"1234";
    let mut values = "asdfzxcvqwer".bytes().collect::<Vec<_>>();
    harsh::shuffle(&mut values, salt);

    assert_eq!("vdwqfrzcsxae", String::from_utf8_lossy(&values));
}

#[test]
fn guard_characters_should_be_added_to_left_first() {
    let harsh = HarshBuilder::new().length(3).build().unwrap();
    let hashed_value = harsh.encode(&[1]);

    assert_eq!(&hashed_value, "ejR");
    assert_eq!(vec![1], harsh.decode("ejR").unwrap());
}

#[test]
#[should_panic]
fn appended_garbage_data_invalidates_hashid() {
    let harsh = HarshBuilder::new().length(4).build().unwrap();
    let id = harsh.encode(&[1, 2]) + "12";
    harsh.decode(&id).unwrap();
}
