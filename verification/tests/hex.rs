use harsh::HarshBuilder;

#[test]
fn can_encode_hex() {
    let harsh = HarshBuilder::new()
        .salt("this is my salt")
        .build()
        .expect("failed to initialize harsh");

    assert_eq!(
        "lzY",
        &harsh.encode_hex("FA").expect("Failed to encode"),
        "error encoding `FA`"
    );
    assert_eq!(
        "MemE",
        &harsh.encode_hex("26dd").expect("Failed to encode"),
        "error encoding `26dd`"
    );
    assert_eq!(
        "eBMrb",
        &harsh.encode_hex("FF1A").expect("Failed to encode"),
        "error encoding `FF1A`"
    );
    assert_eq!(
        "D9NPE",
        &harsh.encode_hex("12abC").expect("Failed to encode"),
        "error encoding `12abC`"
    );
    assert_eq!(
        "9OyNW",
        &harsh.encode_hex("185b0").expect("Failed to encode"),
        "error encoding `185b0`"
    );
    assert_eq!(
        "MRWNE",
        &harsh.encode_hex("17b8d").expect("Failed to encode"),
        "error encoding `17b8d`"
    );
    assert_eq!(
        "4o6Z7KqxE",
        &harsh.encode_hex("1d7f21dd38").expect("Failed to encode"),
        "error encoding `1d7f21dd38`"
    );
    assert_eq!(
        "ooweQVNB",
        &harsh.encode_hex("20015111d").expect("Failed to encode"),
        "error encoding `20015111d`"
    );
    assert_eq!(
        "kRNrpKlJ",
        &harsh.encode_hex("deadbeef").expect("Failed to encode"),
        "error encoding `deadbeef`"
    );

    let harsh = HarshBuilder::new().build().unwrap();
    assert_eq!(
        "y42LW46J9luq3Xq9XMly",
        &harsh
            .encode_hex("507f1f77bcf86cd799439011")
            .expect("failed to encode"),
        "error encoding `507f1f77bcf86cd799439011`"
    );
}

#[test]
fn can_encode_hex_with_guards() {
    let harsh = HarshBuilder::new()
        .salt("this is my salt")
        .length(10)
        .build()
        .expect("failed to initialize harsh");

    assert_eq!(
        "GkRNrpKlJd",
        &harsh.encode_hex("deadbeef").expect("Failed to encode"),
    );
}

#[test]
fn can_encode_hex_with_padding() {
    let harsh = HarshBuilder::new()
        .salt("this is my salt")
        .length(12)
        .build()
        .expect("failed to initialize harsh");

    assert_eq!(
        "RGkRNrpKlJde",
        &harsh.encode_hex("deadbeef").expect("Failed to encode"),
    );
}

#[test]
fn can_decode_hex() {
    let harsh = HarshBuilder::new()
        .salt("this is my salt")
        .build()
        .expect("failed to initialize harsh");

    assert_eq!(
        "fa",
        harsh.decode_hex("lzY").expect("failed to decode"),
        "error decoding `FA`"
    );
    assert_eq!(
        "26dd",
        harsh.decode_hex("MemE").expect("failed to decode"),
        "error decoding `26dd`"
    );
    assert_eq!(
        "ff1a",
        harsh.decode_hex("eBMrb").expect("failed to decode"),
        "error decoding `FF1A`"
    );
    assert_eq!(
        "12abc",
        harsh.decode_hex("D9NPE").expect("failed to decode"),
        "error decoding `12abC`"
    );
    assert_eq!(
        "185b0",
        harsh.decode_hex("9OyNW").expect("failed to decode"),
        "error decoding `185b0`"
    );
    assert_eq!(
        "17b8d",
        harsh.decode_hex("MRWNE").expect("failed to decode"),
        "error decoding `17b8d`"
    );
    assert_eq!(
        "1d7f21dd38",
        harsh.decode_hex("4o6Z7KqxE").expect("failed to decode"),
        "error decoding `1d7f21dd38`"
    );
    assert_eq!(
        "20015111d",
        harsh.decode_hex("ooweQVNB").expect("failed to decode"),
        "error decoding `20015111d`"
    );
    assert_eq!(
        "deadbeef",
        harsh.decode_hex("kRNrpKlJ").expect("failed to decode"),
        "error decoding `deadbeef`"
    );

    let harsh = HarshBuilder::new().build().unwrap();
    assert_eq!(
        "507f1f77bcf86cd799439011",
        harsh
            .decode_hex("y42LW46J9luq3Xq9XMly")
            .expect("failed to decode"),
        "error decoding `y42LW46J9luq3Xq9XMly`"
    );
}

#[test]
fn can_decode_hex_with_guards() {
    let harsh = HarshBuilder::new()
        .salt("this is my salt")
        .length(10)
        .build()
        .expect("failed to initialize harsh");

    assert_eq!(
        "deadbeef",
        harsh.decode_hex("GkRNrpKlJd").expect("failed to decode"),
        "failed to decode GkRNrpKlJd"
    );
}

#[test]
fn can_decode_hex_with_padding() {
    let harsh = HarshBuilder::new()
        .salt("this is my salt")
        .length(12)
        .build()
        .expect("failed to initialize harsh");

    assert_eq!(
        "deadbeef",
        harsh.decode_hex("RGkRNrpKlJde").expect("failed to decode"),
        "failed to decode RGkRNrpKlJde"
    );
}
