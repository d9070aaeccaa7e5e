use harsh::{alphabet_and_separators, default_alphabet, default_separators};

#[test]
fn alphabet_and_separator_generation() {
    let (alphabet, separators) = alphabet_and_separators(
        &Some(default_separators()),
        &default_alphabet(),
        b"this is my salt",
    );

    assert_eq!(
        "AdG05N6y2rljDQak4xgzn8ZR1oKYLmJpEbVq3OBv9WwXPMe7",
        alphabet.iter().map(|&u| u as char).collect::<String>()
    );

    assert_eq!(
        "UHuhtcITCsFifS",
        separators.iter().map(|&u| u as char).collect::<String>()
    );
}

#[test]
fn alphabet_and_separator_generation_with_few_separators() {
    let separators = b"fu";
    let (alphabet, separators) = alphabet_and_separators(
        &Some(separators.to_vec()),
        &default_alphabet(),
        b"this is my salt",
    );

    assert_eq!(
        "4RVQrYM87wKPNSyTBGU1E6FIC9ALtH0ZD2Wxz3vs5OXJ",
        alphabet.iter().map(|&u| u as char).collect::<String>()
    );

    assert_eq!(
        "ufabcdeghijklmnopq",
        separators.iter().map(|&u| u as char).collect::<String>()
    );
}
