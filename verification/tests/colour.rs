use warden::colour::{Colour, ColourError};

#[test]
fn parses_six_digit() {
    assert_eq!(
        Colour::parse("#0F8A8A").unwrap(),
        Colour {
            r: 15,
            g: 138,
            b: 138
        }
    );
}

#[test]
fn parses_three_digit_shorthand() {
    assert_eq!(
        Colour::parse("#0a0").unwrap(),
        Colour { r: 0, g: 170, b: 0 }
    );
}

#[test]
fn round_trips_to_lowercase_hex() {
    assert_eq!(Colour::parse("#0F8A8A").unwrap().hex(), "#0f8a8a");
}

#[test]
fn rejects_missing_hash() {
    assert_eq!(
        Colour::parse("0f8a8a"),
        Err(ColourError::NoHash("0f8a8a".into()))
    );
}

#[test]
fn rejects_bad_length() {
    assert!(matches!(
        Colour::parse("#ff"),
        Err(ColourError::BadLength(_))
    ));
}

#[test]
fn rejects_non_hex() {
    assert!(matches!(
        Colour::parse("#gggggg"),
        Err(ColourError::BadDigit(_))
    ));
}

#[test]
fn a_sign_is_no_digit() {
    assert_eq!(
        Colour::parse("#+1+2+3"),
        Err(ColourError::BadDigit("#+1+2+3".into()))
    );
    assert_eq!(
        Colour::parse("#+12"),
        Err(ColourError::BadDigit("#+12".into()))
    );
}
