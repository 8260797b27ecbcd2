use railml2dgraph::length::{parse_length, LengthError};

#[test]
fn whole_metres_read_as_millimetres() {
    assert_eq!(parse_length("1"), Ok(1000));
    assert_eq!(parse_length("100"), Ok(100_000));
    assert_eq!(parse_length("0"), Ok(0));
}

#[test]
fn fractions_and_signs() {
    assert_eq!(parse_length("-2.5"), Ok(-2500));
    assert_eq!(parse_length("+2.25"), Ok(2250));
    assert_eq!(parse_length(".5"), Ok(500));
    assert_eq!(parse_length("5."), Ok(5000));
    assert_eq!(parse_length("100.5"), Ok(100_500));
}

#[test]
fn exponents_as_std_reads_them() {
    assert_eq!(parse_length("1e3"), Ok(1_000_000));
    assert_eq!(parse_length("1E2"), Ok(100_000));
    assert_eq!(parse_length("2.5e+1"), Ok(25_000));
    assert_eq!(parse_length("25e-1"), Ok(2_500));
    assert_eq!(parse_length(".5e1"), Ok(5_000));
    assert_eq!(parse_length("-3e0"), Ok(-3_000));
    assert_eq!(parse_length("1e-400"), Ok(0));
    assert_eq!(parse_length("0e999999999999999999999999999999999999"), Ok(0));
    assert_eq!(parse_length("123456789012345678901234567890123e-30"), Ok(123_457));
}

#[test]
fn rounded_to_the_nearest_millimetre() {
    assert_eq!(parse_length("1.2344"), Ok(1234));
    assert_eq!(parse_length("1.2345"), Ok(1235));
    assert_eq!(parse_length("1.0005"), Ok(1001));
    assert_eq!(parse_length("1.0004999"), Ok(1000));
    assert_eq!(parse_length("-0.0009"), Ok(-1));
    assert_eq!(parse_length("-0.0004"), Ok(0));
    assert_eq!(parse_length("2.5e-3"), Ok(3));
    assert_eq!(parse_length("-1.5e-3"), Ok(-2));
}

#[test]
fn empty_text_is_empty_error() {
    assert_eq!(parse_length(""), Err(LengthError::Empty));
}

#[test]
fn malformed_texts_are_invalid() {
    for s in ["+", "-", ".", "abc", " 1", "1 ", "1.2.3", "1,5", "--1", "1e", "1e+", "e5", ".e1", "1e5.0", "infx", "in"] {
        assert_eq!(parse_length(s), Err(LengthError::Invalid), "{}", s);
    }
}

#[test]
fn infinity_and_nan_cannot_be_held() {
    for s in ["inf", "-inf", "+Infinity", "INFINITY", "NaN", "nan", "1e400"] {
        assert_eq!(parse_length(s), Err(LengthError::Unrepresentable), "{}", s);
    }
}

#[test]
fn lengths_beyond_64_bits_cannot_be_held() {
    assert_eq!(parse_length("9223372036854775.807"), Ok(i64::MAX));
    assert_eq!(parse_length("9223372036854775.8074"), Ok(i64::MAX));
    assert_eq!(parse_length("-9223372036854775.808"), Ok(i64::MIN));
    assert_eq!(parse_length("9223372036854775.808"), Err(LengthError::Unrepresentable));
    assert_eq!(parse_length("9223372036854775.8075"), Err(LengthError::Unrepresentable));
    assert_eq!(parse_length("99999999999999999999999"), Err(LengthError::Unrepresentable));
}

#[test]
fn error_messages() {
    assert_eq!(LengthError::Empty.message(), "ParseFloatError { kind: Empty }");
    assert_eq!(LengthError::Invalid.message(), "ParseFloatError { kind: Invalid }");
    assert_eq!(LengthError::Unrepresentable.message(), "length beyond 64-bit millimetres");
}
