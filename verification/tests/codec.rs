//! Tests for the identifier codec: parsing, printing, the round trip, and
//! every parse error.

use fluxion::ident::{Identifier, IdentifierParseError};

fn roundtrip(id: &Identifier) {
    let text = id.print();
    let back = Identifier::parse(&text).expect("printed identifier must parse");
    assert_eq!(&back, id);
}

#[test]
fn parse_local_id() {
    assert_eq!(Identifier::parse(b"#7"), Ok(Identifier::Local(7)));
    assert_eq!(Identifier::parse(b"#0"), Ok(Identifier::Local(0)));
    assert_eq!(
        Identifier::parse(b"#18446744073709551615"),
        Ok(Identifier::Local(u64::MAX))
    );
}

#[test]
fn parse_local_name() {
    assert_eq!(
        Identifier::parse(b"worker"),
        Ok(Identifier::LocalNamed(b"worker".to_vec()))
    );
}

#[test]
fn parse_foreign_id() {
    assert_eq!(
        Identifier::parse(b"node-a:#42"),
        Ok(Identifier::Foreign(b"node-a".to_vec(), 42))
    );
}

#[test]
fn parse_foreign_name() {
    assert_eq!(
        Identifier::parse(b"node-a:worker"),
        Ok(Identifier::ForeignNamed(b"node-a".to_vec(), b"worker".to_vec()))
    );
}

#[test]
fn parse_empty_is_error() {
    assert_eq!(
        Identifier::parse(b""),
        Err(IdentifierParseError::EmptyTarget)
    );
    assert_eq!(
        Identifier::parse(b"sys:"),
        Err(IdentifierParseError::EmptyTarget)
    );
}

#[test]
fn parse_empty_number_is_error() {
    assert_eq!(Identifier::parse(b"#"), Err(IdentifierParseError::EmptyNumber));
    assert_eq!(
        Identifier::parse(b"sys:#"),
        Err(IdentifierParseError::EmptyNumber)
    );
}

#[test]
fn parse_bad_digit_is_error() {
    assert_eq!(
        Identifier::parse(b"#12x"),
        Err(IdentifierParseError::InvalidDigit)
    );
    assert_eq!(
        Identifier::parse(b"sys:#1:2"),
        Err(IdentifierParseError::InvalidDigit)
    );
}

#[test]
fn parse_overflow_is_error() {
    assert_eq!(
        Identifier::parse(b"#18446744073709551616"),
        Err(IdentifierParseError::NumberOverflow)
    );
    assert_eq!(
        Identifier::parse(b"#99999999999999999999999"),
        Err(IdentifierParseError::NumberOverflow)
    );
}

#[test]
fn parse_second_separator_is_error() {
    assert_eq!(
        Identifier::parse(b"a:b:c"),
        Err(IdentifierParseError::SeparatorInName)
    );
}

#[test]
fn print_forms() {
    assert_eq!(Identifier::Local(7).print(), b"#7".to_vec());
    assert_eq!(Identifier::Local(0).print(), b"#0".to_vec());
    assert_eq!(Identifier::Local(1234567890).print(), b"#1234567890".to_vec());
    assert_eq!(
        Identifier::LocalNamed(b"worker".to_vec()).print(),
        b"worker".to_vec()
    );
    assert_eq!(
        Identifier::Foreign(b"node-a".to_vec(), 42).print(),
        b"node-a:#42".to_vec()
    );
    assert_eq!(
        Identifier::ForeignNamed(b"node-a".to_vec(), b"worker".to_vec()).print(),
        b"node-a:worker".to_vec()
    );
}

#[test]
fn print_parse_round_trip() {
    roundtrip(&Identifier::Local(0));
    roundtrip(&Identifier::Local(64));
    roundtrip(&Identifier::Local(u64::MAX));
    roundtrip(&Identifier::LocalNamed(b"w".to_vec()));
    roundtrip(&Identifier::LocalNamed(b"a long actor name".to_vec()));
    roundtrip(&Identifier::Foreign(b"host".to_vec(), 9));
    roundtrip(&Identifier::Foreign(b"".to_vec(), 9));
    roundtrip(&Identifier::ForeignNamed(b"host".to_vec(), b"w".to_vec()));
}

#[test]
fn leading_zeros_accepted_on_parse() {
    assert_eq!(Identifier::parse(b"#007"), Ok(Identifier::Local(7)));
}
