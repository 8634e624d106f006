use rlcalc::frac::Frac;
use rlcalc::parse::{is_positive_dimension, parse_number, ParseError};
use rlcalc::units::{Size, Units};

fn q(units: Units, num: u64, den: u64) -> Size {
    units.size(Frac::new(num, den))
}

#[test]
fn parse_inches_plain() {
    assert_eq!(Size::parse("42in").unwrap(), q(Units::Inches, 42, 1));
}

#[test]
fn parse_inches_spelled() {
    assert_eq!(Size::parse("42.0 inches").unwrap(), q(Units::Inches, 42, 1));
}

#[test]
fn parse_inch_singular() {
    assert_eq!(Size::parse("42 inch").unwrap(), q(Units::Inches, 42, 1));
}

#[test]
fn parse_inch_symbol() {
    assert_eq!(Size::parse("42\"").unwrap(), q(Units::Inches, 42, 1));
}

#[test]
fn parse_feet_plain() {
    assert_eq!(Size::parse("69ft").unwrap(), q(Units::Feet, 69, 1));
}

#[test]
fn parse_feet_spelled() {
    assert_eq!(Size::parse("69.0 feet").unwrap(), q(Units::Feet, 69, 1));
}

#[test]
fn parse_foot_singular() {
    assert_eq!(Size::parse("69 foot").unwrap(), q(Units::Feet, 69, 1));
}

#[test]
fn parse_foot_symbol() {
    assert_eq!(Size::parse("69.0'").unwrap(), q(Units::Feet, 69, 1));
}

#[test]
fn parse_milimeters() {
    assert_eq!(Size::parse("666.666 mm").unwrap(), q(Units::Milimeters, 666666, 1000));
}

#[test]
fn parse_centimeters() {
    assert_eq!(Size::parse("666.666 cm").unwrap(), q(Units::Centimeters, 666666, 1000));
}

#[test]
fn parse_meters() {
    assert_eq!(Size::parse("666.666 M").unwrap(), q(Units::Meters, 666666, 1000));
}

#[test]
fn parse_mils() {
    assert_eq!(Size::parse("666.666 mil").unwrap(), q(Units::Mils, 666666, 1000));
}

#[test]
fn parse_yards() {
    assert_eq!(Size::parse("666.666 yd").unwrap(), q(Units::Yards, 666666, 1000));
}

#[test]
fn parse_case_insensitive() {
    assert_eq!(Size::parse("5 MIL").unwrap(), q(Units::Mils, 5, 1));
    assert_eq!(Size::parse("5 Thou").unwrap(), q(Units::Mils, 5, 1));
    assert_eq!(Size::parse("2 Meters").unwrap(), q(Units::Meters, 2, 1));
}

#[test]
fn parse_leading_whitespace() {
    assert_eq!(Size::parse("  7.5 cm").unwrap(), q(Units::Centimeters, 75, 10));
}

#[test]
fn parse_trailing_whitespace() {
    assert_eq!(Size::parse("7.5 cm  ").unwrap(), q(Units::Centimeters, 75, 10));
}

#[test]
fn parse_unknown_units() {
    match Size::parse("42xyz") {
        Err(ParseError::InvalidUnits(iu)) => assert_eq!(iu.0, "xyz"),
        other => panic!("expected InvalidUnits, got {:?}", other),
    }
}

#[test]
fn parse_unknown_units_token_is_lowercased() {
    match Size::parse("42XYZ") {
        Err(ParseError::InvalidUnits(iu)) => assert_eq!(iu.0, "xyz"),
        other => panic!("expected InvalidUnits, got {:?}", other),
    }
    let err = Units::parse("PARSEC").unwrap_err();
    assert_eq!(err.0, "parsec");
}

#[test]
fn parse_missing_units() {
    match Size::parse("42") {
        Err(ParseError::InvalidUnits(iu)) => assert_eq!(iu.0, ""),
        other => panic!("expected InvalidUnits, got {:?}", other),
    }
}

#[test]
fn parse_trailing_garbage_is_one_token() {
    match Size::parse("42in xyz") {
        Err(ParseError::InvalidUnits(iu)) => assert_eq!(iu.0, "in xyz"),
        other => panic!("expected InvalidUnits, got {:?}", other),
    }
}

#[test]
fn parse_empty_input() {
    assert!(matches!(Size::parse(""), Err(ParseError::MalformedNumber)));
}

#[test]
fn parse_no_number() {
    assert!(matches!(Size::parse("abc"), Err(ParseError::MalformedNumber)));
}

#[test]
fn parse_two_dots() {
    assert!(matches!(Size::parse("4.2.5in"), Err(ParseError::MalformedNumber)));
}

#[test]
fn parse_dot_only() {
    assert!(matches!(Size::parse(".in"), Err(ParseError::MalformedNumber)));
}

#[test]
fn parse_bare_dot_forms() {
    assert_eq!(Size::parse(".5in").unwrap(), q(Units::Inches, 5, 10));
    assert_eq!(Size::parse("42.in").unwrap(), q(Units::Inches, 42, 1));
}

#[test]
fn parse_no_sign_or_exponent() {
    assert!(matches!(Size::parse("-1in"), Err(ParseError::MalformedNumber)));
    match Size::parse("1e5in") {
        Err(ParseError::InvalidUnits(iu)) => assert_eq!(iu.0, "e5in"),
        other => panic!("expected InvalidUnits, got {:?}", other),
    }
}

#[test]
fn parse_number_too_large() {
    // more digits than a 64-bit magnitude can hold
    assert!(matches!(
        Size::parse("99999999999999999999999in"),
        Err(ParseError::MalformedNumber)
    ));
}

#[test]
fn parse_units_names() {
    assert_eq!(Units::parse("mil").unwrap(), Units::Mils);
    assert_eq!(Units::parse("mils").unwrap(), Units::Mils);
    assert_eq!(Units::parse("thou").unwrap(), Units::Mils);
    assert_eq!(Units::parse("in").unwrap(), Units::Inches);
    assert_eq!(Units::parse("inch").unwrap(), Units::Inches);
    assert_eq!(Units::parse("inches").unwrap(), Units::Inches);
    assert_eq!(Units::parse("\"").unwrap(), Units::Inches);
    assert_eq!(Units::parse("ft").unwrap(), Units::Feet);
    assert_eq!(Units::parse("foot").unwrap(), Units::Feet);
    assert_eq!(Units::parse("feet").unwrap(), Units::Feet);
    assert_eq!(Units::parse("'").unwrap(), Units::Feet);
    assert_eq!(Units::parse("yd").unwrap(), Units::Yards);
    assert_eq!(Units::parse("yard").unwrap(), Units::Yards);
    assert_eq!(Units::parse("yards").unwrap(), Units::Yards);
    assert_eq!(Units::parse("mm").unwrap(), Units::Milimeters);
    assert_eq!(Units::parse("milimeter").unwrap(), Units::Milimeters);
    assert_eq!(Units::parse("milimeters").unwrap(), Units::Milimeters);
    assert_eq!(Units::parse("cm").unwrap(), Units::Centimeters);
    assert_eq!(Units::parse("centimeter").unwrap(), Units::Centimeters);
    assert_eq!(Units::parse("centimeters").unwrap(), Units::Centimeters);
    assert_eq!(Units::parse("m").unwrap(), Units::Meters);
    assert_eq!(Units::parse("meter").unwrap(), Units::Meters);
    assert_eq!(Units::parse("meters").unwrap(), Units::Meters);
    assert_eq!(Units::parse(" FT ").unwrap(), Units::Feet);
}

#[test]
fn parse_units_unknown() {
    let err = Units::parse("parsec").unwrap_err();
    assert_eq!(err.0, "parsec");
    assert_eq!(err.message(), "invalid units: 'parsec'");
}

#[test]
fn parse_number_values() {
    assert_eq!(parse_number("3.25").unwrap(), Frac::new(13, 4));
    assert_eq!(parse_number(" 10 ").unwrap(), Frac::new(10, 1));
    assert_eq!(parse_number("0.015").unwrap(), Frac::new(3, 200));
    assert!(matches!(parse_number("3.25 in"), Err(ParseError::MalformedNumber)));
    assert!(matches!(parse_number("-1"), Err(ParseError::MalformedNumber)));
    assert!(matches!(parse_number(""), Err(ParseError::MalformedNumber)));
}

#[test]
fn positive_dimension_validation() {
    assert!(is_positive_dimension("3.25"));
    assert!(is_positive_dimension("42in"));
    assert!(is_positive_dimension("666.666 mil"));
    assert!(!is_positive_dimension("0"));
    assert!(!is_positive_dimension("0.0 in"));
    assert!(!is_positive_dimension("abc"));
    assert!(!is_positive_dimension("42xyz"));
    assert!(!is_positive_dimension(""));
}
