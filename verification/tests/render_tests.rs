use rlcalc::frac::Frac;
use rlcalc::render::format_round_trip;
use rlcalc::units::{Size, Units};

fn q(units: Units, num: u64, den: u64) -> Size {
    units.size(Frac::new(num, den))
}

#[test]
fn format_whole_number() {
    assert_eq!(q(Units::Inches, 42, 1).format().unwrap(), "42 in");
}

#[test]
fn format_decimal_expansion() {
    assert_eq!(q(Units::Inches, 13, 4).format().unwrap(), "3.25 in");
    assert_eq!(q(Units::Mils, 666666, 1000).format().unwrap(), "666.666 mil");
    assert_eq!(q(Units::Milimeters, 3, 200).format().unwrap(), "0.015 mm");
}

#[test]
fn format_zero() {
    assert_eq!(q(Units::Feet, 0, 1).format().unwrap(), "0 ft");
}

#[test]
fn format_meters_suffix_reparses() {
    let s = q(Units::Meters, 5, 2).format().unwrap();
    assert_eq!(s, "2.5 M");
    assert_eq!(Size::parse(&s).unwrap(), q(Units::Meters, 5, 2));
}

#[test]
fn format_without_finite_expansion() {
    // a third has no finite decimal expansion
    assert!(q(Units::Inches, 1, 3).format().is_none());
}

#[test]
fn parse_format_inverse() {
    let cases = [
        q(Units::Mils, 666666, 1000),
        q(Units::Inches, 42, 1),
        q(Units::Feet, 69, 1),
        q(Units::Yards, 1, 8),
        q(Units::Milimeters, 254, 5),
        q(Units::Centimeters, 8255, 1000),
        q(Units::Meters, 1, 10000),
    ];
    for c in cases {
        let formatted = c.format().unwrap();
        assert_eq!(Size::parse(&formatted).unwrap(), c);
    }
}

#[test]
fn round_trip_helper_agrees() {
    let c = q(Units::Centimeters, 8255, 1000);
    assert_eq!(format_round_trip(&c).unwrap(), c);
    assert!(format_round_trip(&q(Units::Inches, 1, 7)).is_none());
}
