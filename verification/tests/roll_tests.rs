use rlcalc::frac::Frac;
use rlcalc::roll::{Roll, RollError, PI_DEN, PI_NUM};
use rlcalc::parse::ParseError;
use rlcalc::units::Units;

fn roll(core: (u64, u64), outer: (u64, u64), thick: (u64, u64), units: Units) -> Roll {
    Roll::new(
        Frac::new(core.0, core.1),
        Frac::new(outer.0, outer.1),
        Frac::new(thick.0, thick.1),
        units,
    )
}

#[test]
fn default_roll_length_is_pinned() {
    // coreOD 3.25 in, rollOD 10 in, thickness 0.015 in: 225 wraps whose
    // diameters sum to 5949/4 inches, times pi
    let r = Roll::default();
    let len = r.length().unwrap();
    assert_eq!(len.units(), Units::Inches);
    let num = (5949u128 * PI_NUM as u128) as u64;
    let den = 4 * PI_DEN;
    assert_eq!(len.value(), Frac { num, den });
    // the same value, within floating-point sight: about 4672.33 inches
    let approx = len.value().num as f64 / len.value().den as f64;
    assert!((approx - 4672.3337).abs() < 0.001);
}

#[test]
fn degenerate_geometry_gives_zero_length() {
    let r = roll((5, 1), (5, 1), (1, 100), Units::Milimeters);
    let len = r.length().unwrap();
    assert!(len.value().is_zero());
    assert_eq!(len.units(), Units::Milimeters);

    let r2 = roll((325, 100), (13, 4), (3, 1), Units::Inches);
    assert!(r2.length().unwrap().value().is_zero());
}

#[test]
fn zero_thickness_is_invalid_geometry() {
    let r = roll((1, 1), (2, 1), (0, 1), Units::Inches);
    assert!(matches!(r.length(), Err(RollError::InvalidGeometry)));
}

#[test]
fn inverted_diameters_are_invalid_geometry() {
    let r = roll((3, 1), (2, 1), (1, 100), Units::Inches);
    assert!(matches!(r.length(), Err(RollError::InvalidGeometry)));
}

#[test]
fn single_wrap_length() {
    // one wrap exactly: core 1, roll 1.5, thickness 0.25
    let r = roll((1, 1), (3, 2), (1, 4), Units::Inches);
    let len = r.length().unwrap();
    // one circumference of diameter 1: pi
    assert_eq!(len.value(), Frac { num: PI_NUM, den: PI_DEN });
}

#[test]
fn conversion_is_atomic_across_all_fields() {
    let mut r = Roll::default();
    r.convert_mut(Units::Milimeters);
    assert_eq!(r.coreod().units(), Units::Milimeters);
    assert_eq!(r.rollod().units(), Units::Milimeters);
    assert_eq!(r.thickness().units(), Units::Milimeters);
    assert_eq!(*r.units(), Units::Milimeters);
    // 3.25 in = 82.55 mm, 10 in = 254 mm, 0.015 in = 0.381 mm
    assert_eq!(r.coreod().value(), Frac::new(8255, 100));
    assert_eq!(r.rollod().value(), Frac::new(254, 1));
    assert_eq!(r.thickness().value(), Frac::new(381, 1000));
}

#[test]
fn convert_returns_new_roll_and_preserves_source() {
    let r = Roll::default();
    let m = r.convert(Units::Centimeters);
    assert_eq!(*m.units(), Units::Centimeters);
    assert_eq!(m.coreod().value(), Frac::new(8255, 1000));
    assert_eq!(*r.units(), Units::Inches);
    assert_eq!(r.coreod().value(), Frac::new(13, 4));
}

#[test]
fn set_units_converts_whole_roll() {
    let mut r = roll((2, 1), (4, 1), (1, 100), Units::Feet);
    r.set_units(Units::Inches);
    assert_eq!(r.coreod().value(), Frac::new(24, 1));
    assert_eq!(r.rollod().value(), Frac::new(48, 1));
    assert_eq!(r.thickness().value(), Frac::new(12, 100));
}

#[test]
fn checked_convert_refuses_partial_conversion() {
    let r = roll((1, 1), (u64::MAX, 1), (1, 100), Units::Meters);
    // the roll diameter cannot be represented in mils, so nothing converts
    assert!(r.checked_convert(Units::Mils).is_none());
}

#[test]
fn length_survives_unit_conversion() {
    let r = Roll::default();
    let inches = r.length().unwrap();
    let mm = r.convert(Units::Milimeters).length().unwrap();
    // same physical length: compare both in millimeters
    let inches_in_mm = inches.checked_convert(Units::Milimeters).unwrap();
    assert_eq!(inches_in_mm, mm);
}

#[test]
fn setters_replace_single_fields() {
    let mut r = Roll::default();
    r.set_coreod(Frac::new(4, 1));
    r.set_rollod(Frac::new(12, 1));
    r.set_thickness(Frac::new(1, 50));
    assert_eq!(r.coreod().value(), Frac::new(4, 1));
    assert_eq!(r.rollod().value(), Frac::new(12, 1));
    assert_eq!(r.thickness().value(), Frac::new(1, 50));
    assert_eq!(*r.units(), Units::Inches);
}

#[test]
fn build_from_bare_numbers() {
    let r = Roll::build(Some("3.25"), Some("10"), Some("0.015"), Some("in")).unwrap();
    assert_eq!(*r.units(), Units::Inches);
    assert_eq!(r.coreod().value(), Frac::new(13, 4));
    assert_eq!(r.rollod().value(), Frac::new(10, 1));
    assert_eq!(r.thickness().value(), Frac::new(3, 200));
}

#[test]
fn build_converts_quantity_strings() {
    // 82.55 mm is exactly 3.25 inches
    let r = Roll::build(Some("82.55 mm"), Some("10"), Some("0.015in"), Some("in")).unwrap();
    assert_eq!(r.coreod().value(), Frac::new(13, 4));
    assert_eq!(r.rollod().value(), Frac::new(10, 1));
    assert_eq!(r.thickness().value(), Frac::new(3, 200));
}

#[test]
fn build_missing_fields() {
    assert!(matches!(
        Roll::build(None, Some("10"), Some("0.015"), Some("in")),
        Err(RollError::MissingField)
    ));
    assert!(matches!(
        Roll::build(Some("3.25"), Some("10"), Some("0.015"), None),
        Err(RollError::MissingField)
    ));
    assert!(matches!(
        Roll::build(Some("3.25"), None, Some("0.015"), Some("in")),
        Err(RollError::MissingField)
    ));
}

#[test]
fn build_bad_units_option() {
    match Roll::build(Some("3.25"), Some("10"), Some("0.015"), Some("furlong")) {
        Err(RollError::Parse(ParseError::InvalidUnits(iu))) => assert_eq!(iu.0, "furlong"),
        other => panic!("expected InvalidUnits, got {:?}", other),
    }
}

#[test]
fn build_bad_field_number() {
    assert!(matches!(
        Roll::build(Some("wide"), Some("10"), Some("0.015"), Some("in")),
        Err(RollError::Parse(ParseError::MalformedNumber))
    ));
}

#[test]
fn build_bad_field_units() {
    match Roll::build(Some("3.25 cubits"), Some("10"), Some("0.015"), Some("in")) {
        Err(RollError::Parse(ParseError::InvalidUnits(iu))) => assert_eq!(iu.0, "cubits"),
        other => panic!("expected InvalidUnits, got {:?}", other),
    }
}

#[test]
fn default_roll_dimensions() {
    let r = Roll::default();
    assert_eq!(*r.units(), Units::Inches);
    assert_eq!(r.coreod().value(), Frac::new(13, 4));
    assert_eq!(r.rollod().value(), Frac::new(10, 1));
    assert_eq!(r.thickness().value(), Frac::new(3, 200));
}
