use rlcalc::frac::Frac;
use rlcalc::units::{ConvertUnits, Size, ToMilimeters, Units};

fn q(units: Units, num: u64, den: u64) -> Size {
    units.size(Frac::new(num, den))
}

#[test]
fn value_equality_ignores_representation() {
    assert_eq!(Frac::new(1, 2), Frac { num: 2, den: 4 });
    assert_eq!(q(Units::Inches, 42, 1), Units::Inches.size(Frac { num: 84, den: 2 }));
    assert_ne!(q(Units::Inches, 42, 1), q(Units::Feet, 42, 1));
    assert_ne!(q(Units::Inches, 42, 1), q(Units::Inches, 43, 1));
}

#[test]
fn identity_conversion_is_bit_identical() {
    // converting to the quantity's own unit performs no arithmetic at all
    let odd = Units::Inches.size(Frac { num: 84, den: 2 });
    let back = odd.convert(Units::Inches);
    assert_eq!(back.value().num, 84);
    assert_eq!(back.value().den, 2);
    assert_eq!(back.units(), Units::Inches);
}

#[test]
fn convert_feet_to_inches() {
    assert_eq!(q(Units::Feet, 1, 1).convert(Units::Inches), q(Units::Inches, 12, 1));
}

#[test]
fn convert_inches_to_mils() {
    assert_eq!(q(Units::Inches, 1, 1).convert(Units::Mils), q(Units::Mils, 1000, 1));
}

#[test]
fn convert_feet_to_mils() {
    assert_eq!(q(Units::Feet, 1, 1).convert(Units::Mils), q(Units::Mils, 12000, 1));
}

#[test]
fn convert_yards_to_feet() {
    assert_eq!(q(Units::Yards, 1, 1).convert(Units::Feet), q(Units::Feet, 3, 1));
}

#[test]
fn convert_inches_to_yards() {
    assert_eq!(q(Units::Inches, 36, 1).convert(Units::Yards), q(Units::Yards, 1, 1));
}

#[test]
fn convert_inches_to_milimeters() {
    // exactly 25.4 mm to the inch
    assert_eq!(q(Units::Inches, 1, 1).convert(Units::Milimeters), q(Units::Milimeters, 127, 5));
}

#[test]
fn convert_meters_to_milimeters() {
    assert_eq!(q(Units::Meters, 1, 1).convert(Units::Milimeters), q(Units::Milimeters, 1000, 1));
}

#[test]
fn convert_centimeters_to_feet() {
    assert_eq!(q(Units::Centimeters, 3048, 100).convert(Units::Feet), q(Units::Feet, 1, 1));
}

#[test]
fn convert_milimeters_to_mils() {
    assert_eq!(q(Units::Milimeters, 127, 5000).convert(Units::Mils), q(Units::Mils, 1, 1));
}

#[test]
fn round_trips_are_exact() {
    // over exact rationals the round trip loses nothing at all
    let units = [
        Units::Mils,
        Units::Inches,
        Units::Feet,
        Units::Yards,
        Units::Milimeters,
        Units::Centimeters,
        Units::Meters,
    ];
    let v = Frac::new(9558129, 1000);
    for from in units {
        for to in units {
            let start = from.size(v);
            let there = start.checked_convert(to).expect("conversion fits");
            let back = there.checked_convert(from).expect("conversion fits");
            assert_eq!(back, start);
        }
    }
}

#[test]
fn convert_mut_replaces_state() {
    let mut s = q(Units::Feet, 2, 1);
    s.convert_mut(Units::Inches);
    assert_eq!(s, q(Units::Inches, 24, 1));
    s.convert_mut(Units::Inches);
    assert_eq!(s.value().num, 24);
    assert_eq!(s.value().den, 1);
}

#[test]
fn checked_convert_overflow() {
    // the largest representable mil count has no meter representation
    let huge = Units::Meters.size(Frac { num: u64::MAX, den: 1 });
    assert!(huge.checked_convert(Units::Mils).is_none());
    assert!(huge.checked_convert(Units::Meters).is_some());
}

#[test]
fn conversion_traits_agree_with_convert() {
    let s = q(Units::Inches, 2, 1);
    assert_eq!(s.to_mm(), q(Units::Milimeters, 254, 5));
    assert_eq!(s.convert_units(Units::Feet), q(Units::Feet, 1, 6));
}

#[test]
fn trait_conversions_are_noops_on_the_own_unit() {
    // already in millimeters: bit-identical, not merely value-equal
    let odd = Units::Milimeters.size(Frac { num: 84, den: 2 });
    let mm = odd.to_mm();
    assert_eq!(mm.value().num, 84);
    assert_eq!(mm.value().den, 2);
    let same = odd.convert_units(Units::Milimeters);
    assert_eq!(same.value().num, 84);
    assert_eq!(same.value().den, 2);
}

#[test]
fn unit_suffixes() {
    assert_eq!(Units::Mils.unit_suffix(), "mil");
    assert_eq!(Units::Inches.unit_suffix(), "in");
    assert_eq!(Units::Feet.unit_suffix(), "ft");
    assert_eq!(Units::Yards.unit_suffix(), "yd");
    assert_eq!(Units::Milimeters.unit_suffix(), "mm");
    assert_eq!(Units::Centimeters.unit_suffix(), "cm");
    assert_eq!(Units::Meters.unit_suffix(), "M");
}

#[test]
fn default_unit_is_inches() {
    assert_eq!(Units::default(), Units::Inches);
}

#[test]
fn fractions_reduce_and_compare() {
    let f = Frac::new(666666, 1000);
    assert_eq!(f.num, 333333);
    assert_eq!(f.den, 500);
    assert!(Frac::new(1, 3).lt(&Frac::new(1, 2)));
    assert!(Frac::new(1, 2).le(&Frac::new(2, 4)));
    assert!(!Frac::new(1, 2).lt(&Frac::new(2, 4)));
    assert!(Frac::from_whole(0).is_zero());
    assert!(!Frac::new(1, 9).is_zero());
}
