//! The closed set of length units and the quantity type `Size`.
//!
//! Every unit carries an exact conversion factor to millimeters, the
//! canonical pivot: converting goes value * factor(from) / factor(to).
//! Factors are exact rationals, so conversion is exact; converting a
//! quantity to its own unit returns it unchanged, bit for bit.

use vstd::prelude::*;

use crate::frac::{
    Frac, Ratio, ratio_eq, reduce128, reduced_fits,
};

verus! {

/// The closed, exhaustive set of supported length units.
#[derive(Debug, Clone, Copy, PartialEq, Eq, Structural)]
pub enum Units {
    Mils,
    Inches,
    Feet,
    Yards,
    Milimeters,
    Centimeters,
    Meters,
}

/// Exact conversion factor of a unit to millimeters, as a rational:
/// one mil is 127/5000 mm, one inch 127/5 mm, and so on.
pub open spec fn spec_factor(u: Units) -> Ratio {
    match u {
        Units::Mils => Ratio { num: 127, den: 5000 },
        Units::Inches => Ratio { num: 127, den: 5 },
        Units::Feet => Ratio { num: 1524, den: 5 },
        Units::Yards => Ratio { num: 4572, den: 5 },
        Units::Milimeters => Ratio { num: 1, den: 1 },
        Units::Centimeters => Ratio { num: 10, den: 1 },
        Units::Meters => Ratio { num: 1000, den: 1 },
    }
}

/// Every conversion factor is positive and small.
pub proof fn lemma_factor_bounds(u: Units)
    ensures
        1 <= spec_factor(u).num <= 5000,
        1 <= spec_factor(u).den <= 5000,
{
}

/// The exact value of `v` (given in unit `from`) expressed in unit `to`:
/// `v * factor(from) / factor(to)`, as an unreduced ratio.
pub open spec fn spec_convert(v: Ratio, from: Units, to: Units) -> Ratio {
    Ratio {
        num: v.num * spec_factor(from).num * spec_factor(to).den,
        den: v.den * spec_factor(from).den * spec_factor(to).num,
    }
}

/// The converted value, brought to lowest terms, fits in a `Frac`.
/// A conversion to the unit itself never computes, so it always fits.
pub open spec fn convert_fits(v: Ratio, from: Units, to: Units) -> bool {
    from == to || reduced_fits(spec_convert(v, from, to).num, spec_convert(v, from, to).den)
}

/// Converting a value to its own unit does not change it.
pub proof fn lemma_convert_identity(v: Ratio, u: Units)
    ensures
        ratio_eq(spec_convert(v, u, u), v),
{
    let f = spec_factor(u);
    assert((v.num * f.num * f.den) * v.den == v.num * (v.den * f.den * f.num))
        by (nonlinear_arith);
}

/// Round-trip law: converting any magnitude from `u1` to `u2` and back
/// yields the original value exactly.
pub proof fn lemma_convert_round_trip(v: Ratio, u1: Units, u2: Units)
    ensures
        ratio_eq(spec_convert(spec_convert(v, u1, u2), u2, u1), v),
{
    let f1 = spec_factor(u1);
    let f2 = spec_factor(u2);
    let inner = spec_convert(v, u1, u2);
    let outer = spec_convert(inner, u2, u1);
    assert(outer.num * v.den == v.num * outer.den) by (nonlinear_arith)
        requires
            outer.num == (v.num * f1.num * f2.den) * f2.num * f1.den,
            outer.den == (v.den * f1.den * f2.num) * f2.den * f1.num,
    ;
}

impl Units {
    /// The canonical display suffix of the unit.
    pub open spec fn spec_suffix(u: Units) -> Seq<char> {
        match u {
            Units::Mils => "mil"@,
            Units::Inches => "in"@,
            Units::Feet => "ft"@,
            Units::Yards => "yd"@,
            Units::Milimeters => "mm"@,
            Units::Centimeters => "cm"@,
            Units::Meters => "M"@,
        }
    }

    /// The canonical display suffix of the unit.
    pub fn unit_suffix(&self) -> (s: &'static str)
        ensures
            s@ == Units::spec_suffix(*self),
    {
        match self {
            Units::Mils => "mil",
            Units::Inches => "in",
            Units::Feet => "ft",
            Units::Yards => "yd",
            Units::Milimeters => "mm",
            Units::Centimeters => "cm",
            Units::Meters => "M",
        }
    }

    /// The exact conversion factor of this unit to millimeters.
    pub fn factor(&self) -> (r: Frac)
        ensures
            r.wf(),
            r@ == spec_factor(*self),
    {
        match self {
            Units::Mils => Frac { num: 127, den: 5000 },
            Units::Inches => Frac { num: 127, den: 5 },
            Units::Feet => Frac { num: 1524, den: 5 },
            Units::Yards => Frac { num: 4572, den: 5 },
            Units::Milimeters => Frac { num: 1, den: 1 },
            Units::Centimeters => Frac { num: 10, den: 1 },
            Units::Meters => Frac { num: 1000, den: 1 },
        }
    }

    /// A quantity of this unit with the given magnitude.
    pub fn size(self, value: Frac) -> (r: Size)
        ensures
            r.units == self,
            r.value == value,
    {
        Size { units: self, value }
    }
}

impl Default for Units {
    /// Inches are the working unit when none is chosen.
    fn default() -> (r: Self)
        ensures
            r == Units::Inches,
    {
        Units::Inches
    }
}

/// An immutable magnitude paired with a unit of length.
#[derive(Debug, Clone, Copy)]
pub struct Size {
    pub value: Frac,
    pub units: Units,
}

impl Size {
    /// Well-formed: the magnitude is a valid fraction.
    pub open spec fn wf(&self) -> bool {
        self.value.wf()
    }

    /// The magnitude, with no unit attached.
    pub fn value(&self) -> (r: Frac)
        ensures
            r == self.value,
    {
        self.value
    }

    /// The unit the magnitude is expressed in.
    pub fn units(&self) -> (r: Units)
        ensures
            r == self.units,
    {
        self.units
    }

    /// The same length expressed in `units`.
    ///
    /// Converting to the quantity's own unit returns it unchanged without
    /// any arithmetic; otherwise the result is the exact converted value.
    pub fn convert(&self, units: Units) -> (r: Size)
        requires
            self.wf(),
            convert_fits(self.value@, self.units, units),
        ensures
            r.wf(),
            r.units == units,
            self.units == units ==> r == *self,
            ratio_eq(r.value@, spec_convert(self.value@, self.units, units)),
    {
        match self.checked_convert(units) {
            Some(r) => r,
            None => {
                proof {
                    assert(false);
                }
                *self
            },
        }
    }

    /// The same length expressed in `units`, or `None` exactly when the
    /// converted value does not fit the magnitude representation.
    pub fn checked_convert(&self, units: Units) -> (r: Option<Size>)
        requires
            self.wf(),
        ensures
            r is Some <==> convert_fits(self.value@, self.units, units),
            match r {
                Some(s) => {
                    &&& s.wf()
                    &&& s.units == units
                    &&& (self.units == units ==> s == *self)
                    &&& ratio_eq(s.value@, spec_convert(self.value@, self.units, units))
                },
                None => true,
            },
    {
        if self.units == units {
            proof {
                lemma_convert_identity(self.value@, units);
            }
            return Some(*self);
        }
        let ff = self.units.factor();
        let ft = units.factor();
        proof {
            lemma_factor_bounds(self.units);
            lemma_factor_bounds(units);
            lemma_convert_products_fit(
                self.value.num as int,
                ff.num as int,
                ft.den as int,
            );
            lemma_convert_products_fit(
                self.value.den as int,
                ff.den as int,
                ft.num as int,
            );
            assert(self.value.den as int * ff.den as int * ft.num as int >= 1)
                by (nonlinear_arith)
                requires
                    self.value.den >= 1,
                    ff.den >= 1,
                    ft.num >= 1,
            ;
        }
        let n = (self.value.num as u128) * (ff.num as u128) * (ft.den as u128);
        let d = (self.value.den as u128) * (ff.den as u128) * (ft.num as u128);
        match reduce128(n, d) {
            Some(v) => Some(Size { value: v, units }),
            None => None,
        }
    }

    /// Replace this quantity by the same length expressed in `units`,
    /// in one step.
    pub fn convert_mut(&mut self, units: Units)
        requires
            old(self).wf(),
            convert_fits(old(self).value@, old(self).units, units),
        ensures
            final(self).wf(),
            final(self).units == units,
            old(self).units == units ==> *final(self) == *old(self),
            ratio_eq(final(self).value@, spec_convert(old(self).value@, old(self).units, units)),
    {
        if self.units != units {
            *self = self.convert(units);
        } else {
            proof {
                lemma_convert_identity(self.value@, units);
            }
        }
    }
}

/// Something with a length value expressible in millimeters, the
/// canonical pivot unit.
pub trait ToMilimeters {
    /// The value this object stands for, in millimeters.
    spec fn mm_value(&self) -> Ratio;

    /// The millimeter value fits the magnitude representation.
    spec fn to_mm_fits(&self) -> bool;

    /// What holds of the result when no conversion is needed: for a
    /// quantity already in millimeters, it comes back bit-identical,
    /// no arithmetic performed.
    spec fn mm_noop(&self, r: Size) -> bool;

    /// The same length as a quantity in millimeters.
    fn to_mm(&self) -> (r: Size)
        requires
            self.to_mm_fits(),
        ensures
            r.wf(),
            r.units == Units::Milimeters,
            ratio_eq(r.value@, self.mm_value()),
            self.mm_noop(r),
    ;
}

impl ToMilimeters for Size {
    open spec fn mm_value(&self) -> Ratio {
        spec_convert(self.value@, self.units, Units::Milimeters)
    }

    open spec fn to_mm_fits(&self) -> bool {
        self.wf() && convert_fits(self.value@, self.units, Units::Milimeters)
    }

    open spec fn mm_noop(&self, r: Size) -> bool {
        self.units == Units::Milimeters ==> r == *self
    }

    fn to_mm(&self) -> (r: Size) {
        self.convert(Units::Milimeters)
    }
}

/// Something convertible into a quantity of any unit.
pub trait ConvertUnits {
    /// The exact value the conversion must produce.
    spec fn converted_value(&self, units: Units) -> Ratio;

    /// The converted value fits the magnitude representation.
    spec fn convert_units_fits(&self, units: Units) -> bool;

    /// What holds of the result when no conversion is needed: a quantity
    /// already in the target unit comes back bit-identical, no
    /// arithmetic performed.
    spec fn convert_units_noop(&self, units: Units, r: Size) -> bool;

    /// The same length as a quantity in `units`.
    fn convert_units(&self, units: Units) -> (r: Size)
        requires
            self.convert_units_fits(units),
        ensures
            r.wf(),
            r.units == units,
            ratio_eq(r.value@, self.converted_value(units)),
            self.convert_units_noop(units, r),
    ;
}

impl ConvertUnits for Size {
    open spec fn converted_value(&self, units: Units) -> Ratio {
        spec_convert(self.value@, self.units, units)
    }

    open spec fn convert_units_fits(&self, units: Units) -> bool {
        self.wf() && convert_fits(self.value@, self.units, units)
    }

    open spec fn convert_units_noop(&self, units: Units, r: Size) -> bool {
        self.units == units ==> r == *self
    }

    fn convert_units(&self, units: Units) -> (r: Size) {
        self.convert(units)
    }
}

impl PartialEq for Size {
    /// Quantities are equal when they carry the same unit and numerically
    /// equal magnitudes.
    fn eq(&self, other: &Size) -> (r: bool) {
        self.units == other.units && self.value.eq(&other.value)
    }
}

impl vstd::std_specs::cmp::PartialEqSpecImpl for Size {
    open spec fn obeys_eq_spec() -> bool {
        true
    }

    open spec fn eq_spec(&self, other: &Size) -> bool {
        self.units == other.units && ratio_eq(self.value@, other.value@)
    }
}

/// A product of a magnitude part and two factor parts fits in a `u128`.
proof fn lemma_convert_products_fit(a: int, b: int, c: int)
    requires
        0 <= a <= u64::MAX,
        0 <= b <= 5000,
        0 <= c <= 5000,
    ensures
        0 <= a * b * c <= u128::MAX,
        a * b <= u128::MAX,
{
    vstd::arithmetic::mul::lemma_mul_upper_bound(a, u64::MAX as int, b, 5000);
    vstd::arithmetic::mul::lemma_mul_nonnegative(a, b);
    vstd::arithmetic::mul::lemma_mul_upper_bound(
        a * b,
        u64::MAX as int * 5000,
        c,
        5000,
    );
    vstd::arithmetic::mul::lemma_mul_nonnegative(a * b, c);
}

/// A unit token that matched no known synonym.
#[derive(Debug, Clone)]
pub struct InvalidUnits(pub String);

impl InvalidUnits {
    /// A human-readable description quoting the offending token.
    pub fn message(&self) -> (r: String)
        ensures
            r@ == "invalid units: '"@ + self.0@ + "'"@,
    {
        let mut out = String::from_str("invalid units: '");
        out.append(self.0.as_str());
        out.append("'");
        out
    }
}

} // verus!
