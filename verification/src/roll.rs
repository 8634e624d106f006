//! The roll aggregate and its winding-length algorithm.
//!
//! A `Roll` holds the core's outer diameter, the finished roll's outer
//! diameter and the material thickness, all interpreted in one shared
//! unit at all times; unit conversion replaces all three fields and the
//! unit tag together. The winding length sums one circumference per wrap,
//! the diameter growing by twice the thickness each wrap, and multiplies
//! by a fixed rational approximation of pi; over exact rationals this
//! equals the per-wrap multiplication exactly.

use vstd::prelude::*;

use crate::frac::{
    Frac, Ratio, ratio_eq, ratio_le, reduce128, reduced_fits, lemma_u64_mul_fits,
};
use crate::parse::{
    ParseError, parse_number, spec_lower, spec_num_ok, spec_num_token, spec_number,
    spec_number_fits, spec_parsed_unit, spec_parsed_value, spec_size_ok, spec_trimmed,
    spec_unit_of, spec_unit_token,
};
use crate::units::{Size, Units, convert_fits, spec_convert};

verus! {

/// Numerator of the rational approximation of pi used for wrap
/// circumferences: the continued-fraction convergent 103993/33102,
/// accurate to ten decimal places. A finer constant would make the exact
/// results outgrow the magnitude representation after a unit conversion.
pub const PI_NUM: u64 = 103993;

/// Denominator of the rational approximation of pi.
pub const PI_DEN: u64 = 33102;

/// A typed failure of roll construction or length computation.
#[derive(Debug)]
pub enum RollError {
    /// A required construction input was absent.
    MissingField,
    /// Thickness is zero, or the roll diameter is below the core diameter.
    InvalidGeometry,
    /// A field's text failed to parse in both accepted forms.
    Parse(crate::parse::ParseError),
    /// An exact intermediate or result does not fit the representation.
    Overflow,
}

/// Core and roll outer diameters and material thickness, all in `units`.
#[derive(Debug, Clone)]
pub struct Roll {
    pub coreod: Frac,
    pub rollod: Frac,
    pub thickness: Frac,
    pub units: Units,
}

/// The winding-length algorithm's precondition: positive thickness and a
/// roll diameter no smaller than the core diameter.
pub open spec fn spec_geometry_ok(c: Ratio, r: Ratio, t: Ratio) -> bool {
    t.num >= 1 && ratio_le(c, r)
}

/// Number of wraps wound between the core diameter `c` and the roll
/// diameter `r` at thickness `t`: the least `n` with `c + n * 2t >= r`.
pub open spec fn spec_wraps(c: Ratio, r: Ratio, t: Ratio) -> int {
    let delta = (r.num * c.den - c.num * r.den) * t.den;
    let step = 2 * t.num * c.den * r.den;
    if delta <= 0 {
        0
    } else {
        (delta + step - 1) / step
    }
}

/// The exact winding length: pi times the sum of the `n` wrap diameters
/// `c`, `c + 2t`, ..., which comes to `pi * (n*c + n*(n-1)*t)`.
pub open spec fn spec_winding(c: Ratio, r: Ratio, t: Ratio) -> Ratio {
    let n = spec_wraps(c, r, t);
    Ratio {
        num: PI_NUM * (n * c.num * t.den + n * (n - 1) * t.num * c.den),
        den: PI_DEN * (c.den * t.den),
    }
}

/// All intermediates of the winding computation, run over the common
/// denominator `c.den * r.den * t.den`, fit the machine representation.
pub open spec fn spec_winding_fits(c: Ratio, r: Ratio, t: Ratio) -> bool {
    let n = spec_wraps(c, r, t);
    let a = c.num * r.den * t.den;
    let rr = r.num * c.den * t.den;
    let tt = t.num * c.den * r.den;
    let d = c.den * r.den * t.den;
    let sum = n * a + n * (n - 1) * tt;
    &&& d <= u128::MAX
    &&& a <= u128::MAX
    &&& rr + 2 * tt <= u128::MAX
    &&& sum <= u128::MAX
    &&& sum * PI_NUM <= u128::MAX
    &&& d * PI_DEN <= u128::MAX
    &&& reduced_fits(sum * PI_NUM, d * PI_DEN)
}

/// Degenerate geometry: when the core and roll diameters coincide, no
/// wrap is wound and the winding length is exactly zero.
pub proof fn lemma_degenerate_geometry(c: Ratio, r: Ratio, t: Ratio)
    requires
        ratio_eq(c, r),
    ensures
        spec_wraps(c, r, t) == 0,
        spec_winding(c, r, t).num == 0,
{
    let delta = (r.num * c.den - c.num * r.den) * t.den;
    assert(delta == 0) by (nonlinear_arith)
        requires
            delta == (r.num * c.den - c.num * r.den) * t.den,
            c.num * r.den == r.num * c.den,
    ;
    let n = spec_wraps(c, r, t);
    assert(n * c.num * t.den + n * (n - 1) * t.num * c.den == 0) by (nonlinear_arith)
        requires
            n == 0,
    ;
}

/// For `n = ceil(delta / step)`: an index is below `n` exactly when its
/// multiple of `step` still falls short of `delta`.
proof fn lemma_ceil_div(delta: int, step: int, i: int)
    requires
        delta >= 0,
        step >= 1,
        i >= 0,
    ensures
        i < (if delta <= 0 { 0int } else { (delta + step - 1) / step })
            <==> i * step < delta,
{
    if delta <= 0 {
        assert(i * step >= 0) by (nonlinear_arith)
            requires
                i >= 0,
                step >= 1,
        ;
    } else {
        let n = (delta + step - 1) / step;
        vstd::arithmetic::div_mod::lemma_fundamental_div_mod(delta + step - 1, step);
        vstd::arithmetic::div_mod::lemma_mod_pos_bound(delta + step - 1, step);
        let rem = (delta + step - 1) % step;
        assert(delta + step - 1 == step * n + rem);
        // hence (n-1) * step < delta <= n * step
        assert((n - 1) * step < delta) by (nonlinear_arith)
            requires
                delta + step - 1 == step * n + rem,
                0 <= rem < step,
                step >= 1,
        ;
        assert(delta <= n * step) by (nonlinear_arith)
            requires
                delta + step - 1 == step * n + rem,
                0 <= rem < step,
                step >= 1,
        ;
        if i < n {
            assert(i * step <= (n - 1) * step) by (nonlinear_arith)
                requires
                    i <= n - 1,
                    step >= 1,
            ;
        } else {
            assert(i * step >= n * step) by (nonlinear_arith)
                requires
                    i >= n,
                    step >= 1,
            ;
        }
    }
}

/// The partial wrap sums grow with the wrap count.
proof fn lemma_partial_sum_mono(a: int, tt: int, i: int, j: int)
    requires
        a >= 0,
        tt >= 0,
        0 <= i <= j,
    ensures
        i * a + i * (i - 1) * tt <= j * a + j * (j - 1) * tt,
{
    assert(i * a + i * (i - 1) * tt <= j * a + j * (j - 1) * tt) by (nonlinear_arith)
        requires
            a >= 0,
            tt >= 0,
            0 <= i <= j,
    ;
}

/// `x * y <= m` exactly when `x <= m / y`, for positive `y`.
proof fn lemma_mul_le_div(x: int, y: int, m: int)
    requires
        x >= 0,
        y >= 1,
        m >= 0,
    ensures
        x * y <= m <==> x <= m / y,
{
    vstd::arithmetic::div_mod::lemma_fundamental_div_mod(m, y);
    vstd::arithmetic::div_mod::lemma_mod_pos_bound(m, y);
    let q = m / y;
    let rem = m % y;
    assert(x * y <= m <==> x <= q) by (nonlinear_arith)
        requires
            m == y * q + rem,
            0 <= rem < y,
            y >= 1,
            x >= 0,
    ;
}

impl Roll {
    /// Well-formed: every magnitude is a valid fraction.
    pub open spec fn wf(&self) -> bool {
        self.coreod.wf() && self.rollod.wf() && self.thickness.wf()
    }

    /// A roll from its three magnitudes, all in `units`.
    pub fn new(coreod: Frac, rollod: Frac, thickness: Frac, units: Units) -> (r: Roll)
        ensures
            r == (Roll { coreod, rollod, thickness, units }),
    {
        Roll { coreod, rollod, thickness, units }
    }

    /// The core's outer diameter, as a quantity in the roll's unit.
    pub fn coreod(&self) -> (r: Size)
        ensures
            r == (Size { value: self.coreod, units: self.units }),
    {
        self.units.size(self.coreod)
    }

    /// Replace the core's outer diameter, keeping everything else.
    pub fn set_coreod(&mut self, value: Frac)
        ensures
            *final(self) == (Roll { coreod: value, ..*old(self) }),
    {
        self.coreod = value;
    }

    /// The roll's outer diameter, as a quantity in the roll's unit.
    pub fn rollod(&self) -> (r: Size)
        ensures
            r == (Size { value: self.rollod, units: self.units }),
    {
        self.units.size(self.rollod)
    }

    /// Replace the roll's outer diameter, keeping everything else.
    pub fn set_rollod(&mut self, value: Frac)
        ensures
            *final(self) == (Roll { rollod: value, ..*old(self) }),
    {
        self.rollod = value;
    }

    /// The material thickness, as a quantity in the roll's unit.
    pub fn thickness(&self) -> (r: Size)
        ensures
            r == (Size { value: self.thickness, units: self.units }),
    {
        self.units.size(self.thickness)
    }

    /// Replace the material thickness, keeping everything else.
    pub fn set_thickness(&mut self, value: Frac)
        ensures
            *final(self) == (Roll { thickness: value, ..*old(self) }),
    {
        self.thickness = value;
    }

    /// The unit all three magnitudes are expressed in.
    pub fn units(&self) -> (r: &Units)
        ensures
            *r == self.units,
    {
        &self.units
    }

    /// Convert the whole roll to `units`, replacing all three magnitudes
    /// and the unit tag together.
    pub fn set_units(&mut self, units: Units)
        requires
            old(self).wf(),
            convert_fits(old(self).coreod@, old(self).units, units),
            convert_fits(old(self).rollod@, old(self).units, units),
            convert_fits(old(self).thickness@, old(self).units, units),
        ensures
            final(self).wf(),
            final(self).units == units,
            old(self).units == units ==> *final(self) == *old(self),
            ratio_eq(final(self).coreod@, spec_convert(old(self).coreod@, old(self).units, units)),
            ratio_eq(final(self).rollod@, spec_convert(old(self).rollod@, old(self).units, units)),
            ratio_eq(
                final(self).thickness@,
                spec_convert(old(self).thickness@, old(self).units, units),
            ),
    {
        self.convert_mut(units)
    }

    /// A copy of this roll with all three magnitudes expressed in `units`.
    pub fn convert(&self, units: Units) -> (r: Roll)
        requires
            self.wf(),
            convert_fits(self.coreod@, self.units, units),
            convert_fits(self.rollod@, self.units, units),
            convert_fits(self.thickness@, self.units, units),
        ensures
            r.wf(),
            r.units == units,
            self.units == units ==> r == *self,
            ratio_eq(r.coreod@, spec_convert(self.coreod@, self.units, units)),
            ratio_eq(r.rollod@, spec_convert(self.rollod@, self.units, units)),
            ratio_eq(r.thickness@, spec_convert(self.thickness@, self.units, units)),
    {
        match self.checked_convert(units) {
            Some(r) => r,
            None => {
                proof {
                    assert(false);
                }
                Roll { coreod: self.coreod, rollod: self.rollod, thickness: self.thickness, units: self.units }
            },
        }
    }

    /// A copy of this roll in `units`, or `None` exactly when one of the
    /// three converted magnitudes does not fit; no partial conversion is
    /// ever returned.
    pub fn checked_convert(&self, units: Units) -> (r: Option<Roll>)
        requires
            self.wf(),
        ensures
            r is Some <==> {
                &&& convert_fits(self.coreod@, self.units, units)
                &&& convert_fits(self.rollod@, self.units, units)
                &&& convert_fits(self.thickness@, self.units, units)
            },
            match r {
                Some(c) => {
                    &&& c.wf()
                    &&& c.units == units
                    &&& (self.units == units ==> c == *self)
                    &&& ratio_eq(c.coreod@, spec_convert(self.coreod@, self.units, units))
                    &&& ratio_eq(c.rollod@, spec_convert(self.rollod@, self.units, units))
                    &&& ratio_eq(c.thickness@, spec_convert(self.thickness@, self.units, units))
                },
                None => true,
            },
    {
        let core = self.units.size(self.coreod).checked_convert(units);
        let roll = self.units.size(self.rollod).checked_convert(units);
        let thick = self.units.size(self.thickness).checked_convert(units);
        match (core, roll, thick) {
            (Some(c), Some(r), Some(t)) => Some(
                Roll { coreod: c.value, rollod: r.value, thickness: t.value, units },
            ),
            _ => None,
        }
    }

    /// Convert this roll to `units` in place, atomically: the three
    /// magnitudes and the unit tag are replaced in one step.
    pub fn convert_mut(&mut self, units: Units)
        requires
            old(self).wf(),
            convert_fits(old(self).coreod@, old(self).units, units),
            convert_fits(old(self).rollod@, old(self).units, units),
            convert_fits(old(self).thickness@, old(self).units, units),
        ensures
            final(self).wf(),
            final(self).units == units,
            old(self).units == units ==> *final(self) == *old(self),
            ratio_eq(final(self).coreod@, spec_convert(old(self).coreod@, old(self).units, units)),
            ratio_eq(final(self).rollod@, spec_convert(old(self).rollod@, old(self).units, units)),
            ratio_eq(
                final(self).thickness@,
                spec_convert(old(self).thickness@, old(self).units, units),
            ),
    {
        *self = self.convert(units);
    }
}

impl Roll {
    /// The winding length of the roll, in the roll's unit.
    ///
    /// Sums one circumference per wrap from the core diameter up to the
    /// roll diameter, the diameter growing by twice the thickness each
    /// wrap; the sum times pi is returned exactly. When the core and roll
    /// diameters coincide the length is zero. Fails with
    /// `InvalidGeometry` exactly when thickness is zero or the roll
    /// diameter is below the core diameter, and with `Overflow` exactly
    /// when some exact intermediate does not fit the representation.
    #[verifier::loop_isolation(false)]
    pub fn length(&self) -> (r: Result<Size, RollError>)
        requires
            self.wf(),
        ensures
            ({
                let gc = self.coreod@;
                let gr = self.rollod@;
                let gt = self.thickness@;
                &&& ((r matches Err(e) && e matches RollError::InvalidGeometry) <==> !spec_geometry_ok(gc, gr, gt))
                &&& (r is Ok <==> spec_geometry_ok(gc, gr, gt) && spec_winding_fits(gc, gr, gt))
                &&& match r {
                    Ok(sz) => {
                        &&& sz.wf()
                        &&& sz.units == self.units
                        &&& ratio_eq(sz.value@, spec_winding(gc, gr, gt))
                    },
                    Err(e) => e matches RollError::InvalidGeometry || e matches RollError::Overflow,
                }
            }),
    {
        let ghost gc = self.coreod@;
        let ghost gr = self.rollod@;
        let ghost gt = self.thickness@;
        if self.thickness.is_zero() || self.rollod.lt(&self.coreod) {
            return Err(RollError::InvalidGeometry);
        }
        assert(spec_geometry_ok(gc, gr, gt));
        let cn = self.coreod.num as u128;
        let cd = self.coreod.den as u128;
        let rn = self.rollod.num as u128;
        let rd = self.rollod.den as u128;
        let tn = self.thickness.num as u128;
        let td = self.thickness.den as u128;
        proof {
            lemma_u64_mul_fits(self.coreod.num as int, self.rollod.den as int);
            lemma_u64_mul_fits(self.rollod.num as int, self.coreod.den as int);
            lemma_u64_mul_fits(self.thickness.num as int, self.coreod.den as int);
            lemma_u64_mul_fits(self.coreod.den as int, self.rollod.den as int);
        }
        // scale the three magnitudes to the common denominator cd*rd*td
        proof {
            lemma_mul_le_div(cd as int * rd as int, td as int, u128::MAX as int);
        }
        if cd * rd > u128::MAX / td {
            return Err(RollError::Overflow);
        }
        let d = (cd * rd) * td;
        proof {
            lemma_mul_le_div(cn as int * rd as int, td as int, u128::MAX as int);
        }
        if cn * rd > u128::MAX / td {
            return Err(RollError::Overflow);
        }
        let a = (cn * rd) * td;
        proof {
            lemma_mul_le_div(tn as int * cd as int, rd as int, u128::MAX as int);
        }
        if tn * cd > u128::MAX / rd {
            return Err(RollError::Overflow);
        }
        let tt = (tn * cd) * rd;
        proof {
            // a scaled thickness step above the representation also puts
            // rr + 2*tt above it
            assert(gr.num * gc.den * gt.den >= 0) by (nonlinear_arith)
                requires
                    gr.num >= 0 && gc.den >= 1 && gt.den >= 1,
            ;
        }
        if tt > u128::MAX / 2 {
            return Err(RollError::Overflow);
        }
        let twot = 2 * tt;
        proof {
            lemma_mul_le_div(rn as int * cd as int, td as int, u128::MAX as int);
        }
        if rn * cd > u128::MAX / td || (rn * cd) * td > u128::MAX - twot {
            return Err(RollError::Overflow);
        }
        let rr = (rn * cd) * td;
        // the scaled magnitudes, as the fits-condition states them
        assert(d as int == gc.den * gr.den * gt.den);
        assert(a as int == gc.num * gr.den * gt.den);
        assert(tt as int == gt.num * gc.den * gr.den);
        assert(rr as int == gr.num * gc.den * gt.den);
        let ghost n = spec_wraps(gc, gr, gt);
        let ghost delta = (gr.num * gc.den - gc.num * gr.den) * gt.den;
        let ghost step = 2 * gt.num * gc.den * gr.den;
        proof {
            assert(step == twot as int && delta == rr as int - a as int) by (nonlinear_arith)
                requires
                    step == 2 * gt.num * gc.den * gr.den,
                    delta == (gr.num * gc.den - gc.num * gr.den) * gt.den,
                    tt as int == gt.num * gc.den * gr.den,
                    twot as int == 2 * tt as int,
                    a as int == gc.num * gr.den * gt.den,
                    rr as int == gr.num * gc.den * gt.den,
            ;
            assert(step >= 1) by (nonlinear_arith)
                requires
                    step == 2 * gt.num * gc.den * gr.den,
                    gt.num >= 1 && gc.den >= 1 && gr.den >= 1,
            ;
            assert(delta >= 0) by (nonlinear_arith)
                requires
                    delta == (gr.num * gc.den - gc.num * gr.den) * gt.den,
                    gr.num * gc.den - gc.num * gr.den >= 0,
                    gt.den >= 1,
            ;
            lemma_ceil_div(delta, step, 0);
        }
        let mut len: u128 = 0;
        let mut diam: u128 = a;
        let ghost mut i: int = 0;
        proof {
            assert(i * a as int + i * (i - 1) * tt as int == 0) by (nonlinear_arith)
                requires
                    i == 0,
            ;
            assert(diam as int == a as int + i * twot as int) by (nonlinear_arith)
                requires
                    i == 0,
                    diam == a,
            ;
        }
        while diam < rr
            invariant
                0 <= i <= n,
                diam as int == a as int + i * twot as int,
                len as int == i * a as int + i * (i - 1) * tt as int,
            decreases n - i,
        {
            proof {
                lemma_ceil_div(delta, step, i);
                assert(i * step < delta);
            }
            if len > u128::MAX - diam {
                proof {
                    lemma_ceil_div(delta, step, i);
                    lemma_partial_sum_mono(a as int, tt as int, i + 1, n);
                    assert(len as int + diam as int == (i + 1) * a as int + (i + 1) * i * tt
                        as int) by (nonlinear_arith)
                        requires
                            diam as int == a as int + i * (2 * tt as int),
                            len as int == i * a as int + i * (i - 1) * tt as int,
                            twot as int == 2 * tt as int,
                    ;
                }
                return Err(RollError::Overflow);
            }
            len = len + diam;
            diam = diam + twot;
            proof {
                let iold = i;
                i = i + 1;
                lemma_ceil_div(delta, step, i);
                assert(diam as int == a as int + i * twot as int) by (nonlinear_arith)
                    requires
                        i == iold + 1,
                        diam as int - twot as int == a as int + iold * twot as int,
                ;
                assert(len as int == i * a as int + i * (i - 1) * tt as int)
                    by (nonlinear_arith)
                    requires
                        i == iold + 1,
                        len as int - (a as int + iold * twot as int) == iold * a as int + iold
                            * (iold - 1) * tt as int,
                        twot as int == 2 * tt as int,
                ;
            }
        }
        proof {
            lemma_ceil_div(delta, step, i);
            assert(i == n);
        }
        // one exact multiplication by pi for all wraps together
        proof {
            lemma_mul_le_div(len as int, PI_NUM as int, u128::MAX as int);
        }
        if len > u128::MAX / (PI_NUM as u128) {
            return Err(RollError::Overflow);
        }
        let lnum = len * (PI_NUM as u128);
        proof {
            lemma_mul_le_div(d as int, PI_DEN as int, u128::MAX as int);
        }
        if d > u128::MAX / (PI_DEN as u128) {
            return Err(RollError::Overflow);
        }
        let lden = d * (PI_DEN as u128);
        proof {
            assert(lden >= 1) by (nonlinear_arith)
                requires
                    d as int == gc.den * gr.den * gt.den,
                    gc.den >= 1 && gr.den >= 1 && gt.den >= 1,
                    lden as int == d as int * PI_DEN as int,
                    PI_DEN as int >= 1,
            ;
        }
        match reduce128(lnum, lden) {
            Some(f) => {
                proof {
                    let w = spec_winding(gc, gr, gt);
                    let k = n * gc.num * gt.den + n * (n - 1) * gt.num * gc.den;
                    // the loop's common-denominator sum carries one extra
                    // factor of the roll diameter's denominator
                    let m = n * (n - 1);
                    assert(n * a as int == gr.den * (n * gc.num * gt.den)) by (nonlinear_arith)
                        requires
                            a as int == gc.num * gr.den * gt.den,
                    ;
                    assert(m * tt as int == gr.den * (m * gt.num * gc.den)) by (nonlinear_arith)
                        requires
                            tt as int == gt.num * gc.den * gr.den,
                    ;
                    assert(len as int == gr.den * k) by (nonlinear_arith)
                        requires
                            len as int == n * a as int + m * tt as int,
                            n * a as int == gr.den * (n * gc.num * gt.den),
                            m * tt as int == gr.den * (m * gt.num * gc.den),
                            k == n * gc.num * gt.den + m * gt.num * gc.den,
                    ;
                    assert(lnum as int * w.den == w.num * lden as int) by (nonlinear_arith)
                        requires
                            lnum as int == len as int * PI_NUM as int,
                            len as int == gr.den * k,
                            lden as int == ((gc.den * gr.den) * gt.den) * PI_DEN as int,
                            w.num == PI_NUM * k,
                            w.den == PI_DEN * (gc.den * gt.den),
                    ;
                    crate::frac::lemma_ratio_eq_trans(
                        f@,
                        Ratio { num: lnum as int, den: lden as int },
                        w,
                    );
                }
                Ok(self.units.size(f))
            },
            None => Err(RollError::Overflow),
        }
    }
}

/// The outcome of assembling a roll from textual inputs, determined
/// purely by the inputs: the first failure in reading order, or the
/// built roll's unit and exact field values.
pub ghost enum BuildSpec {
    /// A required input was absent.
    Missing,
    /// A unit token (of the unit option or of a field that failed the
    /// bare-number fallback) named no unit; carries the token.
    BadUnits(Seq<char>),
    /// A field was neither a quantity string nor a bare numeric literal
    /// that fits.
    BadNumber,
    /// A field's value, converted to the working unit, does not fit.
    TooBig,
    /// The working unit and the three field values, in reading order.
    Built(Units, Ratio, Ratio, Ratio),
}

/// A single field's failure, if any: a parsed quantity must convert to
/// the working unit; otherwise the text must be a bare numeric literal;
/// otherwise the quantity parser's own error stands.
pub open spec fn spec_field_err(s: Seq<char>, u: Units) -> Option<BuildSpec> {
    if spec_size_ok(s) {
        if convert_fits(spec_parsed_value(s), spec_parsed_unit(s), u) {
            None
        } else {
            Some(BuildSpec::TooBig)
        }
    } else if spec_num_ok(spec_trimmed(s)) && spec_number_fits(spec_trimmed(s)) {
        None
    } else if !(spec_num_ok(spec_num_token(s)) && spec_number_fits(spec_num_token(s))) {
        Some(BuildSpec::BadNumber)
    } else {
        Some(BuildSpec::BadUnits(spec_lower(spec_unit_token(s))))
    }
}

/// A single field's exact value in the working unit: the parsed quantity
/// converted, or the bare literal read directly in that unit.
pub open spec fn spec_field_value(s: Seq<char>, u: Units) -> Ratio {
    if spec_size_ok(s) {
        spec_convert(spec_parsed_value(s), spec_parsed_unit(s), u)
    } else {
        spec_number(spec_trimmed(s))
    }
}

/// What building a roll from the given inputs must produce: the working
/// unit is read first, then core diameter, roll diameter and thickness,
/// and the first failure wins.
pub open spec fn spec_build(
    co: Option<Seq<char>>,
    ro: Option<Seq<char>>,
    to: Option<Seq<char>>,
    uo: Option<Seq<char>>,
) -> BuildSpec {
    if uo is None {
        BuildSpec::Missing
    } else if spec_unit_of(spec_trimmed(uo->Some_0)) is None {
        BuildSpec::BadUnits(spec_lower(spec_trimmed(uo->Some_0)))
    } else {
        let u = spec_unit_of(spec_trimmed(uo->Some_0))->Some_0;
        if co is None {
            BuildSpec::Missing
        } else if spec_field_err(co->Some_0, u) is Some {
            spec_field_err(co->Some_0, u)->Some_0
        } else if ro is None {
            BuildSpec::Missing
        } else if spec_field_err(ro->Some_0, u) is Some {
            spec_field_err(ro->Some_0, u)->Some_0
        } else if to is None {
            BuildSpec::Missing
        } else if spec_field_err(to->Some_0, u) is Some {
            spec_field_err(to->Some_0, u)->Some_0
        } else {
            BuildSpec::Built(
                u,
                spec_field_value(co->Some_0, u),
                spec_field_value(ro->Some_0, u),
                spec_field_value(to->Some_0, u),
            )
        }
    }
}

impl Roll {
    /// One construction input: the text is first read as a quantity
    /// string and converted into the working unit; failing that, as a
    /// bare numeric literal taken directly in the working unit; if both
    /// fail, the quantity parser's error is surfaced.
    fn parse_field(s: &str, u: Units) -> (r: Result<Frac, RollError>)
        ensures
            match spec_field_err(s@, u) {
                None => r matches Ok(f) && f.wf() && ratio_eq(f@, spec_field_value(s@, u)),
                Some(fe) => match fe {
                    BuildSpec::TooBig => r matches Err(e) && e matches RollError::Overflow,
                    BuildSpec::BadNumber => r matches Err(
                        RollError::Parse(ParseError::MalformedNumber),
                    ),
                    BuildSpec::BadUnits(tok) => r matches Err(
                        RollError::Parse(ParseError::InvalidUnits(iu)),
                    ) && iu.0@ == tok,
                    _ => false,
                },
            },
    {
        match Size::parse(s) {
            Ok(sz) => match sz.checked_convert(u) {
                Some(c) => Ok(c.value),
                None => Err(RollError::Overflow),
            },
            Err(stage_one) => match parse_number(s) {
                Ok(f) => Ok(f),
                Err(_) => Err(RollError::Parse(stage_one)),
            },
        }
    }

    /// Assemble a roll from textual inputs: a working unit and one text
    /// per field, each either a quantity string (converted into the
    /// working unit) or a bare number (taken directly in it). All three
    /// fields are normalized before any roll exists; no partially built
    /// roll can be observed. Every failure is a typed error.
    pub fn build(
        coreod: Option<&str>,
        rollod: Option<&str>,
        thickness: Option<&str>,
        units: Option<&str>,
    ) -> (r: Result<Roll, RollError>)
        ensures
            ({
                let outcome = spec_build(
                    match coreod {
                        Some(s) => Some(s@),
                        None => None,
                    },
                    match rollod {
                        Some(s) => Some(s@),
                        None => None,
                    },
                    match thickness {
                        Some(s) => Some(s@),
                        None => None,
                    },
                    match units {
                        Some(s) => Some(s@),
                        None => None,
                    },
                );
                match outcome {
                    BuildSpec::Missing => r matches Err(e) && e matches RollError::MissingField,
                    BuildSpec::BadUnits(tok) => r matches Err(
                        RollError::Parse(ParseError::InvalidUnits(iu)),
                    ) && iu.0@ == tok,
                    BuildSpec::BadNumber => r matches Err(
                        RollError::Parse(ParseError::MalformedNumber),
                    ),
                    BuildSpec::TooBig => r matches Err(e) && e matches RollError::Overflow,
                    BuildSpec::Built(u, cv, rv, tv) => r matches Ok(roll) && roll.wf()
                        && roll.units == u && ratio_eq(roll.coreod@, cv) && ratio_eq(
                        roll.rollod@,
                        rv,
                    ) && ratio_eq(roll.thickness@, tv),
                }
            }),
    {
        let u = match units {
            None => {
                return Err(RollError::MissingField);
            },
            Some(us) => match Units::parse(us) {
                Ok(u) => u,
                Err(iu) => {
                    return Err(RollError::Parse(ParseError::InvalidUnits(iu)));
                },
            },
        };
        let core = match coreod {
            None => {
                return Err(RollError::MissingField);
            },
            Some(cs) => match Self::parse_field(cs, u) {
                Ok(v) => v,
                Err(e) => {
                    return Err(e);
                },
            },
        };
        let roll = match rollod {
            None => {
                return Err(RollError::MissingField);
            },
            Some(rs) => match Self::parse_field(rs, u) {
                Ok(v) => v,
                Err(e) => {
                    return Err(e);
                },
            },
        };
        let thick = match thickness {
            None => {
                return Err(RollError::MissingField);
            },
            Some(ts) => match Self::parse_field(ts, u) {
                Ok(v) => v,
                Err(e) => {
                    return Err(e);
                },
            },
        };
        Ok(Roll { coreod: core, rollod: roll, thickness: thick, units: u })
    }
}

impl Default for Roll {
    /// The default roll: a 3.25 inch core, a 10 inch roll, 0.015 inch
    /// thick material.
    fn default() -> (r: Self)
        ensures
            r == (Roll {
                coreod: Frac { num: 13, den: 4 },
                rollod: Frac { num: 10, den: 1 },
                thickness: Frac { num: 3, den: 200 },
                units: Units::Inches,
            }),
    {
        Roll {
            coreod: Frac { num: 13, den: 4 },
            rollod: Frac { num: 10, den: 1 },
            thickness: Frac { num: 3, den: 200 },
            units: Units::Inches,
        }
    }
}

} // verus!
