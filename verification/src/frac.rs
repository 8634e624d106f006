//! Exact non-negative rational magnitudes.
//!
//! A `Frac` is a numerator/denominator pair of `u64`s with a positive
//! denominator. Its mathematical value is the ghost `Ratio` obtained through
//! `view`, and all contracts in the crate speak of values through `ratio_eq`,
//! so that two representations of the same number are interchangeable.

use vstd::prelude::*;

verus! {

/// Ghost mathematical value of a magnitude: the rational `num / den`.
pub ghost struct Ratio {
    pub num: int,
    pub den: int,
}

/// Two ratios denote the same rational number.
pub open spec fn ratio_eq(a: Ratio, b: Ratio) -> bool {
    a.num * b.den == b.num * a.den
}

/// `a` denotes a strictly smaller rational than `b`.
pub open spec fn ratio_lt(a: Ratio, b: Ratio) -> bool {
    a.num * b.den < b.num * a.den
}

/// `a` denotes a rational no greater than `b`.
pub open spec fn ratio_le(a: Ratio, b: Ratio) -> bool {
    a.num * b.den <= b.num * a.den
}

/// An exact non-negative rational magnitude.
#[derive(Clone, Copy, Debug)]
pub struct Frac {
    pub num: u64,
    pub den: u64,
}

impl View for Frac {
    type V = Ratio;

    open spec fn view(&self) -> Ratio {
        Ratio { num: self.num as int, den: self.den as int }
    }
}

impl Frac {
    /// Well-formed: the denominator is positive.
    pub open spec fn wf(&self) -> bool {
        self.den >= 1
    }

    /// The whole number `n`.
    pub fn from_whole(n: u64) -> (r: Frac)
        ensures
            r.wf(),
            r@ == (Ratio { num: n as int, den: 1int }),
    {
        Frac { num: n, den: 1 }
    }

    /// The rational `num / den`, stored in lowest terms.
    pub fn new(num: u64, den: u64) -> (r: Frac)
        requires
            den >= 1,
        ensures
            r.wf(),
            r@ == spec_reduced(Ratio { num: num as int, den: den as int }),
            ratio_eq(r@, Ratio { num: num as int, den: den as int }),
    {
        proof {
            let g = spec_gcd(num as nat, den as nat);
            lemma_gcd_divides(num as nat, den as nat);
            lemma_div_exact_bounds(num as int, g as int);
            lemma_div_exact_bounds(den as int, g as int);
        }
        let r = reduce128(num as u128, den as u128);
        match r {
            Some(f) => f,
            None => {
                // unreachable: dividing out the gcd cannot enlarge either part
                proof {
                    assert(false);
                }
                Frac { num: 0, den: 1 }
            },
        }
    }

    /// True when the magnitude is zero.
    pub fn is_zero(&self) -> (r: bool)
        requires
            self.wf(),
        ensures
            r == (self@.num == 0),
    {
        self.num == 0
    }

    /// Exact value comparison: `self < other`.
    pub fn lt(&self, other: &Frac) -> (r: bool)
        requires
            self.wf(),
            other.wf(),
        ensures
            r == ratio_lt(self@, other@),
    {
        proof {
            lemma_u64_mul_fits(self.num as int, other.den as int);
            lemma_u64_mul_fits(other.num as int, self.den as int);
        }
        (self.num as u128) * (other.den as u128) < (other.num as u128) * (self.den as u128)
    }

    /// Exact value comparison: `self <= other`.
    pub fn le(&self, other: &Frac) -> (r: bool)
        requires
            self.wf(),
            other.wf(),
        ensures
            r == ratio_le(self@, other@),
    {
        proof {
            lemma_u64_mul_fits(self.num as int, other.den as int);
            lemma_u64_mul_fits(other.num as int, self.den as int);
        }
        (self.num as u128) * (other.den as u128) <= (other.num as u128) * (self.den as u128)
    }
}

impl PartialEq for Frac {
    /// Exact value equality: two fractions are equal when they denote the
    /// same rational number, whatever their representations.
    fn eq(&self, other: &Frac) -> (r: bool) {
        proof {
            lemma_u64_mul_fits(self.num as int, other.den as int);
            lemma_u64_mul_fits(other.num as int, self.den as int);
        }
        (self.num as u128) * (other.den as u128) == (other.num as u128) * (self.den as u128)
    }
}

impl vstd::std_specs::cmp::PartialEqSpecImpl for Frac {
    open spec fn obeys_eq_spec() -> bool {
        true
    }

    open spec fn eq_spec(&self, other: &Frac) -> bool {
        ratio_eq(self@, other@)
    }
}

/// Value equality is transitive over well-formed ratios.
pub proof fn lemma_ratio_eq_trans(a: Ratio, b: Ratio, c: Ratio)
    requires
        b.den >= 1,
        ratio_eq(a, b),
        ratio_eq(b, c),
    ensures
        ratio_eq(a, c),
{
    assert(a.num * c.den == c.num * a.den) by (nonlinear_arith)
        requires
            b.den >= 1,
            a.num * b.den == b.num * a.den,
            b.num * c.den == c.num * b.den,
    ;
}

/// Equal ratios with positive denominators agree on positivity.
pub proof fn lemma_ratio_sign(a: Ratio, b: Ratio)
    requires
        ratio_eq(a, b),
        a.den >= 1,
        b.den >= 1,
    ensures
        (a.num > 0) == (b.num > 0),
{
    assert((a.num > 0) == (b.num > 0)) by (nonlinear_arith)
        requires
            a.num * b.den == b.num * a.den,
            a.den >= 1,
            b.den >= 1,
    ;
}

/// A product of two `u64`-sized factors fits in a `u128`.
pub proof fn lemma_u64_mul_fits(a: int, b: int)
    requires
        0 <= a <= u64::MAX,
        0 <= b <= u64::MAX,
    ensures
        0 <= a * b <= u128::MAX,
{
    vstd::arithmetic::mul::lemma_mul_upper_bound(a, u64::MAX as int, b, u64::MAX as int);
    vstd::arithmetic::mul::lemma_mul_nonnegative(a, b);
}

/// Euclid's recurrence; `gcd(a, b)` with `gcd(a, 0) == a`.
pub open spec fn spec_gcd(a: nat, b: nat) -> nat
    decreases b,
{
    if b == 0 {
        a
    } else {
        spec_gcd(b, a % b)
    }
}

/// `d` divides `x`.
pub open spec fn divides(d: int, x: int) -> bool {
    d != 0 && x % d == 0
}

/// The gcd of two numbers, the second positive, divides both and is positive.
pub proof fn lemma_gcd_divides(a: nat, b: nat)
    ensures
        a + b >= 1 ==> spec_gcd(a, b) >= 1,
        a + b >= 1 ==> divides(spec_gcd(a, b) as int, a as int),
        a + b >= 1 ==> divides(spec_gcd(a, b) as int, b as int),
    decreases b,
{
    if b == 0 {
        if a >= 1 {
            vstd::arithmetic::div_mod::lemma_mod_self_0(a as int);
            vstd::arithmetic::div_mod::lemma_small_mod(0nat, a);
        }
    } else {
        vstd::arithmetic::div_mod::lemma_mod_division_less_than_divisor(a as int, b as int);
        lemma_gcd_divides(b, a % b);
        let g = spec_gcd(b, a % b) as int;
        // g | b and g | a % b, so g | a, since a == b * (a / b) + a % b.
        vstd::arithmetic::div_mod::lemma_fundamental_div_mod(a as int, b as int);
        lemma_div_sum(g, b as int, a as int / b as int, (a % b) as int);
    }
}

/// If `d` divides `b` and `r`, it divides `b * q + r`.
proof fn lemma_div_sum(d: int, b: int, q: int, r: int)
    requires
        d >= 1,
        divides(d, b),
        divides(d, r),
    ensures
        divides(d, b * q + r),
{
    let bb = b / d;
    let rr = r / d;
    vstd::arithmetic::div_mod::lemma_fundamental_div_mod(b, d);
    vstd::arithmetic::div_mod::lemma_fundamental_div_mod(r, d);
    assert(b == d * bb && r == d * rr);
    assert(b * q + r == d * (bb * q + rr)) by (nonlinear_arith)
        requires
            b == d * bb,
            r == d * rr,
    ;
    lemma_mul_mod_zero(d, bb * q + rr);
}

/// A multiple of `d` leaves no remainder by `d`.
proof fn lemma_mul_mod_zero(d: int, k: int)
    requires
        d >= 1,
    ensures
        (d * k) % d == 0,
{
    assert(d * k == k * d) by (nonlinear_arith);
    vstd::arithmetic::div_mod::lemma_mod_multiples_basic(k, d);
}

/// Euclid's algorithm, proved to compute `spec_gcd`.
pub fn gcd128(a: u128, b: u128) -> (g: u128)
    ensures
        g == spec_gcd(a as nat, b as nat),
    decreases b,
{
    if b == 0 {
        a
    } else {
        gcd128(b, a % b)
    }
}

/// The numerator of `num / den` in lowest terms.
pub open spec fn reduced_num(num: int, den: int) -> int {
    num / spec_gcd(num as nat, den as nat) as int
}

/// The denominator of `num / den` in lowest terms.
pub open spec fn reduced_den(num: int, den: int) -> int {
    den / spec_gcd(num as nat, den as nat) as int
}

/// `num / den` in lowest terms fits into a `Frac`.
pub open spec fn reduced_fits(num: int, den: int) -> bool {
    reduced_num(num, den) <= u64::MAX && reduced_den(num, den) <= u64::MAX
}

/// A ratio brought to lowest terms.
pub open spec fn spec_reduced(v: Ratio) -> Ratio {
    Ratio { num: reduced_num(v.num, v.den), den: reduced_den(v.num, v.den) }
}

/// Divide out the gcd; the value is unchanged, and the result is `Some`
/// exactly when both reduced parts fit in a `u64`.
pub fn reduce128(num: u128, den: u128) -> (r: Option<Frac>)
    requires
        den >= 1,
    ensures
        r is Some <==> reduced_fits(num as int, den as int),
        match r {
            Some(f) => {
                &&& f.wf()
                &&& f.num as int == reduced_num(num as int, den as int)
                &&& f.den as int == reduced_den(num as int, den as int)
                &&& ratio_eq(f@, Ratio { num: num as int, den: den as int })
            },
            None => true,
        },
{
    let g = gcd128(num, den);
    proof {
        lemma_gcd_divides(num as nat, den as nat);
    }
    assert(g >= 1);
    let rn = num / g;
    let rd = den / g;
    proof {
        lemma_div_exact_bounds(num as int, g as int);
        lemma_div_exact_bounds(den as int, g as int);
        vstd::arithmetic::div_mod::lemma_fundamental_div_mod(den as int, g as int);
        assert(den as int == g as int * (den as int / g as int));
        assert(rd >= 1) by (nonlinear_arith)
            requires
                den >= 1,
                g >= 1,
                den as int == g as int * (den as int / g as int),
                rd == den as int / g as int,
        ;
        lemma_reduced_value_eq(num as int, den as int, g as int);
    }
    if rn <= u64::MAX as u128 && rd <= u64::MAX as u128 {
        Some(Frac { num: rn as u64, den: rd as u64 })
    } else {
        None
    }
}

/// Exact division does not enlarge a non-negative dividend.
proof fn lemma_div_exact_bounds(x: int, d: int)
    requires
        x >= 0,
        d >= 1,
    ensures
        0 <= x / d <= x,
{
    vstd::arithmetic::div_mod::lemma_div_is_ordered_by_denominator(x, 1, d);
    vstd::arithmetic::div_mod::lemma_div_basics(x);
    vstd::arithmetic::div_mod::lemma_div_pos_is_pos(x, d);
}

/// Dividing numerator and denominator by a common divisor keeps the value.
proof fn lemma_reduced_value_eq(num: int, den: int, g: int)
    requires
        g >= 1,
        num >= 0,
        den >= 1,
        divides(g, num),
        divides(g, den),
    ensures
        (num / g) * den == num * (den / g),
{
    let nn = num / g;
    let dd = den / g;
    vstd::arithmetic::div_mod::lemma_fundamental_div_mod(num, g);
    vstd::arithmetic::div_mod::lemma_fundamental_div_mod(den, g);
    assert(num == g * nn && den == g * dd);
    assert(nn * (g * dd) == (g * nn) * dd) by (nonlinear_arith);
}

} // verus!
