//! Rendering quantities back to text.
//!
//! A quantity formats as its exact decimal expansion followed by a space
//! and the unit's canonical suffix, whenever the magnitude has a finite
//! decimal expansion that the parser could read back; the contract states
//! precisely that re-parsing the output reproduces the quantity.

use vstd::prelude::*;

use crate::frac::{Ratio, ratio_eq, lemma_u64_mul_fits};
use crate::parse::{
    spec_dots, spec_frac_len, spec_has_digit, spec_has_dot, spec_is_digit, spec_is_numchar,
    spec_is_space, spec_num_end, spec_num_ok, spec_num_token, spec_number, spec_number_fits,
    spec_pow10, spec_rstrip, spec_skip_ws, spec_token_val, spec_unit_of, spec_unit_token,
    spec_lower, spec_lower_char, lemma_pow10_mono, lemma_no_dot_frac_zero,
};
use crate::units::{Size, Units};

verus! {

/// The character of a single decimal digit.
pub open spec fn spec_digit_char(d: int) -> char {
    ((d + 48) as u32) as char
}

/// The decimal digits of `n`, most significant first, no leading zeros.
pub open spec fn spec_digits(n: int) -> Seq<char>
    decreases n,
{
    if n < 10 {
        seq![spec_digit_char(n)]
    } else {
        spec_digits(n / 10).push(spec_digit_char(n % 10))
    }
}

/// Exactly `k` decimal digits of `n`, zero-padded on the left.
pub open spec fn spec_padded(n: int, k: int) -> Seq<char>
    decreases k,
{
    if k <= 0 {
        Seq::empty()
    } else {
        spec_padded(n / 10, k - 1).push(spec_digit_char(n % 10))
    }
}

/// Digit characters are digits and name their value.
proof fn lemma_digit_char(d: int)
    requires
        0 <= d <= 9,
    ensures
        spec_is_digit(spec_digit_char(d)),
        crate::parse::spec_digit_val(spec_digit_char(d)) == d,
        spec_digit_char(d) != '.',
        !spec_is_space(spec_digit_char(d)),
{
}

/// The digit expansion of `n` is a well-formed dot-free numeric token
/// naming exactly `n`.
proof fn lemma_digits_props(n: int)
    requires
        n >= 0,
    ensures
        spec_digits(n).len() >= 1,
        forall|i: int|
            0 <= i < spec_digits(n).len() ==> spec_is_digit(#[trigger] spec_digits(n)[i]),
        spec_token_val(spec_digits(n)) == n,
        !spec_has_dot(spec_digits(n)),
        spec_dots(spec_digits(n)) == 0,
    decreases n,
{
    if n < 10 {
        lemma_digit_char(n);
        let t = spec_digits(n);
        assert(t.len() == 1);
        assert(t.drop_last() =~= Seq::<char>::empty());
        assert(t.last() == spec_digit_char(n));
        assert(t.last() != '.');
        assert(spec_token_val(t.drop_last()) == 0);
        assert(spec_token_val(t) == spec_token_val(t.drop_last()) * 10 + crate::parse::spec_digit_val(t.last()));
        assert(spec_dots(t) == spec_dots(t.drop_last()) + 0);
        assert forall|i: int| 0 <= i < t.len() implies spec_is_digit(t[i]) by {
            assert(t[i] == spec_digit_char(n));
        }
    } else {
        vstd::arithmetic::div_mod::lemma_mod_pos_bound(n, 10);
        vstd::arithmetic::div_mod::lemma_div_pos_is_pos(n, 10);
        vstd::arithmetic::div_mod::lemma_fundamental_div_mod(n, 10);
        lemma_digits_props(n / 10);
        lemma_digit_char(n % 10);
        let p = spec_digits(n / 10);
        let t = spec_digits(n);
        assert(t.drop_last() =~= p);
        assert(t.last() == spec_digit_char(n % 10));
        assert forall|i: int| 0 <= i < t.len() implies spec_is_digit(t[i]) by {
            if i < p.len() {
                assert(t[i] == p[i]);
            }
        }
        if spec_has_dot(t) {
            let w = choose|i: int| 0 <= i < t.len() && t[i] == '.';
            if w < p.len() {
                assert(p[w] == '.');
            }
        }
    }
}

/// The padded expansion of `n < 10^k` has exactly `k` digit characters
/// and names exactly `n`.
proof fn lemma_padded_props(n: int, k: int)
    requires
        k >= 0,
        0 <= n < spec_pow10(k),
    ensures
        spec_padded(n, k).len() == k,
        forall|i: int|
            0 <= i < k ==> spec_is_digit(#[trigger] spec_padded(n, k)[i]),
        spec_token_val(spec_padded(n, k)) == n,
        !spec_has_dot(spec_padded(n, k)),
        spec_dots(spec_padded(n, k)) == 0,
    decreases k,
{
    if k == 0 {
    } else {
        vstd::arithmetic::div_mod::lemma_mod_pos_bound(n, 10);
        vstd::arithmetic::div_mod::lemma_div_pos_is_pos(n, 10);
        vstd::arithmetic::div_mod::lemma_fundamental_div_mod(n, 10);
        assert(n / 10 < spec_pow10(k - 1)) by (nonlinear_arith)
            requires
                n < spec_pow10(k),
                spec_pow10(k) == 10 * spec_pow10(k - 1),
                n == 10 * (n / 10) + n % 10,
                0 <= n % 10 < 10,
                n / 10 >= 0,
        ;
        lemma_padded_props(n / 10, k - 1);
        lemma_digit_char(n % 10);
        let p = spec_padded(n / 10, k - 1);
        let t = spec_padded(n, k);
        assert(t.drop_last() =~= p);
        assert(t.last() == spec_digit_char(n % 10));
        assert forall|i: int| 0 <= i < k implies spec_is_digit(t[i]) by {
            if i < p.len() {
                assert(t[i] == p[i]);
            }
        }
        if spec_has_dot(t) {
            let w = choose|i: int| 0 <= i < t.len() && t[i] == '.';
            if w < p.len() {
                assert(p[w] == '.');
            }
        }
    }
}

/// Dot counts add over concatenation.
proof fn lemma_dots_concat(a: Seq<char>, b: Seq<char>)
    ensures
        spec_dots(a + b) == spec_dots(a) + spec_dots(b),
    decreases b.len(),
{
    if b.len() == 0 {
        assert(a + b =~= a);
    } else {
        lemma_dots_concat(a, b.drop_last());
        assert((a + b).drop_last() =~= a + b.drop_last());
    }
}

/// Appending digit characters multiplies a token's value by the matching
/// power of ten.
proof fn lemma_token_val_concat_digits(a: Seq<char>, b: Seq<char>)
    requires
        forall|i: int| 0 <= i < b.len() ==> spec_is_digit(#[trigger] b[i]),
    ensures
        spec_token_val(a + b) == spec_token_val(a) * spec_pow10(b.len() as int)
            + spec_token_val(b),
    decreases b.len(),
{
    if b.len() == 0 {
        assert(a + b =~= a);
        assert(spec_token_val(a) * 1 == spec_token_val(a)) by (nonlinear_arith);
    } else {
        let p = b.drop_last();
        lemma_token_val_concat_digits(a, p);
        assert((a + b).drop_last() =~= a + p);
        assert((a + b).last() == b.last());
        assert(spec_is_digit(b[b.len() - 1]));
        assert((spec_token_val(a) * spec_pow10(p.len() as int) + spec_token_val(p)) * 10
            == spec_token_val(a) * (10 * spec_pow10(p.len() as int)) + spec_token_val(p) * 10)
            by (nonlinear_arith);
    }
}

/// A dot contributes nothing to a token's value.
proof fn lemma_token_val_dot(a: Seq<char>)
    ensures
        spec_token_val(a.push('.')) == spec_token_val(a),
        spec_has_dot(a.push('.')),
{
    assert(a.push('.').drop_last() =~= a);
    assert(a.push('.').last() == '.');
    assert(a.push('.')[a.len() as int] == '.');
}

/// After a token ending in the dot, each appended digit counts as one
/// fractional digit.
proof fn lemma_frac_len_after_dot(a: Seq<char>, b: Seq<char>)
    requires
        forall|i: int| 0 <= i < b.len() ==> spec_is_digit(#[trigger] b[i]),
        a.len() >= 1,
        a.last() == '.',
    ensures
        spec_frac_len(a + b) == b.len(),
        spec_has_dot(a + b),
    decreases b.len(),
{
    assert(a[a.len() - 1] == '.');
    assert((a + b)[a.len() - 1] == '.');
    if b.len() == 0 {
        assert(a + b =~= a);
    } else {
        let p = b.drop_last();
        lemma_frac_len_after_dot(a, p);
        assert((a + b).drop_last() =~= a + p);
        assert((a + b).last() == b.last());
        assert(spec_is_digit(b[b.len() - 1]));
        assert(spec_frac_len(a + b) == spec_frac_len(a + p) + 1);
    }
}

/// Scanning a numeric run ends exactly at its first non-numeric position.
proof fn lemma_num_end_scan(w: Seq<char>, i: int, m: int)
    requires
        0 <= i <= m <= w.len(),
        forall|j: int| i <= j < m ==> spec_is_numchar(w[j]),
        m == w.len() || !spec_is_numchar(w[m]),
    ensures
        spec_num_end(w, i) == m,
    decreases m - i,
{
    if i < m {
        lemma_num_end_scan(w, i + 1, m);
    }
}

/// Every unit's canonical suffix is non-empty, free of whitespace, and
/// names that unit (and no other) when matched case-insensitively.
proof fn lemma_suffix_named(u: Units)
    ensures
        Units::spec_suffix(u).len() >= 1,
        forall|j: int|
            0 <= j < Units::spec_suffix(u).len() ==> !spec_is_space(
                #[trigger] Units::spec_suffix(u)[j],
            ),
        spec_unit_of(Units::spec_suffix(u)) == Some(u),
{
    reveal_strlit("mil");
    reveal_strlit("mils");
    reveal_strlit("thou");
    reveal_strlit("in");
    reveal_strlit("inch");
    reveal_strlit("inches");
    reveal_strlit("\"");
    reveal_strlit("ft");
    reveal_strlit("foot");
    reveal_strlit("feet");
    reveal_strlit("'");
    reveal_strlit("yd");
    reveal_strlit("yard");
    reveal_strlit("yards");
    reveal_strlit("mm");
    reveal_strlit("milimeter");
    reveal_strlit("milimeters");
    reveal_strlit("cm");
    reveal_strlit("centimeter");
    reveal_strlit("centimeters");
    reveal_strlit("m");
    reveal_strlit("meter");
    reveal_strlit("meters");
    reveal_strlit("M");
    reveal_strlit("ft");
    reveal_strlit("yd");
    let sfx = Units::spec_suffix(u);
    match u {
        Units::Mils => {
            assert(sfx == "mil"@);
            assert(spec_lower(sfx).len() == 3);
            assert forall|j: int| 0 <= j < 3 implies spec_lower(sfx)[j] == "mil"@[j] by {
                assert(spec_lower(sfx)[j] == spec_lower_char(sfx[j]));
            }
            assert(spec_lower(sfx) =~= "mil"@);
            assert(spec_unit_of(sfx) == Some(Units::Mils));
        },
        Units::Inches => {
            assert(sfx == "in"@);
            assert(spec_lower(sfx).len() == 2);
            assert forall|j: int| 0 <= j < 2 implies spec_lower(sfx)[j] == "in"@[j] by {
                assert(spec_lower(sfx)[j] == spec_lower_char(sfx[j]));
            }
            assert(spec_lower(sfx) =~= "in"@);
            assert(spec_unit_of(sfx) == Some(Units::Inches));
        },
        Units::Feet => {
            assert(sfx == "ft"@);
            assert("ft"@ != "in"@) by {
                assert("ft"@[0] == 'f');
                assert("in"@[0] == 'i');
            }

            assert(spec_lower(sfx).len() == 2);
            assert forall|j: int| 0 <= j < 2 implies spec_lower(sfx)[j] == "ft"@[j] by {
                assert(spec_lower(sfx)[j] == spec_lower_char(sfx[j]));
            }
            assert(spec_lower(sfx) =~= "ft"@);
            assert(spec_unit_of(sfx) == Some(Units::Feet));
        },
        Units::Yards => {
            assert(sfx == "yd"@);
            assert("yd"@ != "in"@) by {
                assert("yd"@[0] == 'y');
                assert("in"@[0] == 'i');
            }
            assert("yd"@ != "ft"@) by {
                assert("yd"@[0] == 'y');
                assert("ft"@[0] == 'f');
            }

            assert(spec_lower(sfx).len() == 2);
            assert forall|j: int| 0 <= j < 2 implies spec_lower(sfx)[j] == "yd"@[j] by {
                assert(spec_lower(sfx)[j] == spec_lower_char(sfx[j]));
            }
            assert(spec_lower(sfx) =~= "yd"@);
            assert(spec_unit_of(sfx) == Some(Units::Yards));
        },
        Units::Milimeters => {
            assert(sfx == "mm"@);
            assert("mm"@ != "in"@) by {
                assert("mm"@[0] == 'm');
                assert("in"@[0] == 'i');
            }
            assert("mm"@ != "ft"@) by {
                assert("mm"@[0] == 'm');
                assert("ft"@[0] == 'f');
            }
            assert("mm"@ != "yd"@) by {
                assert("mm"@[0] == 'm');
                assert("yd"@[0] == 'y');
            }

            assert(spec_lower(sfx).len() == 2);
            assert forall|j: int| 0 <= j < 2 implies spec_lower(sfx)[j] == "mm"@[j] by {
                assert(spec_lower(sfx)[j] == spec_lower_char(sfx[j]));
            }
            assert(spec_lower(sfx) =~= "mm"@);
            assert(spec_unit_of(sfx) == Some(Units::Milimeters));
        },
        Units::Centimeters => {
            assert(sfx == "cm"@);
            assert("cm"@ != "in"@) by {
                assert("cm"@[0] == 'c');
                assert("in"@[0] == 'i');
            }
            assert("cm"@ != "ft"@) by {
                assert("cm"@[0] == 'c');
                assert("ft"@[0] == 'f');
            }
            assert("cm"@ != "yd"@) by {
                assert("cm"@[0] == 'c');
                assert("yd"@[0] == 'y');
            }
            assert("cm"@ != "mm"@) by {
                assert("cm"@[0] == 'c');
                assert("mm"@[0] == 'm');
            }

            assert(spec_lower(sfx).len() == 2);
            assert forall|j: int| 0 <= j < 2 implies spec_lower(sfx)[j] == "cm"@[j] by {
                assert(spec_lower(sfx)[j] == spec_lower_char(sfx[j]));
            }
            assert(spec_lower(sfx) =~= "cm"@);
            assert(spec_unit_of(sfx) == Some(Units::Centimeters));
        },
        Units::Meters => {
            assert(sfx == "M"@);
            assert("m"@ != "\""@) by {
                assert("m"@[0] == 'm');
                assert("\""@[0] == '"');
            }
            assert("m"@ != "'"@) by {
                assert("m"@[0] == 'm');
                assert("'"@[0] == '\'');
            }

            assert(spec_lower(sfx).len() == 1);
            assert forall|j: int| 0 <= j < 1 implies spec_lower(sfx)[j] == "m"@[j] by {
                assert(spec_lower(sfx)[j] == spec_lower_char(sfx[j]));
            }
            assert(spec_lower(sfx) =~= "m"@);
            assert(spec_unit_of(sfx) == Some(Units::Meters));
        },
    }
}

/// A string of the shape "digits-and-dots, one space, suffix" splits
/// into exactly that numeric token and that unit token.
proof fn lemma_format_shape(d: Seq<char>, s: Seq<char>)
    requires
        d.len() >= 1,
        forall|j: int| 0 <= j < d.len() ==> spec_is_numchar(d[j]),
        s.len() >= 1,
        forall|j: int| 0 <= j < s.len() ==> !spec_is_space(s[j]),
    ensures
        spec_num_token(d + seq![' '] + s) == d,
        spec_unit_token(d + seq![' '] + s) == s,
{
    let w = d + seq![' '] + s;
    assert(w.len() == d.len() + 1 + s.len());
    assert forall|j: int| 0 <= j < d.len() implies w[j] == d[j] by {}
    assert(w[d.len() as int] == ' ');
    assert forall|j: int| 0 <= j < s.len() implies w[d.len() as int + 1 + j] == s[j] by {}
    // leading whitespace: none, the first character is numeric
    assert(spec_is_numchar(w[0]) && !spec_is_space(w[0]));
    assert(spec_skip_ws(w, 0) == 0);
    // the numeric token runs to the separating space
    assert(!spec_is_numchar(w[d.len() as int]));
    lemma_num_end_scan(w, 0, d.len() as int);
    assert(w.subrange(0, d.len() as int) =~= d);
    // one space, then the unit token to the end of the string
    assert(!spec_is_space(w[d.len() as int + 1]));
    assert(spec_skip_ws(w, d.len() as int) == spec_skip_ws(w, d.len() as int + 1));
    assert(spec_skip_ws(w, d.len() as int + 1) == d.len() as int + 1);
    assert(w.last() == s.last());
    assert(!spec_is_space(w.last()));
    assert(spec_rstrip(w) == w.len());
    assert(w.subrange(d.len() as int + 1, w.len() as int) =~= s);
}

/// The single-character string of one decimal digit.
fn digit_str(d: u64) -> (r: &'static str)
    requires
        d < 10,
    ensures
        r@ == seq![spec_digit_char(d as int)],
{
    if d == 0 {
        proof {
            reveal_strlit("0");
            assert("0"@ =~= seq![spec_digit_char(0int)]);
        }
        "0"
    } else if d == 1 {
        proof {
            reveal_strlit("1");
            assert("1"@ =~= seq![spec_digit_char(1int)]);
        }
        "1"
    } else if d == 2 {
        proof {
            reveal_strlit("2");
            assert("2"@ =~= seq![spec_digit_char(2int)]);
        }
        "2"
    } else if d == 3 {
        proof {
            reveal_strlit("3");
            assert("3"@ =~= seq![spec_digit_char(3int)]);
        }
        "3"
    } else if d == 4 {
        proof {
            reveal_strlit("4");
            assert("4"@ =~= seq![spec_digit_char(4int)]);
        }
        "4"
    } else if d == 5 {
        proof {
            reveal_strlit("5");
            assert("5"@ =~= seq![spec_digit_char(5int)]);
        }
        "5"
    } else if d == 6 {
        proof {
            reveal_strlit("6");
            assert("6"@ =~= seq![spec_digit_char(6int)]);
        }
        "6"
    } else if d == 7 {
        proof {
            reveal_strlit("7");
            assert("7"@ =~= seq![spec_digit_char(7int)]);
        }
        "7"
    } else if d == 8 {
        proof {
            reveal_strlit("8");
            assert("8"@ =~= seq![spec_digit_char(8int)]);
        }
        "8"
    } else {
        proof {
            reveal_strlit("9");
            assert("9"@ =~= seq![spec_digit_char(9int)]);
        }
        "9"
    }
}

/// Append the decimal digits of `n`, most significant first.
fn push_digits(out: &mut String, n: u128)
    ensures
        final(out)@ == old(out)@ + spec_digits(n as int),
    decreases n,
{
    if n >= 10 {
        push_digits(out, n / 10);
        out.append(digit_str((n % 10) as u64));
        proof {
            assert(old(out)@ + spec_digits((n / 10) as int) + seq![
                spec_digit_char((n % 10) as int),
            ] =~= old(out)@ + spec_digits(n as int));
        }
    } else {
        out.append(digit_str(n as u64));
        proof {
            assert(old(out)@ + seq![spec_digit_char(n as int)] =~= old(out)@ + spec_digits(
                n as int,
            ));
        }
    }
}

/// Append exactly `k` decimal digits of `n`, zero-padded on the left.
fn push_padded(out: &mut String, n: u128, k: u64)
    requires
        (n as int) < spec_pow10(k as int),
    ensures
        final(out)@ == old(out)@ + spec_padded(n as int, k as int),
    decreases k,
{
    if k > 0 {
        proof {
            vstd::arithmetic::div_mod::lemma_mod_pos_bound(n as int, 10);
            vstd::arithmetic::div_mod::lemma_div_pos_is_pos(n as int, 10);
            vstd::arithmetic::div_mod::lemma_fundamental_div_mod(n as int, 10);
            assert((n as int) / 10 < spec_pow10(k - 1)) by (nonlinear_arith)
                requires
                    (n as int) < spec_pow10(k as int),
                    spec_pow10(k as int) == 10 * spec_pow10(k - 1),
                    n as int == 10 * ((n as int) / 10) + (n as int) % 10,
                    0 <= (n as int) % 10 < 10,
                    (n as int) / 10 >= 0,
            ;
        }
        push_padded(out, n / 10, k - 1);
        out.append(digit_str((n % 10) as u64));
        proof {
            assert(old(out)@ + spec_padded((n / 10) as int, k - 1) + seq![
                spec_digit_char((n % 10) as int),
            ] =~= old(out)@ + spec_padded(n as int, k as int));
        }
    } else {
        proof {
            assert(old(out)@ + spec_padded(n as int, 0) =~= old(out)@);
        }
    }
}

/// The least power of ten (searched from `k` upward, to at most 19) that
/// the denominator divides; 20 when there is none.
pub open spec fn spec_dec_exp(den: int, k: int) -> int
    decreases 20 - k,
{
    if k >= 20 || k < 0 {
        20
    } else if spec_pow10(k) % den == 0 {
        k
    } else {
        spec_dec_exp(den, k + 1)
    }
}

/// The exact text a quantity formats to: the decimal expansion of the
/// magnitude at the least workable exponent, then one space, then the
/// unit's canonical suffix.
pub open spec fn spec_formatted(v: Ratio, u: Units) -> Seq<char> {
    let e = spec_dec_exp(v.den, 0);
    let scaled = v.num * (spec_pow10(e) / v.den);
    let digits = if e == 0 {
        spec_digits(scaled)
    } else {
        spec_digits(scaled / spec_pow10(e)) + seq!['.'] + spec_padded(
            scaled % spec_pow10(e),
            e,
        )
    };
    digits + seq![' '] + Units::spec_suffix(u)
}

impl Size {
    /// Format the quantity as its exact decimal expansion, a space, and
    /// the unit's canonical suffix.
    ///
    /// Returns `Some` exactly when the magnitude has a finite decimal
    /// expansion of at most 19 fractional digits whose digits fit the
    /// magnitude representation; the output then re-parses to this very
    /// quantity: its numeric token names the magnitude exactly and its
    /// unit token is the suffix, which names the unit.
    #[verifier::loop_isolation(false)]
    pub fn format(&self) -> (r: Option<String>)
        requires
            self.wf(),
        ensures
            r is Some <==> ({
                let e = spec_dec_exp(self.value@.den, 0);
                e <= 19 && self.value@.num * (spec_pow10(e) / self.value@.den) <= u64::MAX
            }),
            match r {
                Some(out) => {
                    &&& out@ == spec_formatted(self.value@, self.units)
                    &&& spec_num_ok(spec_num_token(out@))
                    &&& spec_number_fits(spec_num_token(out@))
                    &&& ratio_eq(spec_number(spec_num_token(out@)), self.value@)
                    &&& spec_unit_token(out@) == Units::spec_suffix(self.units)
                    &&& spec_unit_of(spec_unit_token(out@)) == Some(self.units)
                },
                None => true,
            },
    {
        let num = self.value.num;
        let den = self.value.den;
        let ghost min_e = spec_dec_exp(den as int, 0);
        proof {
            assert(spec_pow10(19) == 10000000000000000000) by {
                reveal_with_fuel(spec_pow10, 21);
            }
        }
        let mut k: u64 = 0;
        let mut p: u64 = 1;
        while p % den != 0
            invariant
                0 <= k <= 19,
                p as int == spec_pow10(k as int),
                spec_dec_exp(den as int, 0) == spec_dec_exp(den as int, k as int),
            decreases 19 - k,
        {
            if k == 19 {
                proof {
                    assert(spec_dec_exp(den as int, 19) == spec_dec_exp(den as int, 20));
                }
                return None;
            }
            proof {
                lemma_pow10_mono(k as int + 1, 19);
            }
            k += 1;
            p = p * 10;
        }
        assert(min_e == k as int);
        let q = p / den;
        proof {
            lemma_u64_mul_fits(num as int, q as int);
        }
        let scaled = (num as u128) * (q as u128);
        if scaled > u64::MAX as u128 {
            return None;
        }
        // scaled / 10^k equals the magnitude exactly
        proof {
            vstd::arithmetic::div_mod::lemma_fundamental_div_mod(p as int, den as int);
            assert(scaled as int * den as int == num as int * p as int) by (nonlinear_arith)
                requires
                    scaled as int == num as int * (p as int / den as int),
                    p as int == den as int * (p as int / den as int) + p as int % den as int,
                    p as int % den as int == 0,
            ;
        }
        let pp = p as u128;
        proof {
            lemma_pow10_mono(0, k as int);
            vstd::arithmetic::div_mod::lemma_mod_pos_bound(scaled as int, pp as int);
            vstd::arithmetic::div_mod::lemma_div_pos_is_pos(scaled as int, pp as int);
        }
        let ipart = scaled / pp;
        let fpart = scaled % pp;
        let mut out = String::new();
        push_digits(&mut out, ipart);
        let ghost d_int = spec_digits(ipart as int);
        proof {
            lemma_digits_props(ipart as int);
        }
        let ghost d_all = if k > 0 {
            d_int + seq!['.'] + spec_padded(fpart as int, k as int)
        } else {
            d_int
        };
        if k > 0 {
            proof {
                reveal_strlit(".");
            }
            out.append(".");
            push_padded(&mut out, fpart, k);
            proof {
                lemma_padded_props(fpart as int, k as int);
                assert(out@ =~= d_all);
            }
        } else {
            proof {
                assert(out@ =~= d_all);
            }
        }
        // the numeric token is well-formed and names scaled / 10^k
        proof {
            let fp = spec_padded(fpart as int, k as int);
            if k > 0 {
                lemma_padded_props(fpart as int, k as int);
                let dd = d_int + seq!['.'];
                lemma_token_val_dot(d_int);
                assert(d_int.push('.') =~= dd);
                lemma_token_val_concat_digits(dd, fp);
                lemma_frac_len_after_dot(dd, fp);
                lemma_dots_concat(dd, fp);
                lemma_dots_concat(d_int, seq!['.']);
                assert(spec_dots(seq!['.']) == 1) by {
                    let dot = seq!['.'];
                    assert(dot.len() == 1);
                    assert(dot.last() == '.');
                    assert(dot.drop_last() =~= Seq::<char>::empty());
                    assert(spec_dots(dot) == spec_dots(dot.drop_last()) + 1);
                }
                assert(d_all =~= dd + fp);
                assert(spec_token_val(d_all) == spec_token_val(dd) * spec_pow10(k as int)
                    + spec_token_val(fp));
                vstd::arithmetic::div_mod::lemma_fundamental_div_mod(scaled as int, pp as int);
                assert(spec_token_val(d_all) == scaled as int) by (nonlinear_arith)
                    requires
                        spec_token_val(d_all) == spec_token_val(dd) * spec_pow10(k as int)
                            + spec_token_val(fp),
                        spec_token_val(dd) == ipart as int,
                        spec_token_val(fp) == fpart as int,
                        scaled as int == pp as int * (ipart as int) + fpart as int,
                        pp as int == spec_pow10(k as int),
                ;
                assert(spec_frac_len(d_all) == k as int);
                assert forall|j: int| 0 <= j < d_all.len() implies spec_is_numchar(
                    d_all[j],
                ) by {
                    if j < d_int.len() {
                        assert(d_all[j] == d_int[j]);
                    } else if j == d_int.len() {
                        assert(d_all[j] == '.');
                    } else {
                        assert(d_all[j] == fp[j - d_int.len() - 1]);
                    }
                }
                assert(spec_has_digit(d_all)) by {
                    assert(d_all[0] == d_int[0]);
                    assert(spec_is_digit(d_all[0]));
                }
            } else {
                lemma_no_dot_frac_zero(d_all);
                vstd::arithmetic::div_mod::lemma_fundamental_div_mod(scaled as int, pp as int);
                vstd::arithmetic::div_mod::lemma_mod_pos_bound(scaled as int, pp as int);
                assert(pp == 1);
                assert(spec_token_val(d_all) == scaled as int);
                assert(spec_has_digit(d_all)) by {
                    assert(spec_is_digit(d_all[0]));
                }
            }
            assert(spec_num_ok(d_all));
            lemma_pow10_mono(0, k as int);
            assert(spec_number_fits(d_all));
            // the token's value is the magnitude
            assert(spec_number(d_all).num * self.value@.den == self.value@.num * spec_number(
                d_all,
            ).den) by (nonlinear_arith)
                requires
                    spec_number(d_all).num == scaled as int,
                    spec_number(d_all).den == spec_pow10(spec_frac_len(d_all)),
                    spec_pow10(spec_frac_len(d_all)) == p as int,
                    scaled as int * den as int == num as int * p as int,
                    self.value@.num == num as int,
                    self.value@.den == den as int,
            ;
        }
        proof {
            reveal_strlit(" ");
        }
        out.append(" ");
        out.append(self.units.unit_suffix());
        proof {
            lemma_suffix_named(self.units);
            let sfx = Units::spec_suffix(self.units);
            assert(out@ =~= d_all + seq![' '] + sfx);
            lemma_format_shape(d_all, sfx);
            if k == 0 {
                vstd::arithmetic::div_mod::lemma_div_basics(scaled as int);
            }
            assert(out@ =~= spec_formatted(self.value@, self.units));
        }
        Some(out)
    }
}

/// Parse/format inverse law, checked end to end: whenever a quantity
/// formats at all, parsing the formatted string cannot fail and returns
/// a quantity with the same unit and the same exact magnitude.
pub fn format_round_trip(q: &Size) -> (r: Option<Size>)
    requires
        q.wf(),
    ensures
        match r {
            Some(p) => p.wf() && p.units == q.units && ratio_eq(p.value@, q.value@),
            None => true,
        },
        r is Some <==> ({
            let e = spec_dec_exp(q.value@.den, 0);
            e <= 19 && q.value@.num * (spec_pow10(e) / q.value@.den) <= u64::MAX
        }),
{
    match q.format() {
        Some(text) => match Size::parse(text.as_str()) {
            Ok(p) => {
                proof {
                    let t = spec_num_token(text@);
                    crate::parse::lemma_frac_len_nonneg(t);
                    lemma_pow10_mono(0, spec_frac_len(t));
                    crate::frac::lemma_ratio_eq_trans(p.value@, spec_number(t), q.value@);
                }
                Some(p)
            },
            Err(_) => {
                // unreachable: the formatter's contract guarantees a good
                // numeric token and a recognized unit token
                proof {
                    assert(false);
                }
                None
            },
        },
        None => None,
    }
}

} // verus!
