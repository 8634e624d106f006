//! Parsing free-form text into quantities.
//!
//! The accepted shape is: optional whitespace, a numeric literal (digits
//! with at most one decimal point, no sign, no exponent), optional
//! whitespace, then a unit token that must match one unit's synonym set
//! case-insensitively as a whole, with trailing whitespace ignored.
//! Failures are typed: a malformed or oversized number, or an unknown
//! unit token carrying the token itself.

use vstd::prelude::*;

use crate::frac::{Frac, Ratio, ratio_eq, spec_reduced};
use crate::units::{InvalidUnits, Size, Units};

verus! {

/// A typed parse failure: the expected numeric literal was absent,
/// malformed or too large, or the unit token matched no known synonym.
#[derive(Debug)]
pub enum ParseError {
    InvalidUnits(InvalidUnits),
    MalformedNumber,
}

/// Whitespace accepted around tokens.
pub open spec fn spec_is_space(c: char) -> bool {
    c == ' ' || c == '\t'
}

/// A decimal digit.
pub open spec fn spec_is_digit(c: char) -> bool {
    '0' <= c && c <= '9'
}

/// A character that may appear in a numeric literal.
pub open spec fn spec_is_numchar(c: char) -> bool {
    spec_is_digit(c) || c == '.'
}

/// The numeric value of a digit character (0 for non-digits).
pub open spec fn spec_digit_val(c: char) -> int {
    if spec_is_digit(c) {
        c as int - '0' as int
    } else {
        0
    }
}

/// First position at or after `i` holding a non-space character.
pub open spec fn spec_skip_ws(s: Seq<char>, i: int) -> int
    decreases s.len() - i,
{
    if i < 0 {
        0
    } else if i >= s.len() || !spec_is_space(s[i]) {
        i
    } else {
        spec_skip_ws(s, i + 1)
    }
}

/// First position at or after `i` holding a character that cannot be part
/// of a numeric literal.
pub open spec fn spec_num_end(s: Seq<char>, i: int) -> int
    decreases s.len() - i,
{
    if i < 0 {
        0
    } else if i >= s.len() || !spec_is_numchar(s[i]) {
        i
    } else {
        spec_num_end(s, i + 1)
    }
}

/// The end of `s` with trailing whitespace removed.
pub open spec fn spec_rstrip(s: Seq<char>) -> int
    decreases s.len(),
{
    if s.len() == 0 || !spec_is_space(s.last()) {
        s.len() as int
    } else {
        spec_rstrip(s.drop_last())
    }
}

/// Scanning stays within bounds and skips exactly the matching characters.
pub proof fn lemma_skip_ws_range(s: Seq<char>, i: int)
    requires
        0 <= i <= s.len(),
    ensures
        i <= spec_skip_ws(s, i) <= s.len(),
        forall|j: int| i <= j < spec_skip_ws(s, i) ==> spec_is_space(s[j]),
        spec_skip_ws(s, i) < s.len() ==> !spec_is_space(s[spec_skip_ws(s, i)]),
    decreases s.len() - i,
{
    if i < s.len() && spec_is_space(s[i]) {
        lemma_skip_ws_range(s, i + 1);
    }
}

/// Scanning stays within bounds and takes exactly the numeric characters.
pub proof fn lemma_num_end_range(s: Seq<char>, i: int)
    requires
        0 <= i <= s.len(),
    ensures
        i <= spec_num_end(s, i) <= s.len(),
        forall|j: int| i <= j < spec_num_end(s, i) ==> spec_is_numchar(s[j]),
        spec_num_end(s, i) < s.len() ==> !spec_is_numchar(s[spec_num_end(s, i)]),
    decreases s.len() - i,
{
    if i < s.len() && spec_is_numchar(s[i]) {
        lemma_num_end_range(s, i + 1);
    }
}

/// Number of decimal points in a token.
pub open spec fn spec_dots(t: Seq<char>) -> int
    decreases t.len(),
{
    if t.len() == 0 {
        0
    } else {
        spec_dots(t.drop_last()) + if t.last() == '.' {
            1int
        } else {
            0int
        }
    }
}

/// The token contains a decimal point.
pub open spec fn spec_has_dot(t: Seq<char>) -> bool {
    exists|i: int| 0 <= i < t.len() && t[i] == '.'
}

/// The token contains a digit.
pub open spec fn spec_has_digit(t: Seq<char>) -> bool {
    exists|i: int| 0 <= i < t.len() && spec_is_digit(t[i])
}

/// The integer named by the digits of the token, decimal point ignored:
/// "6.25" names 625.
pub open spec fn spec_token_val(t: Seq<char>) -> int
    decreases t.len(),
{
    if t.len() == 0 {
        0
    } else if t.last() == '.' {
        spec_token_val(t.drop_last())
    } else {
        spec_token_val(t.drop_last()) * 10 + spec_digit_val(t.last())
    }
}

/// How many digits follow the decimal point (0 when there is none).
pub open spec fn spec_frac_len(t: Seq<char>) -> int
    decreases t.len(),
{
    if t.len() == 0 {
        0
    } else if t.last() == '.' {
        0
    } else if spec_has_dot(t.drop_last()) {
        spec_frac_len(t.drop_last()) + 1
    } else {
        0
    }
}

/// Ten to the `n`.
pub open spec fn spec_pow10(n: int) -> int
    decreases n,
{
    if n <= 0 {
        1
    } else {
        10 * spec_pow10(n - 1)
    }
}

/// A well-formed numeric literal: non-empty, made of digits and at most
/// one decimal point, with at least one digit.
pub open spec fn spec_num_ok(t: Seq<char>) -> bool {
    &&& t.len() >= 1
    &&& forall|i: int| 0 <= i < t.len() ==> spec_is_numchar(t[i])
    &&& spec_dots(t) <= 1
    &&& spec_has_digit(t)
}

/// The literal's exact value fits the magnitude representation.
pub open spec fn spec_number_fits(t: Seq<char>) -> bool {
    spec_token_val(t) <= u64::MAX && spec_pow10(spec_frac_len(t)) <= u64::MAX
}

/// The exact rational value of a numeric literal.
pub open spec fn spec_number(t: Seq<char>) -> Ratio {
    Ratio { num: spec_token_val(t), den: spec_pow10(spec_frac_len(t)) }
}

/// Powers of ten are positive and monotone.
pub proof fn lemma_pow10_mono(i: int, j: int)
    requires
        i <= j,
    ensures
        1 <= spec_pow10(i) <= spec_pow10(j),
    decreases j - i + if j >= 0 { j } else { 0 },
{
    if j <= 0 {
    } else if i == j {
        lemma_pow10_mono(i - 1, j - 1);
    } else {
        lemma_pow10_mono(i, j - 1);
    }
}

/// Token values are non-negative.
pub proof fn lemma_token_val_nonneg(t: Seq<char>)
    ensures
        spec_token_val(t) >= 0,
    decreases t.len(),
{
    if t.len() > 0 {
        lemma_token_val_nonneg(t.drop_last());
    }
}

/// Extending a token never shrinks its digit value.
pub proof fn lemma_token_val_mono(t: Seq<char>, i: int)
    requires
        0 <= i <= t.len(),
    ensures
        spec_token_val(t.take(i)) <= spec_token_val(t),
    decreases t.len() - i,
{
    if i < t.len() {
        lemma_token_val_mono(t, i + 1);
        let p = t.take(i);
        let q = t.take(i + 1);
        assert(q.drop_last() =~= p);
        assert(q.last() == t[i]);
        lemma_token_val_nonneg(p);
    } else {
        assert(t.take(i) =~= t);
    }
}

/// A token without a decimal point has no fractional digits.
pub proof fn lemma_no_dot_frac_zero(t: Seq<char>)
    requires
        !spec_has_dot(t),
    ensures
        spec_frac_len(t) == 0,
    decreases t.len(),
{
    if t.len() > 0 {
        assert(t.last() != '.');
    }
}

/// Fractional digits never vanish as a single-dot token grows.
pub proof fn lemma_frac_len_mono(t: Seq<char>, i: int)
    requires
        0 <= i <= t.len(),
        spec_dots(t) <= 1,
    ensures
        0 <= spec_frac_len(t.take(i)) <= spec_frac_len(t),
    decreases t.len() - i,
{
    lemma_frac_len_nonneg(t.take(i));
    if i < t.len() {
        lemma_frac_len_mono(t, i + 1);
        let p = t.take(i);
        let q = t.take(i + 1);
        assert(q.drop_last() =~= p);
        assert(q.last() == t[i]);
        lemma_dots_of_take(t, i + 1);
        if t[i] == '.' {
            // the one dot sits at position i, so the prefix has none
            lemma_dots_nonneg(p);
            assert(spec_dots(q) == spec_dots(p) + 1);
            lemma_dots_zero_no_dot(p);
            lemma_no_dot_frac_zero(p);
        } else {
            if spec_has_dot(p) {
            } else {
                lemma_no_dot_frac_zero(p);
            }
        }
    } else {
        assert(t.take(i) =~= t);
    }
}

/// Fractional digit counts are non-negative.
pub proof fn lemma_frac_len_nonneg(t: Seq<char>)
    ensures
        spec_frac_len(t) >= 0,
    decreases t.len(),
{
    if t.len() > 0 && t.last() != '.' && spec_has_dot(t.drop_last()) {
        lemma_frac_len_nonneg(t.drop_last());
    }
}

/// A prefix has no more dots than the whole token.
pub proof fn lemma_dots_of_take(t: Seq<char>, i: int)
    requires
        0 <= i <= t.len(),
    ensures
        0 <= spec_dots(t.take(i)) <= spec_dots(t),
    decreases t.len() - i,
{
    lemma_dots_nonneg(t.take(i));
    if i < t.len() {
        lemma_dots_of_take(t, i + 1);
        let q = t.take(i + 1);
        assert(q.drop_last() =~= t.take(i));
        assert(q.last() == t[i]);
    } else {
        assert(t.take(i) =~= t);
    }
}

/// Dot counts are non-negative.
pub proof fn lemma_dots_nonneg(t: Seq<char>)
    ensures
        spec_dots(t) >= 0,
    decreases t.len(),
{
    if t.len() > 0 {
        lemma_dots_nonneg(t.drop_last());
    }
}

/// A token with no dots counted has no dot at all.
pub proof fn lemma_dots_zero_no_dot(t: Seq<char>)
    requires
        spec_dots(t) == 0,
    ensures
        !spec_has_dot(t),
    decreases t.len(),
{
    if t.len() > 0 {
        lemma_dots_nonneg(t.drop_last());
        lemma_dots_zero_no_dot(t.drop_last());
        assert forall|i: int| 0 <= i < t.len() implies t[i] != '.' by {
            if i < t.len() - 1 {
                assert(t.drop_last()[i] == t[i]);
            }
        }
    }
}

/// Whitespace is accepted around tokens.
fn is_space(c: char) -> (r: bool)
    ensures
        r == spec_is_space(c),
{
    c == ' ' || c == '\t'
}

/// A decimal digit.
fn is_digit(c: char) -> (r: bool)
    ensures
        r == spec_is_digit(c),
{
    c >= '0' && c <= '9'
}

/// A character of a numeric literal.
fn is_numchar(c: char) -> (r: bool)
    ensures
        r == spec_is_numchar(c),
{
    is_digit(c) || c == '.'
}

/// The numeric value of a digit character.
fn digit_val(c: char) -> (r: u64)
    requires
        spec_is_digit(c),
    ensures
        r as int == spec_digit_val(c),
{
    match c {
        '0' => 0,
        '1' => 1,
        '2' => 2,
        '3' => 3,
        '4' => 4,
        '5' => 5,
        '6' => 6,
        '7' => 7,
        '8' => 8,
        _ => 9,
    }
}

/// Parse the numeric token `s[start..end]`, whose characters are all
/// digits or dots, into its exact rational value. Returns `None` exactly
/// when the token is malformed or its value does not fit.
fn parse_num_token(s: &str, start: usize, end: usize) -> (r: Option<Frac>)
    requires
        start <= end <= s@.len(),
        forall|j: int| start <= j < end ==> spec_is_numchar(s@[j]),
    ensures
        ({
            let t = s@.subrange(start as int, end as int);
            &&& (r is Some <==> spec_num_ok(t) && spec_number_fits(t))
            &&& match r {
                Some(f) => f.wf() && f@ == spec_reduced(spec_number(t)) && ratio_eq(
                    f@,
                    spec_number(t),
                ),
                None => true,
            }
        }),
{
    let ghost t = s@.subrange(start as int, end as int);
    if start == end {
        return None;
    }
    // First pass: count decimal points, look for a digit.
    let mut dots: u64 = 0;
    let mut saw_digit = false;
    let mut j = start;
    while j < end
        invariant
            start <= j <= end <= s@.len(),
            t == s@.subrange(start as int, end as int),
            forall|k: int| start <= k < end ==> spec_is_numchar(s@[k]),
            dots as int == spec_dots(t.take(j - start)),
            dots <= j - start,
            saw_digit == spec_has_digit(t.take(j - start)),
        decreases end - j,
    {
        let c = s.get_char(j);
        proof {
            let p = t.take(j - start);
            let q = t.take(j - start + 1);
            assert(q.drop_last() =~= p);
            assert(q.last() == t[j - start]);
            assert(t[j - start] == s@[j as int]);
            if spec_is_digit(c) {
                assert(q[j - start] == c);
            }
            assert forall|i: int| 0 <= i < p.len() implies q[i] == p[i] by {}
        }
        if c == '.' {
            dots += 1;
        } else {
            saw_digit = true;
        }
        j += 1;
    }
    proof {
        assert(t.take(end - start) =~= t);
    }
    if dots > 1 || !saw_digit {
        return None;
    }
    // The token is well-formed; second pass computes its exact value.
    assert(spec_num_ok(t));
    let mut num: u64 = 0;
    let mut den: u64 = 1;
    let mut seen_dot = false;
    let mut j = start;
    while j < end
        invariant
            start <= j <= end <= s@.len(),
            t == s@.subrange(start as int, end as int),
            forall|k: int| start <= k < end ==> spec_is_numchar(s@[k]),
            spec_dots(t) <= 1,
            num as int == spec_token_val(t.take(j - start)),
            seen_dot == spec_has_dot(t.take(j - start)),
            den as int == spec_pow10(spec_frac_len(t.take(j - start))),
        decreases end - j,
    {
        let c = s.get_char(j);
        proof {
            let p = t.take(j - start);
            let q = t.take(j - start + 1);
            assert(q.drop_last() =~= p);
            assert(q.last() == t[j - start]);
            assert(t[j - start] == s@[j as int]);
            if c == '.' {
                assert(q[j - start] == '.');
            }
            assert forall|i: int| 0 <= i < p.len() implies q[i] == p[i] by {}
            if spec_has_dot(p) {
                let w = choose|i: int| 0 <= i < p.len() && p[i] == '.';
                assert(q[w] == '.');
            }
            lemma_no_dot_frac_zero_or(p);
            lemma_frac_len_nonneg(p);
            if c == '.' {
                // with at most one dot in the token, this is the first
                lemma_dots_of_take(t, j - start + 1);
                lemma_dots_nonneg(p);
                assert(spec_dots(q) == spec_dots(p) + 1);
                lemma_dots_zero_no_dot(p);
            }
        }
        if c == '.' {
            seen_dot = true;
        } else {
            let d = digit_val(c);
            if num > (u64::MAX - d) / 10 {
                // the full token's value can only be larger still
                proof {
                    lemma_abort_num_too_big(t, j - start + 1, num as int, d as int);
                }
                return None;
            }
            num = num * 10 + d;
            if seen_dot {
                if den > u64::MAX / 10 {
                    proof {
                        lemma_abort_den_too_big(t, j - start + 1, den as int);
                    }
                    return None;
                }
                den = den * 10;
            }
        }
        j += 1;
    }
    proof {
        assert(t.take(end - start) =~= t);
        lemma_frac_len_nonneg(t);
        lemma_pow10_mono(0, spec_frac_len(t));
    }
    Some(Frac::new(num, den))
}

/// A dot-free token has no fractional digits (helper form usable in
/// either case).
proof fn lemma_no_dot_frac_zero_or(t: Seq<char>)
    ensures
        !spec_has_dot(t) ==> spec_frac_len(t) == 0,
{
    if !spec_has_dot(t) {
        lemma_no_dot_frac_zero(t);
    }
}

/// If one more digit overflows the numerator, the whole token overflows.
proof fn lemma_abort_num_too_big(t: Seq<char>, i: int, num: int, d: int)
    requires
        0 < i <= t.len(),
        t[i - 1] != '.',
        d == spec_digit_val(t[i - 1]),
        num == spec_token_val(t.take(i - 1)),
        0 <= d <= 9,
        num * 10 + d > u64::MAX,
    ensures
        spec_token_val(t) > u64::MAX,
{
    let p = t.take(i - 1);
    let q = t.take(i);
    assert(q.drop_last() =~= p);
    assert(q.last() == t[i - 1]);
    assert(spec_token_val(q) == num * 10 + d);
    lemma_token_val_mono(t, i);
}

/// If one more fractional digit overflows the denominator, the whole
/// token's denominator overflows.
proof fn lemma_abort_den_too_big(t: Seq<char>, i: int, den: int)
    requires
        0 < i <= t.len(),
        t[i - 1] != '.',
        spec_has_dot(t.take(i - 1)),
        spec_dots(t) <= 1,
        den == spec_pow10(spec_frac_len(t.take(i - 1))),
        den * 10 > u64::MAX,
    ensures
        spec_pow10(spec_frac_len(t)) > u64::MAX,
{
    let p = t.take(i - 1);
    let q = t.take(i);
    assert(q.drop_last() =~= p);
    assert(q.last() == t[i - 1]);
    assert(spec_frac_len(q) == spec_frac_len(p) + 1);
    assert(spec_pow10(spec_frac_len(q)) == den * 10);
    lemma_frac_len_mono(t, i);
    lemma_pow10_mono(spec_frac_len(q), spec_frac_len(t));
}

/// ASCII lowercasing of a single character; other characters unchanged.
pub open spec fn spec_lower_char(c: char) -> char {
    if 'A' <= c && c <= 'Z' {
        ((c as u32) + 32) as char
    } else {
        c
    }
}

/// ASCII lowercasing, character by character.
pub open spec fn spec_lower(t: Seq<char>) -> Seq<char> {
    t.map_values(|c: char| spec_lower_char(c))
}

/// Which unit a token names, matched case-insensitively against every
/// unit's synonym set as a whole token.
pub open spec fn spec_unit_of(t: Seq<char>) -> Option<Units> {
    let l = spec_lower(t);
    if l == "mil"@ || l == "mils"@ || l == "thou"@ {
        Some(Units::Mils)
    } else if l == "in"@ || l == "inch"@ || l == "inches"@ || l == "\""@ {
        Some(Units::Inches)
    } else if l == "ft"@ || l == "foot"@ || l == "feet"@ || l == "'"@ {
        Some(Units::Feet)
    } else if l == "yd"@ || l == "yard"@ || l == "yards"@ {
        Some(Units::Yards)
    } else if l == "mm"@ || l == "milimeter"@ || l == "milimeters"@ {
        Some(Units::Milimeters)
    } else if l == "cm"@ || l == "centimeter"@ || l == "centimeters"@ {
        Some(Units::Centimeters)
    } else if l == "m"@ || l == "meter"@ || l == "meters"@ {
        Some(Units::Meters)
    } else {
        None
    }
}

/// ASCII lowercasing of a single character.
fn lower_char(c: char) -> (r: char)
    ensures
        r == spec_lower_char(c),
{
    if c >= 'A' && c <= 'Z' {
        ((c as u8) + 32) as char
    } else {
        c
    }
}

/// Does the region `s[k..e]`, lowercased, spell exactly `lit`?
fn region_matches(s: &str, k: usize, e: usize, lit: &str) -> (b: bool)
    requires
        k <= e <= s@.len(),
    ensures
        b == (spec_lower(s@.subrange(k as int, e as int)) == lit@),
{
    let ghost t = s@.subrange(k as int, e as int);
    let n = lit.unicode_len();
    if e - k != n {
        proof {
            assert(spec_lower(t).len() == t.len());
        }
        return false;
    }
    let mut j: usize = 0;
    while j < n
        invariant
            0 <= j <= n,
            k <= e <= s@.len(),
            e - k == n,
            n == lit@.len(),
            t == s@.subrange(k as int, e as int),
            forall|i: int| 0 <= i < j ==> spec_lower_char(t[i]) == lit@[i],
        decreases n - j,
    {
        let c = lower_char(s.get_char(k + j));
        let l = lit.get_char(j);
        proof {
            assert(t[j as int] == s@[k + j]);
            assert(spec_lower(t)[j as int] == spec_lower_char(t[j as int]));
        }
        if c != l {
            return false;
        }
        j += 1;
    }
    proof {
        assert(spec_lower(t) =~= lit@);
    }
    true
}

/// Match the token `s[k..e]` against every synonym set.
fn unit_token_match(s: &str, k: usize, e: usize) -> (r: Option<Units>)
    requires
        k <= e <= s@.len(),
    ensures
        r == spec_unit_of(s@.subrange(k as int, e as int)),
{
    if region_matches(s, k, e, "mil") || region_matches(s, k, e, "mils")
        || region_matches(s, k, e, "thou") {
        Some(Units::Mils)
    } else if region_matches(s, k, e, "in") || region_matches(s, k, e, "inch")
        || region_matches(s, k, e, "inches") || region_matches(s, k, e, "\"") {
        Some(Units::Inches)
    } else if region_matches(s, k, e, "ft") || region_matches(s, k, e, "foot")
        || region_matches(s, k, e, "feet") || region_matches(s, k, e, "'") {
        Some(Units::Feet)
    } else if region_matches(s, k, e, "yd") || region_matches(s, k, e, "yard")
        || region_matches(s, k, e, "yards") {
        Some(Units::Yards)
    } else if region_matches(s, k, e, "mm") || region_matches(s, k, e, "milimeter")
        || region_matches(s, k, e, "milimeters") {
        Some(Units::Milimeters)
    } else if region_matches(s, k, e, "cm") || region_matches(s, k, e, "centimeter")
        || region_matches(s, k, e, "centimeters") {
        Some(Units::Centimeters)
    } else if region_matches(s, k, e, "m") || region_matches(s, k, e, "meter")
        || region_matches(s, k, e, "meters") {
        Some(Units::Meters)
    } else {
        None
    }
}

/// Skip whitespace starting at `i`.
fn skip_spaces(s: &str, i: usize) -> (j: usize)
    requires
        i <= s@.len(),
    ensures
        j as int == spec_skip_ws(s@, i as int),
        i <= j <= s@.len(),
{
    proof {
        lemma_skip_ws_range(s@, i as int);
    }
    let n = s.unicode_len();
    let mut j = i;
    while j < n && is_space(s.get_char(j))
        invariant
            i <= j <= n,
            n == s@.len(),
            spec_skip_ws(s@, i as int) == spec_skip_ws(s@, j as int),
        decreases n - j,
    {
        j += 1;
    }
    j
}

/// Find the end of the numeric token starting at `i`.
fn scan_num_end(s: &str, i: usize) -> (j: usize)
    requires
        i <= s@.len(),
    ensures
        j as int == spec_num_end(s@, i as int),
        i <= j <= s@.len(),
{
    proof {
        lemma_num_end_range(s@, i as int);
    }
    let n = s.unicode_len();
    let mut j = i;
    while j < n && is_numchar(s.get_char(j))
        invariant
            i <= j <= n,
            n == s@.len(),
            spec_num_end(s@, i as int) == spec_num_end(s@, j as int),
        decreases n - j,
    {
        j += 1;
    }
    j
}

/// Find the end of `s` with trailing whitespace removed.
fn rstrip(s: &str) -> (e: usize)
    ensures
        e as int == spec_rstrip(s@),
        e <= s@.len(),
{
    let n = s.unicode_len();
    let mut e = n;
    proof {
        assert(s@.take(n as int) =~= s@);
    }
    while e > 0 && is_space(s.get_char(e - 1))
        invariant
            0 <= e <= n,
            n == s@.len(),
            spec_rstrip(s@) == spec_rstrip(s@.take(e as int)),
        decreases e,
    {
        proof {
            assert(s@.take(e as int).drop_last() =~= s@.take(e - 1));
            assert(s@.take(e as int).last() == s@[e - 1]);
        }
        e -= 1;
    }
    proof {
        if e > 0 {
            assert(s@.take(e as int).last() == s@[e - 1]);
        }
        assert(spec_rstrip(s@.take(e as int)) == e);
    }
    e
}

/// The surrounding-whitespace-trimmed view of a string.
pub open spec fn spec_trimmed(s: Seq<char>) -> Seq<char> {
    let a = spec_skip_ws(s, 0);
    let b = spec_rstrip(s);
    if a <= b {
        s.subrange(a, b)
    } else {
        Seq::empty()
    }
}

/// The unit token of a quantity string: everything after the numeric
/// literal, with surrounding whitespace removed.
pub open spec fn spec_unit_token(s: Seq<char>) -> Seq<char> {
    let e = spec_num_end(s, spec_skip_ws(s, 0));
    let k = spec_skip_ws(s, e);
    let b = spec_rstrip(s);
    if k <= b {
        s.subrange(k, b)
    } else {
        Seq::empty()
    }
}

/// The numeric token of a quantity string: the longest run of digits and
/// dots after leading whitespace.
pub open spec fn spec_num_token(s: Seq<char>) -> Seq<char> {
    let i = spec_skip_ws(s, 0);
    s.subrange(i, spec_num_end(s, i))
}

/// Everything past the stripped end is whitespace.
pub proof fn lemma_rstrip_range(s: Seq<char>)
    ensures
        0 <= spec_rstrip(s) <= s.len(),
        forall|j: int| spec_rstrip(s) <= j < s.len() ==> spec_is_space(s[j]),
    decreases s.len(),
{
    if s.len() > 0 && spec_is_space(s.last()) {
        lemma_rstrip_range(s.drop_last());
        assert forall|j: int| spec_rstrip(s) <= j < s.len() implies spec_is_space(s[j]) by {
            if j < s.len() - 1 {
                assert(s.drop_last()[j] == s[j]);
            }
        }
    }
}

/// Parse a bare decimal literal: the string, trimmed of surrounding
/// whitespace, must be a well-formed numeric literal whose exact value
/// fits the magnitude representation.
pub fn parse_number(s: &str) -> (r: Result<Frac, ParseError>)
    ensures
        ({
            let t = spec_trimmed(s@);
            &&& (r is Ok <==> spec_num_ok(t) && spec_number_fits(t))
            &&& match r {
                Ok(f) => f.wf() && f@ == spec_reduced(spec_number(t)) && ratio_eq(
                    f@,
                    spec_number(t),
                ),
                Err(e) => e matches ParseError::MalformedNumber,
            }
        }),
{
    let ghost tr = spec_trimmed(s@);
    let i0 = skip_spaces(s, 0);
    let e = scan_num_end(s, i0);
    let b = rstrip(s);
    proof {
        lemma_skip_ws_range(s@, 0);
        lemma_num_end_range(s@, i0 as int);
        lemma_rstrip_range(s@);
    }
    if e == b && i0 < e {
        proof {
            assert(tr =~= s@.subrange(i0 as int, e as int));
        }
        match parse_num_token(s, i0, e) {
            Some(f) => Ok(f),
            None => Err(ParseError::MalformedNumber),
        }
    } else {
        proof {
            if i0 as int > spec_rstrip(s@) {
                // all-whitespace input: the trimmed text is empty
            } else {
                if e < b {
                    // the character ending the numeric token sits inside
                    // the trimmed text and is neither digit nor dot
                    assert(e < s@.len());
                    assert(!spec_is_numchar(s@[e as int]));
                    assert(e >= i0);
                    assert(tr[e - i0] == s@[e as int]);
                    assert(!spec_num_ok(tr));
                } else if e > b {
                    // numeric characters are not whitespace, so the token
                    // cannot outrun the stripped end
                    if i0 < e {
                        assert(spec_is_numchar(s@[b as int]));
                        assert(spec_is_space(s@[b as int]));
                        assert(false);
                    } else {
                        assert(tr =~= s@.subrange(i0 as int, b as int));
                        assert(tr.len() == 0);
                    }
                } else {
                    // e == b and i0 == e: the trimmed text is empty
                    assert(tr =~= s@.subrange(i0 as int, b as int));
                    assert(tr.len() == 0);
                }
            }
        }
        Err(ParseError::MalformedNumber)
    }
}

/// The empty token names no unit.
pub proof fn lemma_unit_of_empty()
    ensures
        spec_unit_of(Seq::empty()) is None,
{
    reveal_strlit("mil");
    reveal_strlit("mils");
    reveal_strlit("thou");
    reveal_strlit("in");
    reveal_strlit("inch");
    reveal_strlit("inches");
    reveal_strlit("\"");
    reveal_strlit("ft");
    reveal_strlit("foot");
    reveal_strlit("feet");
    reveal_strlit("'");
    reveal_strlit("yd");
    reveal_strlit("yard");
    reveal_strlit("yards");
    reveal_strlit("mm");
    reveal_strlit("milimeter");
    reveal_strlit("milimeters");
    reveal_strlit("cm");
    reveal_strlit("centimeter");
    reveal_strlit("centimeters");
    reveal_strlit("m");
    reveal_strlit("meter");
    reveal_strlit("meters");
    assert(spec_lower(Seq::<char>::empty()).len() == 0);
}

impl Units {
    /// Name a unit from text: the string, trimmed of surrounding
    /// whitespace, must match one unit's synonym set case-insensitively.
    /// On failure the error carries the trimmed token.
    pub fn parse(s: &str) -> (r: Result<Units, InvalidUnits>)
        ensures
            r is Ok <==> spec_unit_of(spec_trimmed(s@)) is Some,
            match r {
                Ok(u) => spec_unit_of(spec_trimmed(s@)) == Some(u),
                Err(iu) => iu.0@ == spec_lower(spec_trimmed(s@)),
            },
    {
        let a = skip_spaces(s, 0);
        let b = rstrip(s);
        if a < b {
            match unit_token_match(s, a, b) {
                Some(u) => Ok(u),
                None => Err(InvalidUnits(lower_region(s, a, b))),
            }
        } else {
            proof {
                lemma_unit_of_empty();
                if a as int <= spec_rstrip(s@) {
                    assert(s@.subrange(a as int, b as int) =~= Seq::<char>::empty());
                }
            }
            Err(InvalidUnits(String::new()))
        }
    }
}

impl Size {
    /// Parse a quantity string: optional whitespace, a plain decimal
    /// literal, optional whitespace, then a unit token matched against the
    /// synonym sets. The result's magnitude is the literal's exact value.
    ///
    /// Fails with `MalformedNumber` exactly when the literal is absent,
    /// malformed, or too large for the magnitude representation; fails
    /// with `InvalidUnits` carrying the unit token exactly when that token
    /// names no unit.
    pub fn parse(s: &str) -> (r: Result<Size, ParseError>)
        ensures
            ({
                let t = spec_num_token(s@);
                let tok = spec_unit_token(s@);
                &&& (r is Ok <==> spec_num_ok(t) && spec_number_fits(t) && spec_unit_of(tok)
                    is Some)
                &&& match r {
                    Ok(sz) => {
                        &&& sz.wf()
                        &&& spec_unit_of(tok) == Some(sz.units)
                        &&& sz.value@ == spec_reduced(spec_number(t))
                        &&& ratio_eq(sz.value@, spec_number(t))
                    },
                    Err(ParseError::MalformedNumber) => !(spec_num_ok(t) && spec_number_fits(
                        t,
                    )),
                    Err(ParseError::InvalidUnits(iu)) => {
                        &&& spec_num_ok(t) && spec_number_fits(t)
                        &&& spec_unit_of(tok) is None
                        &&& iu.0@ == spec_lower(tok)
                    },
                }
            }),
    {
        let i0 = skip_spaces(s, 0);
        let e = scan_num_end(s, i0);
        proof {
            lemma_num_end_range(s@, i0 as int);
        }
        match parse_num_token(s, i0, e) {
            None => Err(ParseError::MalformedNumber),
            Some(value) => {
                let k = skip_spaces(s, e);
                let b = rstrip(s);
                if k < b {
                    match unit_token_match(s, k, b) {
                        Some(units) => Ok(Size { value, units }),
                        None => Err(
                            ParseError::InvalidUnits(InvalidUnits(lower_region(s, k, b))),
                        ),
                    }
                } else {
                    proof {
                        lemma_unit_of_empty();
                        if k as int <= spec_rstrip(s@) {
                            assert(s@.subrange(k as int, b as int) =~= Seq::<char>::empty());
                        }
                    }
                    Err(ParseError::InvalidUnits(InvalidUnits(String::new())))
                }
            },
        }
    }
}

/// The whole quantity string parses: a good numeric literal that fits,
/// and a unit token naming a unit.
pub open spec fn spec_size_ok(s: Seq<char>) -> bool {
    &&& spec_num_ok(spec_num_token(s))
    &&& spec_number_fits(spec_num_token(s))
    &&& spec_unit_of(spec_unit_token(s)) is Some
}

/// The magnitude a successful quantity parse stores: the literal's value
/// in lowest terms.
pub open spec fn spec_parsed_value(s: Seq<char>) -> Ratio {
    spec_reduced(spec_number(spec_num_token(s)))
}

/// The unit a successful quantity parse stores.
pub open spec fn spec_parsed_unit(s: Seq<char>) -> Units {
    spec_unit_of(spec_unit_token(s))->Some_0
}

/// A dimension argument is acceptable when it is a positive bare number
/// or a positive quantity string.
pub fn is_positive_dimension(s: &str) -> (b: bool)
    ensures
        b == ({
            let tr = spec_trimmed(s@);
            let t = spec_num_token(s@);
            ||| (spec_num_ok(tr) && spec_number_fits(tr) && spec_token_val(tr) > 0)
            ||| (spec_size_ok(s@) && spec_token_val(t) > 0)
        }),
{
    let ghost tr = spec_trimmed(s@);
    let ghost t = spec_num_token(s@);
    let bare = match parse_number(s) {
        Ok(f) => {
            proof {
                lemma_frac_len_nonneg(tr);
                lemma_pow10_mono(0, spec_frac_len(tr));
                crate::frac::lemma_ratio_sign(f@, spec_number(tr));
            }
            !f.is_zero()
        },
        Err(_) => false,
    };
    if bare {
        return true;
    }
    match Size::parse(s) {
        Ok(sz) => {
            proof {
                lemma_frac_len_nonneg(t);
                lemma_pow10_mono(0, spec_frac_len(t));
                crate::frac::lemma_ratio_sign(sz.value@, spec_number(t));
            }
            !sz.value.is_zero()
        },
        Err(_) => false,
    }
}

/// Append the ASCII-lowercased form of the character at `i`.
fn push_lower_char(out: &mut String, s: &str, i: usize)
    requires
        i < s@.len(),
    ensures
        final(out)@ == old(out)@ + seq![spec_lower_char(s@[i as int])],
{
    let c = s.get_char(i);
    if false {
    } else if c == 'A' {
        proof {
            reveal_strlit("a");
            assert("a"@ =~= seq![spec_lower_char('A')]);
        }
        out.append("a");
    } else if c == 'B' {
        proof {
            reveal_strlit("b");
            assert("b"@ =~= seq![spec_lower_char('B')]);
        }
        out.append("b");
    } else if c == 'C' {
        proof {
            reveal_strlit("c");
            assert("c"@ =~= seq![spec_lower_char('C')]);
        }
        out.append("c");
    } else if c == 'D' {
        proof {
            reveal_strlit("d");
            assert("d"@ =~= seq![spec_lower_char('D')]);
        }
        out.append("d");
    } else if c == 'E' {
        proof {
            reveal_strlit("e");
            assert("e"@ =~= seq![spec_lower_char('E')]);
        }
        out.append("e");
    } else if c == 'F' {
        proof {
            reveal_strlit("f");
            assert("f"@ =~= seq![spec_lower_char('F')]);
        }
        out.append("f");
    } else if c == 'G' {
        proof {
            reveal_strlit("g");
            assert("g"@ =~= seq![spec_lower_char('G')]);
        }
        out.append("g");
    } else if c == 'H' {
        proof {
            reveal_strlit("h");
            assert("h"@ =~= seq![spec_lower_char('H')]);
        }
        out.append("h");
    } else if c == 'I' {
        proof {
            reveal_strlit("i");
            assert("i"@ =~= seq![spec_lower_char('I')]);
        }
        out.append("i");
    } else if c == 'J' {
        proof {
            reveal_strlit("j");
            assert("j"@ =~= seq![spec_lower_char('J')]);
        }
        out.append("j");
    } else if c == 'K' {
        proof {
            reveal_strlit("k");
            assert("k"@ =~= seq![spec_lower_char('K')]);
        }
        out.append("k");
    } else if c == 'L' {
        proof {
            reveal_strlit("l");
            assert("l"@ =~= seq![spec_lower_char('L')]);
        }
        out.append("l");
    } else if c == 'M' {
        proof {
            reveal_strlit("m");
            assert("m"@ =~= seq![spec_lower_char('M')]);
        }
        out.append("m");
    } else if c == 'N' {
        proof {
            reveal_strlit("n");
            assert("n"@ =~= seq![spec_lower_char('N')]);
        }
        out.append("n");
    } else if c == 'O' {
        proof {
            reveal_strlit("o");
            assert("o"@ =~= seq![spec_lower_char('O')]);
        }
        out.append("o");
    } else if c == 'P' {
        proof {
            reveal_strlit("p");
            assert("p"@ =~= seq![spec_lower_char('P')]);
        }
        out.append("p");
    } else if c == 'Q' {
        proof {
            reveal_strlit("q");
            assert("q"@ =~= seq![spec_lower_char('Q')]);
        }
        out.append("q");
    } else if c == 'R' {
        proof {
            reveal_strlit("r");
            assert("r"@ =~= seq![spec_lower_char('R')]);
        }
        out.append("r");
    } else if c == 'S' {
        proof {
            reveal_strlit("s");
            assert("s"@ =~= seq![spec_lower_char('S')]);
        }
        out.append("s");
    } else if c == 'T' {
        proof {
            reveal_strlit("t");
            assert("t"@ =~= seq![spec_lower_char('T')]);
        }
        out.append("t");
    } else if c == 'U' {
        proof {
            reveal_strlit("u");
            assert("u"@ =~= seq![spec_lower_char('U')]);
        }
        out.append("u");
    } else if c == 'V' {
        proof {
            reveal_strlit("v");
            assert("v"@ =~= seq![spec_lower_char('V')]);
        }
        out.append("v");
    } else if c == 'W' {
        proof {
            reveal_strlit("w");
            assert("w"@ =~= seq![spec_lower_char('W')]);
        }
        out.append("w");
    } else if c == 'X' {
        proof {
            reveal_strlit("x");
            assert("x"@ =~= seq![spec_lower_char('X')]);
        }
        out.append("x");
    } else if c == 'Y' {
        proof {
            reveal_strlit("y");
            assert("y"@ =~= seq![spec_lower_char('Y')]);
        }
        out.append("y");
    } else if c == 'Z' {
        proof {
            reveal_strlit("z");
            assert("z"@ =~= seq![spec_lower_char('Z')]);
        }
        out.append("z");
    } else {
        let n = s.unicode_len();
        let piece = s.substring_char(i, i + 1);
        proof {
            assert(i < n);
            assert(piece@ =~= seq![s@[i as int]]);
            assert(spec_lower_char(c) == c);
        }
        out.append(piece);
    }
}

/// The region `s[k..e]`, ASCII-lowercased, as an owned string.
fn lower_region(s: &str, k: usize, e: usize) -> (r: String)
    requires
        k <= e <= s@.len(),
    ensures
        r@ == spec_lower(s@.subrange(k as int, e as int)),
{
    let ghost t = s@.subrange(k as int, e as int);
    let mut out = String::new();
    let mut j: usize = 0;
    while j < e - k
        invariant
            0 <= j <= e - k,
            k <= e <= s@.len(),
            t == s@.subrange(k as int, e as int),
            out@ == spec_lower(t.take(j as int)),
        decreases e - k - j,
    {
        proof {
            assert(t[j as int] == s@[k + j]);
            let p = t.take(j as int);
            let q = t.take(j + 1);
            assert(q =~= p.push(t[j as int]));
            assert(spec_lower(q) =~= spec_lower(p) + seq![spec_lower_char(t[j as int])]);
        }
        push_lower_char(&mut out, s, k + j);
        j += 1;
    }
    proof {
        assert(t.take((e - k) as int) =~= t);
    }
    out
}

} // verus!
