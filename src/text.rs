//! Text form of a fraction: `"<numerator>/<denominator>"`, or a bare integer
//! when parsing.
use crate::fraction::{
    fits_i16, is_lowest, lemma_gcd_one, lemma_lowest_terms_fixed, lowest_terms, magnitude, Fraction32,
};
use core::num::ParseIntError;
use vstd::prelude::*;
use vstd::string::StringExecFns;

verus! {

#[verifier::external_type_specification]
#[verifier::external_body]
pub struct ExParseIntError(core::num::ParseIntError);

/// An ASCII decimal digit.
pub open spec fn is_digit(c: char) -> bool {
    48 <= c as u32 <= 57
}

/// The value of a decimal digit.
pub open spec fn digit_value(c: char) -> int {
    c as u32 - 48
}

/// The digit that stands for `k < 10`.
pub open spec fn digit_char(k: nat) -> char {
    seq!['0', '1', '2', '3', '4', '5', '6', '7', '8', '9'][k as int]
}

/// A nonempty run of decimal digits.
pub open spec fn all_digits(s: Seq<char>) -> bool {
    s.len() > 0 && forall|i: int| 0 <= i < s.len() ==> is_digit(#[trigger] s[i])
}

/// The value of a run of decimal digits, most significant first.
pub open spec fn digits_value(s: Seq<char>) -> int
    decreases s.len(),
{
    if s.len() == 0 {
        0
    } else {
        digits_value(s.drop_last()) * 10 + digit_value(s.last())
    }
}

/// The value of an optional `+` followed by decimal digits.
pub open spec fn unsigned_value(s: Seq<char>) -> Option<int> {
    if s.len() > 0 && s[0] == '+' {
        if all_digits(s.drop_first()) {
            Some(digits_value(s.drop_first()))
        } else {
            None
        }
    } else if all_digits(s) {
        Some(digits_value(s))
    } else {
        None
    }
}

/// The value of an optional `+` or `-` followed by decimal digits.
pub open spec fn signed_value(s: Seq<char>) -> Option<int> {
    if s.len() > 0 && s[0] == '-' {
        if all_digits(s.drop_first()) {
            Some(-digits_value(s.drop_first()))
        } else {
            None
        }
    } else {
        unsigned_value(s)
    }
}

/// The text before and after the first `/`, if there is one.
pub open spec fn split_first_slash(s: Seq<char>) -> Option<(Seq<char>, Seq<char>)>
    decreases s.len(),
{
    if s.len() == 0 {
        None
    } else if s[0] == '/' {
        Some((Seq::empty(), s.drop_first()))
    } else {
        match split_first_slash(s.drop_first()) {
            Some(parts) => Some((seq![s[0]] + parts.0, parts.1)),
            None => None,
        }
    }
}

/// The `i16` that text spells, if it spells one.
pub open spec fn i16_text_value(s: Seq<char>) -> Option<int> {
    match signed_value(s) {
        Some(v) => if fits_i16(v) {
            Some(v)
        } else {
            None
        },
        None => None,
    }
}

/// The `u16` that text spells, if it spells one.
pub open spec fn u16_text_value(s: Seq<char>) -> Option<int> {
    match unsigned_value(s) {
        Some(v) => if v <= u16::MAX {
            Some(v)
        } else {
            None
        },
        None => None,
    }
}

/// The numerator and denominator that text spells, before reduction: an `i16`
/// alone (over 1), or an `i16`, a `/` and a `u16`. `None` where either integer
/// is malformed or out of range.
pub open spec fn text_parts(s: Seq<char>) -> Option<(int, int)> {
    match split_first_slash(s) {
        Some(parts) => match (i16_text_value(parts.0), u16_text_value(parts.1)) {
            (Some(n), Some(d)) => Some((n, d)),
            _ => None,
        },
        None => match i16_text_value(s) {
            Some(n) => Some((n, 1)),
            None => None,
        },
    }
}

/// Decimal digits of a natural number, without leading zeros.
pub open spec fn decimal_text(k: nat) -> Seq<char>
    decreases k,
{
    if k < 10 {
        seq![digit_char(k)]
    } else {
        decimal_text(k / 10).push(digit_char(k % 10))
    }
}

/// Decimal text of an integer, with `-` before a negative one.
pub open spec fn signed_text(n: int) -> Seq<char> {
    if n < 0 {
        seq!['-'] + decimal_text((-n) as nat)
    } else {
        decimal_text(n as nat)
    }
}

/// The display form `"<numerator>/<denominator>"`.
pub open spec fn fraction_text(x: (int, int)) -> Seq<char> {
    signed_text(x.0) + seq!['/'] + decimal_text(x.1 as nat)
}

/// Relies on `str::split_once`: the text before and after the first `'/'`.
#[verifier::external_body]
fn split_at_slash(s: &str) -> (r: Option<(&str, &str)>)
    ensures
        r is None <==> split_first_slash(s@) is None,
        r matches Some(parts) ==> split_first_slash(s@) == Some((parts.0@, parts.1@)),
{
    s.split_once('/')
}

/// Relies on `i16::from_str`: an optional `+` or `-`, then decimal digits, in range.
#[verifier::external_body]
fn parse_i16(s: &str) -> (r: Result<i16, ParseIntError>)
    ensures
        r is Ok <==> i16_text_value(s@) is Some,
        r matches Ok(v) ==> i16_text_value(s@) == Some(v as int),
{
    s.parse::<i16>()
}

/// Relies on `u16::from_str`: an optional `+`, then decimal digits, in range.
#[verifier::external_body]
fn parse_u16(s: &str) -> (r: Result<u16, ParseIntError>)
    ensures
        r is Ok <==> u16_text_value(s@) is Some,
        r matches Ok(v) ==> u16_text_value(s@) == Some(v as int),
{
    s.parse::<u16>()
}

/// Relies on `<i16 as ToString>::to_string`: decimal digits without leading
/// zeros, with `-` before a negative value.
#[verifier::external_body]
fn i16_text(n: i16) -> (r: String)
    ensures
        r@ == signed_text(n as int),
{
    n.to_string()
}

/// Relies on `<u16 as ToString>::to_string`: decimal digits without leading zeros.
#[verifier::external_body]
fn u16_text(d: u16) -> (r: String)
    ensures
        r@ == decimal_text(d as nat),
{
    d.to_string()
}

/// Why text is not a fraction.
#[derive(Debug, PartialEq, Eq)]
pub enum ParseFractionError {
    /// The numerator or the denominator is not an integer of its range.
    BadInteger(ParseIntError),
    /// The denominator is zero.
    ZeroDenominator,
}

impl From<ParseIntError> for ParseFractionError {
    fn from(e: ParseIntError) -> Self {
        ParseFractionError::BadInteger(e)
    }
}

impl vstd::std_specs::convert::FromSpecImpl<ParseIntError> for ParseFractionError {
    open spec fn obeys_from_spec() -> bool {
        true
    }

    open spec fn from_spec(e: ParseIntError) -> Self {
        ParseFractionError::BadInteger(e)
    }
}

impl Fraction32 {
    /// Parses `"<numerator>/<denominator>"` or a bare numerator, and reduces it.
    /// A denominator above `i16::MAX` is outside the type's range.
    pub fn from_str(s: &str) -> (r: Result<Self, ParseFractionError>)
        requires
            text_parts(s@) matches Some(p) ==> p.1 <= i16::MAX,
        ensures
            r matches Err(ParseFractionError::BadInteger(_)) <==> text_parts(s@) is None,
            r matches Err(ParseFractionError::ZeroDenominator) <==> (text_parts(s@) matches Some(
                p,
            ) && p.1 == 0),
            r matches Ok(f) ==> (text_parts(s@) matches Some(p) && f@ == lowest_terms(p.0, p.1)),
    {
        match split_at_slash(s) {
            Some((numerator, denominator)) => {
                let n = match parse_i16(numerator) {
                    Ok(v) => v,
                    Err(e) => return Err(ParseFractionError::from(e)),
                };
                let d = match parse_u16(denominator) {
                    Ok(v) => v,
                    Err(e) => return Err(ParseFractionError::from(e)),
                };
                if d == 0 {
                    return Err(ParseFractionError::ZeroDenominator);
                }
                Ok(Self::new(n, d))
            },
            None => match parse_i16(s) {
                Ok(v) => {
                    let f = Self::whole(v);
                    proof {
                        lemma_gcd_one(magnitude(v as int));
                        lemma_lowest_terms_fixed(v as int, 1);
                    }
                    Ok(f)
                },
                Err(e) => Err(ParseFractionError::from(e)),
            },
        }
    }

    /// The display form `"<numerator>/<denominator>"`, also for whole numbers and zero.
    pub fn to_string(&self) -> (r: String)
        ensures
            r@ == fraction_text(self@),
    {
        let mut text = i16_text(self.numerator());
        text.append("/");
        let denominator = u16_text(self.denominator());
        text.append(denominator.as_str());
        proof {
            reveal_strlit("/");
        }
        text
    }
}

proof fn lemma_digit_char(k: nat)
    requires
        k < 10,
    ensures
        is_digit(digit_char(k)),
        digit_value(digit_char(k)) == k,
{
    let t = seq!['0', '1', '2', '3', '4', '5', '6', '7', '8', '9'];
    assert(t[0] == '0' && t[1] == '1' && t[2] == '2' && t[3] == '3' && t[4] == '4');
    assert(t[5] == '5' && t[6] == '6' && t[7] == '7' && t[8] == '8' && t[9] == '9');
}

proof fn lemma_decimal_text(k: nat)
    ensures
        all_digits(decimal_text(k)),
        digits_value(decimal_text(k)) == k,
    decreases k,
{
    lemma_digit_char(k % 10);
    if k < 10 {
        let s = decimal_text(k);
        assert(s.drop_last() =~= Seq::<char>::empty());
        assert(digits_value(s.drop_last()) == 0);
        assert(s.last() == digit_char(k));
        assert(k % 10 == k);
    } else {
        lemma_decimal_text(k / 10);
        let front = decimal_text(k / 10);
        let s = decimal_text(k);
        assert(s.drop_last() =~= front);
        assert(s.last() == digit_char(k % 10));
        assert(k == (k / 10) * 10 + k % 10);
        assert(digits_value(s) == digits_value(front) * 10 + digit_value(s.last()));
        assert forall|i: int| 0 <= i < s.len() implies is_digit(#[trigger] s[i]) by {
            if i < front.len() {
                assert(s[i] == front[i]);
            }
        }
    }
}

proof fn lemma_split_first_slash(a: Seq<char>, b: Seq<char>)
    requires
        forall|i: int| 0 <= i < a.len() ==> #[trigger] a[i] != '/',
    ensures
        split_first_slash(a + seq!['/'] + b) == Some((a, b)),
    decreases a.len(),
{
    let s = a + seq!['/'] + b;
    if a.len() == 0 {
        assert(s[0] == '/');
        assert(s.drop_first() =~= b);
    } else {
        let rest = a.drop_first();
        assert(a[0] != '/');
        assert(s.drop_first() =~= rest + seq!['/'] + b);
        lemma_split_first_slash(rest, b);
        assert(seq![s[0]] + rest =~= a);
    }
}

/// Displaying a fraction and parsing the text gives the same fraction back.
pub proof fn lemma_round_trip(x: (int, int))
    requires
        is_lowest(x.0, x.1),
    ensures
        text_parts(fraction_text(x)) == Some(x),
        lowest_terms(x.0, x.1) == x,
{
    lemma_lowest_terms_fixed(x.0, x.1);
    let a = signed_text(x.0);
    let b = decimal_text(x.1 as nat);
    lemma_decimal_text(x.1 as nat);
    if x.0 < 0 {
        let m = decimal_text((-x.0) as nat);
        lemma_decimal_text((-x.0) as nat);
        assert(a.drop_first() =~= m);
        assert(a[0] == '-');
        assert forall|i: int| 0 <= i < a.len() implies #[trigger] a[i] != '/' by {
            if i > 0 {
                assert(a[i] == m[i - 1]);
            }
        }
    } else {
        lemma_decimal_text(x.0 as nat);
        assert(is_digit(a[0]));
    }
    assert(forall|i: int| 0 <= i < a.len() ==> #[trigger] a[i] != '/');
    lemma_split_first_slash(a, b);
    assert(is_digit(b[0]));
    assert(fraction_text(x) == a + seq!['/'] + b);
}

} // verus!
