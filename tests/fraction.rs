use core::cmp::Ordering;
use fraction32::{Fraction32, ParseFractionError};

fn parse(s: &str) -> Fraction32 {
    Fraction32::from_str(s).unwrap()
}

#[test]
fn new_reduces_two_fourths() {
    assert_eq!(Fraction32::new(2, 4).to_string(), "1/2");
}

#[test]
fn new_reduces_negative_and_zero() {
    let f = Fraction32::new(-6, 8);
    assert_eq!((f.numerator(), f.denominator()), (-3, 4));
    let z = Fraction32::new(0, 9);
    assert_eq!((z.numerator(), z.denominator()), (0, 1));
    let m = Fraction32::new(-32768, 32767);
    assert_eq!((m.numerator(), m.denominator()), (-32768, 32767));
}

#[test]
fn reduce_is_idempotent() {
    let f = Fraction32::new(30, 42);
    assert_eq!(f.reduce(), f);
    assert_eq!(f.reduce().reduce(), f.reduce());
    assert_eq!(f.to_string(), "5/7");
}

#[test]
fn three_quarters_plus_one_quarter() {
    assert_eq!(parse("3/4").add(parse("1/4")).to_string(), "1/1");
}

#[test]
fn two_thirds_times_three_quarters() {
    assert_eq!(parse("2/3").mul(parse("3/4")).to_string(), "1/2");
}

#[test]
fn five_divided_by_two() {
    assert_eq!(Fraction32::whole(5).div(parse("2/1")).to_string(), "5/2");
}

#[test]
fn subtraction_of_unlike_denominators() {
    assert_eq!(parse("1/2").sub(parse("1/3")).to_string(), "1/6");
    assert_eq!(parse("1/3").sub(parse("1/2")).to_string(), "-1/6");
}

#[test]
fn compound_assignment() {
    let mut f = parse("1/2");
    f.add_assign(parse("1/3"));
    assert_eq!(f.to_string(), "5/6");
    f.sub_assign(parse("1/6"));
    assert_eq!(f.to_string(), "2/3");
    f.mul_assign(parse("3/2"));
    assert_eq!(f.to_string(), "1/1");
    f.div_assign(parse("4/1"));
    assert_eq!(f.to_string(), "1/4");
}

#[test]
fn zero_denominator_is_rejected() {
    assert!(matches!(
        Fraction32::from_str("1/0"),
        Err(ParseFractionError::ZeroDenominator)
    ));
}

#[test]
fn malformed_integers_are_rejected() {
    for s in ["abc", "1/x", "x/1", "", "1/-2", "40000", "1/70000", "1/", "/2", "1 /2", "-", "6/-0"] {
        assert!(
            matches!(Fraction32::from_str(s), Err(ParseFractionError::BadInteger(_))),
            "{s}"
        );
    }
}

#[test]
fn parse_forms() {
    assert_eq!(parse("-12").to_string(), "-12/1");
    assert_eq!(parse("+3/+4").to_string(), "3/4");
    assert_eq!(parse("-0/5").to_string(), "0/1");
}

#[test]
fn reciprocal_of_zero_is_none() {
    assert!(parse("0/1").reciprocal().is_none());
}

#[test]
fn reciprocal_keeps_sign_on_numerator() {
    let r = parse("-2/3").reciprocal().unwrap();
    assert_eq!((r.numerator(), r.denominator()), (-3, 2));
    assert!(Fraction32::whole(-32768).reciprocal().is_none());
}

#[test]
fn ordering_scenarios() {
    assert!(parse("1/2") < parse("2/3"));
    assert!(parse("-1/2") < Fraction32::whole(0));
    assert!(parse("3/4") > parse("2/3"));
    assert_eq!(parse("2/4").cmp(&parse("1/2")), Ordering::Equal);
}

#[test]
fn ordering_with_large_denominators() {
    assert_eq!(parse("1/300").partial_cmp(&parse("1/301")), Some(Ordering::Greater));
    assert_eq!(parse("1/256").partial_cmp(&parse("1/512")), Some(Ordering::Greater));
    assert_eq!(parse("1/300").partial_cmp(&parse("1/300")), Some(Ordering::Equal));
    assert_eq!(parse("-32768/32767").cmp(&parse("32767/32766")), Ordering::Less);
}

#[test]
fn addition_with_large_denominators() {
    assert_eq!(parse("1/300").add(parse("1/600")).to_string(), "1/200");
    let x = parse("7/300");
    assert_eq!(x.sub(x), Fraction32::whole(0));
    let mut y = parse("1/600");
    y.add_assign(parse("1/300"));
    assert_eq!(y.to_string(), "1/200");
    y.sub_assign(parse("1/200"));
    assert_eq!(y.to_string(), "0/1");
}

#[test]
fn display_round_trips() {
    for s in ["0/1", "1/2", "-7/3", "32767/1", "-32768/1", "-32768/32767", "1/32767"] {
        let f = parse(s);
        assert_eq!(f.to_string(), s);
        assert_eq!(parse(&f.to_string()), f);
    }
}

#[test]
fn identities_hold() {
    for s in ["0/1", "5/7", "-3/4", "100/1"] {
        let x = parse(s);
        assert_eq!(x.add(Fraction32::whole(0)), x);
        assert_eq!(x.mul(Fraction32::whole(1)), x);
        assert_eq!(x.sub(x), Fraction32::whole(0));
    }
}

#[test]
fn product_with_reciprocal_is_one() {
    for s in ["5/7", "-3/4", "100/1", "-1/32767"] {
        let x = parse(s);
        assert_eq!(x.mul(x.reciprocal().unwrap()), Fraction32::whole(1));
    }
}

#[test]
fn unchecked_constructor_keeps_parts() {
    let f = Fraction32::new_unchecked(3, 7);
    assert_eq!((f.numerator(), f.denominator()), (3, 7));
}

#[test]
fn from_integer_is_whole() {
    let f = Fraction32::from(-4);
    assert_eq!(f, Fraction32::whole(-4));
    assert_eq!(f.to_string(), "-4/1");
}
