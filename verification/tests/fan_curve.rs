use fan_curve::curve::{ConstructionError, Curve};
use fan_curve::point::{ParseError, Point};

fn curve(points: &[(u8, u8)]) -> Curve {
    let v: Vec<Point> = points.iter().map(|&(t, s)| Point::new(t, s)).collect();
    Curve::from_points(v).expect("curve must build")
}

#[test]
fn linear_blend_midpoint() {
    let c = curve(&[(0, 0), (50, 50), (100, 100)]);
    assert_eq!(c.evaluate(25), 25);
}

#[test]
fn low_clamp_below_range() {
    let c = curve(&[(0, 0), (50, 50), (100, 100)]);
    assert_eq!(c.evaluate(-10), 0);
    assert_eq!(c.evaluate(i32::MIN), 0);
}

#[test]
fn high_clamp_above_range() {
    let c = curve(&[(0, 0), (50, 50), (100, 100)]);
    assert_eq!(c.evaluate(150), 100);
    assert_eq!(c.evaluate(i32::MAX), 100);
}

#[test]
fn exact_hit_at_upper_bound() {
    let c = curve(&[(0, 10), (40, 90)]);
    assert_eq!(c.evaluate(40), 90);
}

#[test]
fn exact_hit_at_every_point() {
    let c = curve(&[(0, 0), (50, 50), (100, 100)]);
    assert_eq!(c.evaluate(0), 0);
    assert_eq!(c.evaluate(50), 50);
    assert_eq!(c.evaluate(100), 100);
}

#[test]
fn blend_truncates_toward_zero() {
    // Rising segment: 1/3 and 2/3 of the way from 0 to 10.
    let c = curve(&[(0, 0), (3, 10)]);
    assert_eq!(c.evaluate(1), 3);
    assert_eq!(c.evaluate(2), 6);
    // Falling segment: 10 - 10/3 = 6.67 truncates to 6.
    let d = curve(&[(0, 10), (3, 0)]);
    assert_eq!(d.evaluate(1), 6);
    assert_eq!(d.evaluate(2), 3);
}

#[test]
fn monotone_when_speeds_non_decreasing() {
    let c = curve(&[(0, 0), (10, 5), (20, 50), (30, 255)]);
    let mut last: u8 = 0;
    let mut t: i32 = -5;
    while t <= 35 {
        let v = c.evaluate(t);
        assert!(v >= last, "speed dropped at {}", t);
        last = v;
        t += 1;
    }
}

#[test]
fn unordered_input_is_sorted() {
    let c = curve(&[(100, 100), (0, 0), (50, 50)]);
    assert_eq!(c.evaluate(25), 25);
    assert_eq!(c.evaluate(75), 75);
}

#[test]
fn duplicate_points_are_collapsed() {
    let c = curve(&[(0, 0), (0, 0), (50, 50), (50, 50)]);
    assert_eq!(c.evaluate(25), 25);
    assert_eq!(c.evaluate(60), 50);
}

#[test]
fn construction_fails_on_single_point() {
    let r = Curve::from_points(vec![Point::new(10, 20)]);
    assert_eq!(r.unwrap_err(), ConstructionError::TooFewPoints);
}

#[test]
fn construction_fails_on_no_points() {
    let r = Curve::from_points(Vec::new());
    assert_eq!(r.unwrap_err(), ConstructionError::TooFewPoints);
}

#[test]
fn construction_fails_on_conflicting_temperatures() {
    let r = Curve::from_points(vec![Point::new(10, 20), Point::new(10, 30), Point::new(50, 50)]);
    assert_eq!(r.unwrap_err(), ConstructionError::ConflictingTemperatures);
}

#[test]
fn parse_well_formed() {
    assert_eq!(Point::parse("42:87"), Ok(Point::new(42, 87)));
    assert_eq!(Point::parse("0:0"), Ok(Point::new(0, 0)));
    assert_eq!(Point::parse("255:255"), Ok(Point::new(255, 255)));
}

#[test]
fn parse_accepts_leading_zeros() {
    assert_eq!(Point::parse("007:009"), Ok(Point::new(7, 9)));
    assert_eq!(Point::parse("000000001:2"), Ok(Point::new(1, 2)));
}

#[test]
fn parse_rejects_missing_separator() {
    assert_eq!(Point::parse("50"), Err(ParseError::MissingSeparator));
    assert_eq!(Point::parse(""), Err(ParseError::MissingSeparator));
}

#[test]
fn parse_rejects_bad_fields() {
    assert_eq!(Point::parse("a:5"), Err(ParseError::InvalidNumber));
    assert_eq!(Point::parse("5:b"), Err(ParseError::InvalidNumber));
    assert_eq!(Point::parse(":5"), Err(ParseError::InvalidNumber));
    assert_eq!(Point::parse("5:"), Err(ParseError::InvalidNumber));
    assert_eq!(Point::parse(":"), Err(ParseError::InvalidNumber));
    assert_eq!(Point::parse("-1:5"), Err(ParseError::InvalidNumber));
    assert_eq!(Point::parse(" 1:5"), Err(ParseError::InvalidNumber));
}

#[test]
fn parse_splits_on_first_separator_only() {
    // The rest after the first separator must itself be one numeric field.
    assert_eq!(Point::parse("1:2:3"), Err(ParseError::InvalidNumber));
}

#[test]
fn parse_rejects_out_of_range_fields() {
    assert_eq!(Point::parse("256:0"), Err(ParseError::OutOfRange));
    assert_eq!(Point::parse("0:256"), Err(ParseError::OutOfRange));
    assert_eq!(Point::parse("999:999"), Err(ParseError::OutOfRange));
    // The left field is read first, so its error wins.
    assert_eq!(Point::parse("300:b"), Err(ParseError::OutOfRange));
    assert_eq!(Point::parse("c:300"), Err(ParseError::InvalidNumber));
}

#[test]
fn format_is_canonical() {
    assert_eq!(Point::new(0, 0).format(), "0:0");
    assert_eq!(Point::new(42, 7).format(), "42:7");
    assert_eq!(Point::new(100, 255).format(), "100:255");
}

#[test]
fn parse_format_round_trip() {
    let samples = [(0u8, 0u8), (1, 9), (10, 99), (100, 200), (255, 255), (37, 5)];
    for &(t, s) in samples.iter() {
        let p = Point::new(t, s);
        assert_eq!(Point::parse(&p.format()), Ok(p));
    }
}

#[test]
fn point_order_is_temperature_then_speed() {
    assert!(Point::new(1, 9).le(&Point::new(2, 0)));
    assert!(!Point::new(2, 0).le(&Point::new(1, 9)));
    assert!(Point::new(1, 3).le(&Point::new(1, 4)));
    assert!(!Point::new(1, 4).le(&Point::new(1, 3)));
    assert!(Point::new(1, 4).le(&Point::new(1, 4)));
}
