use veritas::timemgmt::{Clock, Limits, LimitsError};

#[test]
fn go_nodes() {
    assert_eq!(Limits::nodes(100), "nodes 100".parse().unwrap());
}

#[test]
fn go_movetime() {
    assert_eq!(Limits::movetime(100), "movetime 100".parse().unwrap());
}

#[test]
fn go_time() {
    assert_eq!(
        Limits::time(100, 10, 200, 20),
        "p1time 100 p2time 200 p1inc 10 p2inc 20".parse().unwrap()
    );
}

#[test]
fn go_infinite() {
    assert_eq!(Limits::infinite(), "infinite".parse().unwrap());
}

#[test]
fn go_nodes_movetime() {
    assert_eq!(
        Limits::nodes(100) + Limits::movetime(100),
        "nodes 100 movetime 100".parse().unwrap()
    );
}

#[test]
fn go_nodes_time() {
    assert_eq!(
        Limits::nodes(100) + Limits::time(100, 10, 200, 20),
        "nodes 100 p1time 100 p2time 200 p1inc 10 p2inc 20"
            .parse()
            .unwrap()
    );
}

#[test]
fn go_nodes_infinite() {
    assert_eq!(
        Limits::nodes(100) + Limits::infinite(),
        "nodes 100 infinite".parse().unwrap()
    );
}

#[test]
fn go_nodes_movetime_time() {
    assert_eq!(
        Limits::nodes(100) + Limits::movetime(100) + Limits::time(100, 10, 200, 20),
        "nodes 100 movetime 100 p1time 100 p2time 200 p1inc 10 p2inc 20"
            .parse()
            .unwrap()
    );
}

#[test]
fn later_specifier_overrides_earlier() {
    let l = Limits::parse("nodes 5 nodes 7 movetime 3").unwrap();
    assert_eq!(l.node_limit(), Some(7));
    assert_eq!(l.clock(), Some(Clock::Fixed { millis: 3 }));
}

#[test]
fn empty_text_is_infinite() {
    assert_eq!(Limits::parse("   "), Ok(Limits::infinite()));
    assert_eq!(Limits::parse(""), Ok(Limits::infinite()));
}

#[test]
fn parse_errors() {
    assert_eq!(Limits::parse("nodes"), Err(LimitsError::MissingValue));
    assert_eq!(Limits::parse("nodes ten"), Err(LimitsError::InvalidNumber));
    assert_eq!(Limits::parse("nodes -1"), Err(LimitsError::InvalidNumber));
    assert_eq!(
        Limits::parse("nodes 18446744073709551616"),
        Err(LimitsError::InvalidNumber)
    );
    assert_eq!(Limits::parse("p1time 1"), Err(LimitsError::MissingKeyword));
    assert_eq!(Limits::parse("p1time 1 p1inc 2"), Err(LimitsError::WrongKeyword));
    assert_eq!(Limits::parse("depth 3"), Err(LimitsError::UnexpectedToken));
}

#[test]
fn plus_sign_and_whitespace() {
    assert_eq!(Limits::parse("\tnodes\n+42 "), Ok(Limits::nodes(42)));
    assert_eq!(
        Limits::parse("nodes 18446744073709551615"),
        Ok(Limits::nodes(u64::MAX))
    );
}

#[test]
fn dynamic_budget_formula() {
    // 1000 / 20 + 3 * 100 / 4 = 50 + 75 = 125, below 1000 - 50
    let c = Clock::Dynamic { p1_base: 1000, p1_inc: 100, p2_base: 60, p2_inc: 0 };
    assert_eq!(c.time_limit(true), 125);
    // 60 / 20 = 3, within the reserve cap of 10
    assert_eq!(c.time_limit(false), 3);
    // the cap: base 100, increment 1000 -> min(5 + 750, 50) = 50
    let d = Clock::Dynamic { p1_base: 100, p1_inc: 1000, p2_base: 10, p2_inc: 1000 };
    assert_eq!(d.time_limit(true), 50);
    // less than the reserve left: no time at all
    assert_eq!(d.time_limit(false), 0);
    assert_eq!(Clock::Fixed { millis: 7 }.time_limit(false), 7);
}

#[test]
fn out_of_time() {
    let l = Limits::nodes(10) + Limits::movetime(100);
    assert!(!l.is_out_of_time(9, 99, true));
    assert!(l.is_out_of_time(10, 0, true));
    assert!(l.is_out_of_time(0, 100, false));
    assert!(!Limits::infinite().is_out_of_time(u64::MAX, u64::MAX, true));
    let t = Limits::time(1000, 0, 100, 0);
    assert!(t.is_out_of_time(0, 50, true));
    assert!(!t.is_out_of_time(0, 49, true));
    assert!(t.is_out_of_time(0, 5, false));
    assert!(Limits::default() == Limits::infinite());
}
