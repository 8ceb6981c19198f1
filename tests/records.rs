use sys_times::{Event, ParseError};

fn event(name: &str, start: u64, end: u64) -> Event {
    Event { name: name.to_string(), start_micro: start, end_micro: end }
}

fn rejects(line: &str) {
    match Event::parse(line) {
        Ok(e) => panic!("{:?} parsed as {:?}", line, e),
        Err(ParseError { line: l }) => assert_eq!(l, line),
    }
}

#[test]
fn parses_a_record_line() {
    let e = Event::parse("physics started=0 ended=100").unwrap();
    assert_eq!(e, event("physics", 0, 100));
}

#[test]
fn parses_leading_zeros_and_non_ascii_names() {
    assert_eq!(Event::parse("a started=007 ended=010").unwrap(), event("a", 7, 10));
    assert_eq!(Event::parse("物理 started=1 ended=2").unwrap(), event("物理", 1, 2));
}

#[test]
fn parses_largest_timestamps() {
    let e = Event::parse("audio started=18446744073709551615 ended=18446744073709551615").unwrap();
    assert_eq!(e, event("audio", u64::MAX, u64::MAX));
}

#[test]
fn round_trip_through_a_line() {
    let cases = vec![
        event("physics", 0, 100),
        event("render", 0, u64::MAX),
        event("a", 1234567890, 9876543210),
        event("x_y-z.1", 10, 5),
    ];
    for e in cases {
        let line = e.to_line();
        assert_eq!(Event::parse(&line).unwrap(), e);
    }
}

#[test]
fn formats_the_canonical_line() {
    assert_eq!(event("render", 100, 250).to_line(), "render started=100 ended=250");
    assert_eq!(event("n", 0, u64::MAX).to_line(), "n started=0 ended=18446744073709551615");
}

#[test]
fn rejects_missing_markers() {
    rejects("physics ended=100");
    rejects("physics started=0");
    rejects("physics 0 100");
    rejects("physics begun=0 ended=100");
}

#[test]
fn rejects_swapped_fields() {
    rejects("physics ended=100 started=0");
}

#[test]
fn rejects_non_numeric_fields() {
    rejects("physics started=abc ended=100");
    rejects("physics started=0 ended=1x");
    rejects("physics started= ended=100");
    rejects("physics started=0 ended=");
    rejects("physics started=-1 ended=100");
    rejects("physics started=+1 ended=100");
}

#[test]
fn rejects_timestamps_past_64_bits() {
    rejects("physics started=18446744073709551616 ended=1");
    rejects("physics started=0 ended=99999999999999999999");
}

#[test]
fn rejects_bad_spacing_and_names() {
    rejects("");
    rejects(" started=0 ended=100");
    rejects("physics  started=0 ended=100");
    rejects("physics started=0  ended=100");
    rejects("physics\tstarted=0 ended=100");
    rejects("two words started=0 ended=100");
    rejects("physics started=0 ended=100 ");
    rejects("physics started=0 ended=100 extra");
}
