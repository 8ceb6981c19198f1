use sys_times::{CategoryTotal, DurationError, Event, EventError, Events};

fn parse_all(lines: &[&str]) -> Vec<Event> {
    lines.iter().map(|l| Event::parse(l).unwrap()).collect()
}

fn event(name: &str, start: u64, end: u64) -> Event {
    Event { name: name.to_string(), start_micro: start, end_micro: end }
}

fn total(name: &str, micros: u64) -> CategoryTotal {
    CategoryTotal { name: name.to_string(), micros }
}

fn percent(micros: u64, total_time: u64) -> String {
    format!("{:.3}", micros as f64 / total_time as f64 * 100.0)
}

#[test]
fn concrete_scenario() {
    let events = parse_all(&[
        "physics started=0 ended=100",
        "render started=100 ended=250",
        "physics started=250 ended=300",
    ]);
    let s = Events::from_iter(events).unwrap();
    assert_eq!(s.total_time_micros(), 300);
    assert_eq!(s.total_of("physics"), Some(150));
    assert_eq!(s.total_of("render"), Some(150));
    let report = s.get_system_times();
    // equal totals: names in ascending order
    assert_eq!(report, vec![total("physics", 150), total("render", 150)]);
    for c in &report {
        assert_eq!(percent(c.micros, s.total_time_micros()), "50.000");
    }
}

#[test]
fn single_event_scenario() {
    let s = Events::from_iter(parse_all(&["audio started=10 ended=20"])).unwrap();
    assert_eq!(s.total_time_micros(), 20);
    assert_eq!(s.total_of("audio"), Some(10));
    let report = s.get_system_times();
    assert_eq!(report, vec![total("audio", 10)]);
    assert_eq!(percent(report[0].micros, s.total_time_micros()), "50.000");
}

#[test]
fn empty_input_scenario() {
    let s = Events::from_iter(Vec::new()).unwrap();
    assert_eq!(s.total_time_micros(), 0);
    assert_eq!(s.total_of("audio"), None);
    assert!(s.get_system_times().is_empty());
}

#[test]
fn totals_sum_each_name_in_order() {
    let s = Events::from_iter(vec![
        event("a", 0, 5),
        event("b", 5, 7),
        event("a", 7, 20),
        event("c", 20, 20),
        event("a", 20, 21),
    ])
    .unwrap();
    assert_eq!(s.total_of("a"), Some(5 + 13 + 1));
    assert_eq!(s.total_of("b"), Some(2));
    assert_eq!(s.total_of("c"), Some(0));
    assert_eq!(s.total_of("d"), None);
}

#[test]
fn total_time_is_the_last_end_not_the_largest() {
    let s = Events::from_iter(vec![event("a", 0, 500), event("b", 100, 200)]).unwrap();
    assert_eq!(s.total_time_micros(), 200);
}

#[test]
fn report_is_ordered_by_total_then_name() {
    let s = Events::from_iter(vec![
        event("small", 0, 1),
        event("big", 1, 101),
        event("mid_b", 101, 111),
        event("mid_a", 111, 121),
        event("big", 121, 122),
    ])
    .unwrap();
    let report = s.get_system_times();
    assert_eq!(
        report,
        vec![total("big", 101), total("mid_a", 10), total("mid_b", 10), total("small", 1)]
    );
    for w in report.windows(2) {
        assert!(w[0].micros >= w[1].micros);
    }
}

#[test]
fn add_folds_one_event_at_a_time() {
    let mut s = Events::new();
    assert_eq!(s.add(&event("net", 3, 10)), Ok(()));
    assert_eq!(s.add(&event("net", 10, 12)), Ok(()));
    assert_eq!(s.total_of("net"), Some(9));
    assert_eq!(s.total_time_micros(), 12);
}

#[test]
fn end_before_start_is_an_error() {
    let mut s = Events::new();
    assert_eq!(s.add(&event("net", 10, 3)), Err(DurationError::EndBeforeStart));
    assert_eq!(s.total_of("net"), None);
    assert_eq!(s.total_time_micros(), 0);
    let r = Events::from_iter(vec![event("a", 0, 1), event("b", 5, 4), event("c", 9, 1)]);
    assert_eq!(r.err(), Some(EventError { index: 1, error: DurationError::EndBeforeStart }));
}

#[test]
fn total_past_64_bits_is_an_error() {
    let mut s = Events::new();
    assert_eq!(s.add(&event("a", 0, u64::MAX)), Ok(()));
    assert_eq!(s.add(&event("b", 0, 1)), Ok(()));
    assert_eq!(s.add(&event("a", 0, 1)), Err(DurationError::TotalOverflow));
    assert_eq!(s.total_of("a"), Some(u64::MAX));
    assert_eq!(s.total_time_micros(), 1);
    let r = Events::from_iter(vec![event("a", 0, u64::MAX), event("a", 5, 5), event("a", 5, 6)]);
    assert_eq!(r.err(), Some(EventError { index: 2, error: DurationError::TotalOverflow }));
}
