use lichtung::clock_map::ClockMap;
use lichtung::log::{frame_line, log_lines, CausalEvent, FloatBits, Op};

#[test]
fn read_skips_blank_lines() {
    let back = log_lines("\n\n");
    assert!(back.is_empty());
}

#[test]
fn lines_end_in_a_line_feed_or_both() {
    let back = log_lines("{\"a\":1}\r\n  \t\n{\"b\":2}\n\u{2003}\n{\"c\":3}");
    assert_eq!(back, vec!["{\"a\":1}", "{\"b\":2}", "{\"c\":3}"]);
    assert_eq!(log_lines(" x \n"), vec![" x "]);
    assert_eq!(log_lines("a\rb\n"), vec!["a\rb"]);
}

#[test]
fn what_is_framed_reads_back() {
    let lines = ["{\"id\":\"e1\"}", "{\"id\":\"e2\"}", "{\"id\":\"\u{e9}\"}"];
    let mut file = String::new();
    for l in lines {
        let framed = frame_line(l);
        assert_eq!(framed, format!("{l}\n"));
        file += &framed;
    }
    assert_eq!(log_lines(&file), lines);
}

fn sample() -> CausalEvent {
    let mut clock = ClockMap::new();
    clock.insert("rng".to_string(), 1);
    CausalEvent {
        id: "e1".into(),
        actor: "rng".into(),
        seq: 0,
        op: Op::Emit,
        vclock: clock,
        lamport: 1,
        msg_id: Some("m1".into()),
        src: Some("rng".into()),
        dst: Some("multiplier".into()),
        value: Some(FloatBits(0.5f64.to_bits())),
        payload_hash: None,
    }
}

#[test]
fn events_are_equal_field_by_field() {
    let e = sample();
    assert_eq!(e.clone(), e);
    let mut other = sample();
    other.op = Op::Recv;
    assert_ne!(e, other);
    let mut other = sample();
    other.payload_hash = Some(String::new());
    assert_ne!(e, other);
    let mut other = sample();
    other.vclock.insert("rng".to_string(), 2);
    assert_ne!(e, other);
    let mut other = sample();
    other.value = None;
    assert_ne!(e, other);
}

#[test]
fn values_are_equal_as_numbers() {
    let same = |a: f64, b: f64| FloatBits(a.to_bits()) == FloatBits(b.to_bits());
    for (a, b) in [
        (0.0, -0.0),
        (1.5, 1.5),
        (1.5, 2.5),
        (f64::NAN, f64::NAN),
        (f64::INFINITY, f64::INFINITY),
        (f64::INFINITY, f64::NEG_INFINITY),
        (f64::MIN_POSITIVE, 0.0),
    ] {
        assert_eq!(same(a, b), a == b, "{a} and {b}");
    }
}
