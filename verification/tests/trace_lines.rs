//! Traces: recording, reading back, and taking apart.
use cdflib::float::F64;
use cdflib::search::dinvr::{InvrConfig, InvrState};
use cdflib::search::dzror::{ZrorConfig, ZrorState};
use cdflib::trace::record::{record_dinvr, record_dstinv, record_dstzr, record_dzror, Event};
use cdflib::trace::replay::{collect_eval_steps, extract_dzror_eval, read_cases, read_text, CaseError, EvalStep};
use cdflib::trace::text::{hex, integer, is_space, parse_bits, parse_number, trim};
use cdflib::trace::{bit, capture, parse_fields, parse_trace_line, push, Sink, TraceLine};

fn fl(x: f64) -> F64 {
    F64 { bits: x.to_bits() }
}

fn zror_config() -> ZrorConfig {
    ZrorConfig { xlo: fl(0.0), xhi: fl(1.0), abstol: fl(1e-50), reltol: fl(1e-8) }
}

fn invr_config() -> InvrConfig {
    InvrConfig {
        small: fl(0.0),
        big: fl(10.0),
        abs_step: fl(0.5),
        rel_step: fl(0.5),
        stp_mul: fl(5.0),
        abs_tol: fl(1e-50),
        rel_tol: fl(1e-8),
    }
}

fn event() -> Event {
    Event { event: 1, stage: 2, status: -3, x: fl(1.5), fx: fl(-2.0), qleft: true, qhi: false }
}

fn value(line: &TraceLine, key: &str) -> Option<String> {
    line.fields.get(key).map(|s| s.clone())
}

fn parsed(line: &str) -> TraceLine {
    parse_trace_line(line).unwrap()
}

#[test]
fn bits_are_digits() {
    assert_eq!(bit(true), 1);
    assert_eq!(bit(false), 0);
}

#[test]
fn hex_writes_sixteen_digits() {
    assert_eq!(hex(fl(1.0)), "3FF0000000000000");
    assert_eq!(hex(fl(-0.1)), "BFB999999999999A");
    assert_eq!(hex(fl(0.0)), "0000000000000000");
}

#[test]
fn hex_reads_back() {
    for x in [0.0, -0.0, 1.0, -1.5, 1e300, 5e-324, f64::INFINITY] {
        assert_eq!(parse_bits(&hex(fl(x))), Some(fl(x)));
    }
    assert_eq!(parse_bits("  3ff0000000000000\t"), Some(fl(1.0)));
    assert_eq!(parse_bits("3ff000000000000"), None);
    assert_eq!(parse_bits("3ff000000000000g"), None);
    assert_eq!(parse_bits("1.0"), None);
}

#[test]
fn integers_are_decimal() {
    assert_eq!(integer(0), "0");
    assert_eq!(integer(-7), "-7");
    assert_eq!(integer(i32::MAX), "2147483647");
    assert_eq!(integer(i32::MIN), "-2147483648");
}

#[test]
fn space_is_as_the_standard_library_has_it() {
    for c in 0..=0x3100u32 {
        if let Some(c) = char::from_u32(c) {
            assert_eq!(is_space(c), c.is_whitespace(), "{c:?}");
        }
    }
    assert_eq!(trim(" \u{2003}a b\n"), "a b");
    assert_eq!(trim(" \t"), "");
}

#[test]
fn push_does_nothing_outside_a_capture() {
    let mut sink = Sink::idle();
    push(&mut sink, String::from("lost"));
    assert!(sink.lines.is_empty());
    assert!(!sink.capturing);
}

#[test]
fn capture_returns_the_lines_pushed() {
    let outer = Sink::idle();
    let (value, lines) = capture(&outer, |mut sink: Sink| {
        push(&mut sink, String::from("one"));
        push(&mut sink, String::from("two"));
        (42, sink)
    });
    assert_eq!(value, 42);
    assert_eq!(lines, vec![String::from("one"), String::from("two")]);
}

#[test]
fn fields_are_trimmed_and_later_ones_win() {
    let f = parse_fields(" id = 7 ,k=a=b,id=8").unwrap();
    assert_eq!(f.get("id").unwrap(), "8");
    assert_eq!(f.get("k").unwrap(), "a=b");
    assert!(f.get("x").is_none());
    assert!(parse_fields("id=1,oops").is_none());
    assert!(parse_fields("").is_none());
}

#[test]
fn lines_have_a_tag_and_fields() {
    let l = parsed("dzror|event=1|x= 2 |y=");
    assert_eq!(l.tag, "dzror");
    assert_eq!(value(&l, "event").unwrap(), "1");
    assert_eq!(value(&l, "x").unwrap(), " 2 ");
    assert_eq!(value(&l, "y").unwrap(), "");
    assert!(value(&l, "z").is_none());
    assert_eq!(parsed("alone").tag, "alone");
    assert!(parse_trace_line("tag|bad").is_none());
    assert!(parse_trace_line("tag|").is_none());
}

#[test]
fn set_up_lines_read_back() {
    let mut sink = Sink { capturing: true, lines: Vec::new() };
    record_dstzr(&mut sink, &zror_config());
    record_dstinv(&mut sink, &invr_config());
    assert_eq!(
        sink.lines[0],
        "dstzr|xlo=0000000000000000|xhi=3FF0000000000000|abs_tol=358DEE7A4AD4B81F|rel_tol=3E45798EE2308C3A"
    );
    let l = parsed(&sink.lines[1]);
    assert_eq!(l.tag, "dstinv");
    assert_eq!(value(&l, "big").unwrap(), hex(fl(10.0)));
    assert_eq!(value(&l, "stp_mul").unwrap(), hex(fl(5.0)));
    assert_eq!(value(&l, "rel_tol").unwrap(), hex(fl(1e-8)));
}

#[test]
fn event_lines_read_back() {
    let mut sink = Sink { capturing: true, lines: Vec::new() };
    let s = InvrState::new(invr_config(), fl(3.0));
    let z = ZrorState::new(zror_config());
    record_dinvr(&mut sink, &event(), &s);
    record_dzror(&mut sink, &event(), &z);
    let l = parsed(&sink.lines[0]);
    assert_eq!(l.tag, "dinvr");
    assert_eq!(value(&l, "status").unwrap(), "-3");
    assert_eq!(value(&l, "qleft").unwrap(), "1");
    assert_eq!(value(&l, "qhi").unwrap(), "0");
    assert_eq!(value(&l, "xsave").unwrap(), hex(fl(3.0)));
    let l = parsed(&sink.lines[1]);
    assert_eq!(l.tag, "dzror");
    assert_eq!(value(&l, "fx").unwrap(), hex(fl(-2.0)));
    assert_eq!(value(&l, "ext").unwrap(), "0");
    assert_eq!(value(&l, "first").unwrap(), "1");
}

fn decimal(raw: &str) -> Option<F64> {
    raw.parse::<f64>().ok().map(fl)
}

fn eval_line(tag: &str, fields: &[(&str, String)]) -> TraceLine {
    let mut text = String::from(tag);
    for (k, v) in fields {
        text.push_str(&format!("|{k}={v}"));
    }
    parsed(&text)
}

#[test]
fn evaluations_are_collected() {
    let one = String::from("1");
    let lines = vec![
        eval_line("dstinv", &[]),
        eval_line("dinvr", &[("event", one.clone()), ("x", hex(fl(0.0)))]),
        eval_line("dinvr", &[("event", one.clone()), ("x", hex(fl(10.0))), ("fx", hex(fl(-8.0)))]),
        eval_line("dinvr", &[("event", String::from("2")), ("fx", hex(fl(92.0)))]),
    ];
    assert_eq!(
        collect_eval_steps(&decimal, &lines).unwrap(),
        vec![EvalStep { x: fl(0.0), fx: fl(-8.0) }, EvalStep { x: fl(10.0), fx: fl(92.0) }]
    );
    let cut = vec![eval_line("dinvr", &[("event", one.clone()), ("x", hex(fl(0.0)))])];
    assert!(collect_eval_steps(&decimal, &cut).is_none());
}

#[test]
fn handed_over_evaluations_are_found() {
    let one = String::from("1");
    let make = |x: f64| {
        vec![
            eval_line("dinvr", &[("event", one.clone()), ("x", hex(fl(x)))]),
            eval_line("dstzr", &[]),
            eval_line("dzror", &[("event", String::from("0")), ("stage", one.clone()), ("x", hex(fl(1.0)))]),
            eval_line(
                "dzror",
                &[("event", String::from("0")), ("stage", String::from("2")), ("x", hex(fl(2.0))), ("fx", hex(fl(-1.0)))],
            ),
            eval_line("dzror", &[("event", String::from("0")), ("a", hex(fl(2.0))), ("fa", hex(fl(7.0)))]),
        ]
    };
    assert_eq!(collect_eval_steps(&decimal, &make(1.0)).unwrap(), vec![EvalStep { x: fl(1.0), fx: fl(-1.0) }]);
    assert_eq!(collect_eval_steps(&decimal, &make(2.0)).unwrap(), vec![EvalStep { x: fl(2.0), fx: fl(7.0) }]);
    assert!(collect_eval_steps(&decimal, &make(3.0)).is_none());
}

#[test]
fn slots_must_agree() {
    let x = fl(2.0);
    let l = eval_line("dzror", &[("a", hex(x)), ("fa", hex(fl(1.0))), ("c", hex(x)), ("fc", hex(fl(1.0)))]);
    assert_eq!(extract_dzror_eval(&decimal, x, &l), Some(fl(1.0)));
    let l = eval_line("dzror", &[("a", hex(x)), ("fa", hex(fl(1.0))), ("c", hex(x)), ("fc", hex(fl(3.0)))]);
    assert_eq!(extract_dzror_eval(&decimal, x, &l), None);
    let l = eval_line("dzror", &[("a", hex(fl(9.0))), ("fa", hex(fl(1.0)))]);
    assert_eq!(extract_dzror_eval(&decimal, x, &l), None);
}

fn texts(lines: &[&str]) -> Vec<String> {
    lines.iter().map(|s| String::from(*s)).collect()
}

#[test]
fn cases_are_told_apart() {
    let cases = read_cases(&texts(&["", "case,id=a", " l1 ", "l2", "end,id=a", "case,id=b", "end, id = b "])).unwrap();
    assert_eq!(cases.len(), 2);
    assert_eq!(cases[0].id, "a");
    assert_eq!(cases[0].lines, texts(&["l1", "l2"]));
    assert_eq!(cases[1].id, "b");
    assert!(cases[1].lines.is_empty());
}

#[test]
fn malformed_cases_are_refused() {
    let fails = |lines: &[&str]| read_cases(&texts(lines)).unwrap_err();
    assert_eq!(fails(&["case,id=a", "case,id=b"]), CaseError::Nested);
    assert_eq!(fails(&["end,id=a"]), CaseError::EndWithoutCase);
    assert_eq!(fails(&["case,id=a", "end,id=b"]), CaseError::MismatchedId);
    assert_eq!(fails(&["stray"]), CaseError::LineOutsideCase);
    assert_eq!(fails(&["case,id=a"]), CaseError::Unterminated);
    assert_eq!(fails(&["case,name=a"]), CaseError::BadFields);
    assert_eq!(fails(&["case,oops"]), CaseError::BadFields);
}

#[test]
fn decimal_numbers_are_read() {
    let lines = vec![parsed("dinvr|event=1|x=0.5|fx=9.0"), parsed("dinvr|event=2|x=0.5|fx=-3.0")];
    assert_eq!(collect_eval_steps(&decimal, &lines).unwrap(), vec![EvalStep { x: fl(0.5), fx: fl(-3.0) }]);
    let bad = vec![parsed("dinvr|event=1|x=0.5"), parsed("dinvr|event=2|fx=three")];
    assert!(collect_eval_steps(&decimal, &bad).is_none());
    let l = parsed("dzror|a=0.5|fa=9.0|b=3FE0000000000000|fb= 9 |c=1e3|fc=2");
    assert_eq!(extract_dzror_eval(&decimal, fl(0.5), &l), Some(fl(9.0)));
    assert_eq!(extract_dzror_eval(&decimal, fl(1000.0), &l), Some(fl(2.0)));
    assert_eq!(extract_dzror_eval(&decimal, fl(7.0), &l), None);
    assert_eq!(parse_number(&decimal, " 3ff0000000000000 "), Some(fl(1.0)));
    assert_eq!(parse_number(&decimal, " 1.25e2\t"), Some(fl(125.0)));
    assert_eq!(parse_number(&decimal, "0000000000000001"), Some(fl(5e-324)));
    assert_eq!(parse_number(&decimal, "x"), None);
}

#[test]
fn text_is_cut_into_lines() {
    let cases = read_text("case,id=a\r\n  dinvr|x=1  \n\nend, id = a\ncase,id=b\nend,id=b").unwrap();
    assert_eq!(cases.len(), 2);
    assert_eq!((cases[0].id.as_str(), cases[0].lines.as_slice()), ("a", [String::from("dinvr|x=1")].as_slice()));
    assert_eq!((cases[1].id.as_str(), cases[1].lines.len()), ("b", 0));
    assert!(read_text("").unwrap().is_empty());
    assert_eq!(read_text("case,id=a\n").unwrap_err(), CaseError::Unterminated);
    assert_eq!(read_text("end,id=a").unwrap_err(), CaseError::EndWithoutCase);
}
