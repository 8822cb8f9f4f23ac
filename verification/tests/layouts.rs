use log4rs_guide::event::{Event, Timestamp};
use log4rs_guide::layout::{EncodeError, Layout, Piece};
use log4rs_guide::level::Level;
use log4rs_guide::pattern::{parse, PatternError};
use log4rs_guide::record::parse_record;
use log4rs_guide::written::pattern_text;

fn event(level: Level, target: &str, message: &str, micros: u64) -> Event {
    Event::new(level, target.as_bytes().to_vec(), message.as_bytes().to_vec(), Timestamp { micros })
}

fn text(record: Vec<u8>) -> String {
    String::from_utf8(record).unwrap()
}

#[test]
fn the_standard_layout_has_four_columns() {
    let e = event(Level::Warn, "log4rs_guide::foo::bar", "This is a warning message from bar.", 5);
    assert_eq!(
        text(Layout::standard().render(&e)),
        "0.000005 WARN log4rs_guide::foo::bar - This is a warning message from bar.\n"
    );
}

#[test]
fn times_are_seconds_a_dot_and_six_digits() {
    let layout = parse(b"{d}").unwrap();
    assert_eq!(text(layout.render(&event(Level::Info, "t", "m", 0))), "0.000000\n");
    assert_eq!(text(layout.render(&event(Level::Info, "t", "m", 999_999))), "0.999999\n");
    assert_eq!(text(layout.render(&event(Level::Info, "t", "m", 1_000_000))), "1.000000\n");
    assert_eq!(
        text(layout.render(&event(Level::Info, "t", "m", 1_619_566_647_190_275))),
        "1619566647.190275\n"
    );
    assert_eq!(
        text(layout.render(&event(Level::Info, "t", "m", u64::MAX))),
        "18446744073709.551615\n"
    );
}

#[test]
fn the_standard_pattern_is_the_standard_layout() {
    let e = event(Level::Error, "a::b", "it {broke}", 1_234_567);
    let parsed = parse(b"{d} {l} {t} - {m}").unwrap();
    assert_eq!(parsed.render(&e), Layout::standard().render(&e));
    assert_eq!(text(parsed.render(&e)), "1.234567 ERROR a::b - it {broke}\n");
}

#[test]
fn a_pattern_picks_and_orders_fields() {
    let e = event(Level::Debug, "svc", "msg", 0)
        .at(b"svc::io".to_vec(), b"src/io.rs".to_vec(), 42)
        .with_field(b"user".to_vec(), b"ann".to_vec())
        .with_field(b"user".to_vec(), b"bob".to_vec());
    let layout = parse(b"[{l}] {{{m}}} {M} {f}:{L} user={X(user)} none={X(nobody)}{n}--").unwrap();
    assert_eq!(
        text(layout.render(&e)),
        "[DEBUG] {msg} svc::io src/io.rs:42 user=ann none=\n--\n"
    );
}

#[test]
fn literal_bytes_are_joined_into_one_piece() {
    let layout = parse(b"ab{{c}}{m}d").unwrap();
    assert_eq!(layout.pieces.len(), 3);
    assert!(matches!(&layout.pieces[0], Piece::Text(t) if t == b"ab{c}"));
    assert!(matches!(&layout.pieces[1], Piece::Message));
    assert!(matches!(&layout.pieces[2], Piece::Text(t) if t == b"d"));
    assert_eq!(parse(b"").unwrap().pieces.len(), 0);
}

#[test]
fn each_pattern_fault_is_reported_where_it_stands() {
    assert_eq!(parse(b"ab{m").err(), Some(PatternError::Unterminated { at: 2 }));
    assert_eq!(parse(b"{").err(), Some(PatternError::Unterminated { at: 0 }));
    assert_eq!(parse(b"a{q}").err(), Some(PatternError::UnknownField { at: 1 }));
    assert_eq!(parse(b"{}").err(), Some(PatternError::UnknownField { at: 0 }));
    assert_eq!(parse(b"{X(k}").err(), Some(PatternError::UnknownField { at: 0 }));
    assert_eq!(parse(b"x}y").err(), Some(PatternError::StrayClose { at: 1 }));
    assert_eq!(parse(b"{m}}").err(), Some(PatternError::StrayClose { at: 3 }));
}

#[test]
fn a_record_beyond_the_limit_becomes_the_placeholder() {
    let e = event(Level::Info, "t", "0123456789", 0);
    let wide = Layout::standard().with_limit(31);
    assert_eq!(text(wide.clone().encode(&e).unwrap()), "0.000000 INFO t - 0123456789\n");
    let exact = Layout::standard().with_limit(29);
    assert_eq!(exact.encode(&e).unwrap().len(), 29);
    assert_eq!(exact.encode_or_placeholder(&e).len(), 29);
    let narrow = Layout::standard().with_limit(28);
    assert_eq!(narrow.encode(&e), Err(EncodeError::TooLong { len: 29, limit: 28 }));
    assert_eq!(text(narrow.encode_or_placeholder(&e)), "<record too long>\n");
}

#[test]
fn messages_pass_through_untouched() {
    let e = Event::new(Level::Info, b"t".to_vec(), vec![0, 255, b'{', b'}', b'\n', b' '], Timestamp { micros: 0 });
    let out = Layout::standard().render(&e);
    assert_eq!(out, [b"0.000000 INFO t - ".as_slice(), &[0, 255, b'{', b'}', b'\n', b' ', b'\n']].concat());
}

#[test]
fn a_standard_record_reads_back() {
    for level in [Level::Trace, Level::Debug, Level::Info, Level::Warn, Level::Error] {
        let e = event(level, "a.b::c", "x - y  z", 77);
        let r = parse_record(&Layout::standard().render(&e)).unwrap();
        assert_eq!(r.time, b"0.000077".to_vec());
        assert_eq!(r.level, level);
        assert_eq!(r.target, b"a.b::c".to_vec());
        assert_eq!(r.message, b"x - y  z".to_vec());
    }
    let empty = event(Level::Info, "", "", 0);
    let r = parse_record(&Layout::standard().render(&empty)).unwrap();
    assert_eq!(r.target, Vec::<u8>::new());
    assert_eq!(r.message, Vec::<u8>::new());
}

#[test]
fn a_target_with_spaces_but_no_dash_reads_back() {
    for target in ["a b", " a", "a ", "a -b", "a- b", "-", " "] {
        let e = event(Level::Info, target, "m - n", 0);
        let r = parse_record(&Layout::standard().render(&e)).unwrap();
        assert_eq!(r.target, target.as_bytes().to_vec());
        assert_eq!(r.message, b"m - n".to_vec());
    }
}

#[test]
fn a_target_that_ends_like_a_dash_does_not_read_back() {
    let e = event(Level::Info, "a -", "m", 0);
    let r = parse_record(&Layout::standard().render(&e)).unwrap();
    assert_eq!(r.target, b"a".to_vec());
    assert_eq!(r.message, b"- m".to_vec());
}

#[test]
fn a_target_with_a_dash_does_not_read_back() {
    let e = event(Level::Info, "a - b", "m", 0);
    let r = parse_record(&Layout::standard().render(&e)).unwrap();
    assert_eq!(r.target, b"a".to_vec());
    assert_eq!(r.message, b"b - m".to_vec());
}

#[test]
fn what_is_no_standard_record_is_refused() {
    assert!(parse_record(b"").is_none());
    assert!(parse_record(b"\n").is_none());
    assert!(parse_record(b"1.0 INFO t - m").is_none());
    assert!(parse_record(b"1.0 INFO t - m\nmore\n").is_none());
    assert!(parse_record(b"1.0 NOTE t - m\n").is_none());
    assert!(parse_record(b"1.0 INFO t-m\n").is_none());
    assert!(parse_record(b"1.0 INFO\n").is_none());
    assert!(parse_record(b"1.0 INFO t - \n").is_some());
}

#[test]
fn the_standard_layout_is_written_as_the_standard_pattern() {
    assert_eq!(pattern_text(&Layout::standard()), b"{d} {l} {t} - {m}".to_vec());
}

#[test]
fn a_pattern_that_was_read_is_written_back() {
    for pattern in [
        "",
        "plain text",
        "{d}{l}{t}{m}{M}{f}{L}{n}",
        "[{l}] {{braces}} {X(request id)}{X()} - {m}{n}",
        "}}{{}}{{",
        "{X(a(b)c)}",
    ] {
        let layout = parse(pattern.as_bytes()).unwrap();
        assert_eq!(text(pattern_text(&layout)), pattern);
    }
}

#[test]
fn braces_in_text_are_written_twice() {
    let layout = Layout {
        pieces: vec![Piece::Text(b"a{b}".to_vec()), Piece::Meta(b"k".to_vec()), Piece::Text(b"}".to_vec())],
        limit: None,
    };
    assert_eq!(text(pattern_text(&layout)), "a{{b}}{X(k)}}}");
    let back = parse(&pattern_text(&layout)).unwrap();
    assert_eq!(back.pieces.len(), 3);
    assert!(matches!(&back.pieces[0], Piece::Text(t) if t == b"a{b}"));
    assert!(matches!(&back.pieces[1], Piece::Meta(k) if k == b"k"));
    assert!(matches!(&back.pieces[2], Piece::Text(t) if t == b"}"));
}
