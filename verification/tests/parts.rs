use log4rs_guide::event::{Event, Timestamp};
use log4rs_guide::filter::{passes_chain, run_chain, Filter, Verdict};
use log4rs_guide::layout::{append_piece, append_time, Piece};
use log4rs_guide::level::Level;
use log4rs_guide::pattern::field_for;
use log4rs_guide::record::find_dash;
use log4rs_guide::text::{append_bytes, append_number, append_padded, copy_bytes, find_byte};

fn event(level: Level, target: &str) -> Event {
    Event::new(level, target.as_bytes().to_vec(), b"m".to_vec(), Timestamp { micros: 61_000_007 })
        .with_field(b"user".to_vec(), b"ann".to_vec())
        .with_field(b"id".to_vec(), b"1".to_vec())
        .with_field(b"user".to_vec(), b"bob".to_vec())
}

#[test]
fn numbers_are_written_in_decimal() {
    let mut out = b">".to_vec();
    append_number(&mut out, 0);
    append_bytes(&mut out, b",");
    append_number(&mut out, 9);
    append_bytes(&mut out, b",");
    append_number(&mut out, 10);
    append_bytes(&mut out, b",");
    append_number(&mut out, 1234567890);
    append_bytes(&mut out, b",");
    append_number(&mut out, u64::MAX);
    assert_eq!(out, b">0,9,10,1234567890,18446744073709551615".to_vec());
}

#[test]
fn padded_numbers_keep_their_lowest_digits() {
    let mut out = Vec::new();
    append_padded(&mut out, 7, 3);
    append_bytes(&mut out, b" ");
    append_padded(&mut out, 12345, 3);
    append_bytes(&mut out, b" ");
    append_padded(&mut out, 0, 6);
    append_bytes(&mut out, b" ");
    append_padded(&mut out, 99, 0);
    append_bytes(&mut out, b"|");
    assert_eq!(out, b"007 345 000000 |".to_vec());
}

#[test]
fn bytes_are_found_and_copied() {
    assert_eq!(find_byte(b"a b c", b' ', 0), 1);
    assert_eq!(find_byte(b"a b c", b' ', 1), 1);
    assert_eq!(find_byte(b"a b c", b' ', 2), 3);
    assert_eq!(find_byte(b"a b c", b' ', 4), 5);
    assert_eq!(find_byte(b"a b c", b'x', 0), 5);
    assert_eq!(find_byte(b"a b c", b'a', 9), 5);
    assert_eq!(find_byte(b"", b'a', 0), 0);
    assert_eq!(copy_bytes(b"abc"), b"abc".to_vec());
    assert_eq!(copy_bytes(b""), Vec::<u8>::new());
}

#[test]
fn the_dash_is_found_with_its_two_spaces() {
    assert_eq!(find_dash(b"a - b", 0), 1);
    assert_eq!(find_dash(b"a - b - c", 2), 5);
    assert_eq!(find_dash(b"a-b -c - ", 0), 6);
    assert_eq!(find_dash(b"a - b", 2), 5);
    assert_eq!(find_dash(b" -", 0), 2);
    assert_eq!(find_dash(b"", 0), 0);
    assert_eq!(find_dash(b" - ", 7), 3);
}

#[test]
fn a_time_is_seconds_and_microseconds() {
    let mut out = b"at ".to_vec();
    append_time(&mut out, Timestamp { micros: 61_000_007 });
    assert_eq!(out, b"at 61.000007".to_vec());
}

#[test]
fn each_piece_gives_its_text() {
    let e = event(Level::Warn, "svc::db").at(b"svc::db::pool".to_vec(), b"pool.rs".to_vec(), 0);
    let pieces = vec![
        (Piece::Text(b"lit".to_vec()), "lit"),
        (Piece::Time, "61.000007"),
        (Piece::Level, "WARN"),
        (Piece::Target, "svc::db"),
        (Piece::Message, "m"),
        (Piece::Module, "svc::db::pool"),
        (Piece::File, "pool.rs"),
        (Piece::Line, "0"),
        (Piece::Meta(b"user".to_vec()), "ann"),
        (Piece::Meta(b"id".to_vec()), "1"),
        (Piece::Meta(b"none".to_vec()), ""),
        (Piece::Newline, "\n"),
    ];
    for (piece, want) in pieces {
        let mut out = b"<".to_vec();
        append_piece(&mut out, &piece, &e);
        assert_eq!(out, [b"<", want.as_bytes()].concat());
    }
}

#[test]
fn the_first_field_with_a_key_is_found() {
    let e = event(Level::Info, "t");
    assert_eq!(e.find_key(b"user"), Some(0));
    assert_eq!(e.find_key(b"id"), Some(1));
    assert_eq!(e.find_key(b"use"), None);
    assert_eq!(e.find_key(b""), None);
}

#[test]
fn field_names_are_single_letters_or_a_key() {
    assert!(matches!(field_for(b"d"), Some(Piece::Time)));
    assert!(matches!(field_for(b"l"), Some(Piece::Level)));
    assert!(matches!(field_for(b"t"), Some(Piece::Target)));
    assert!(matches!(field_for(b"m"), Some(Piece::Message)));
    assert!(matches!(field_for(b"M"), Some(Piece::Module)));
    assert!(matches!(field_for(b"f"), Some(Piece::File)));
    assert!(matches!(field_for(b"L"), Some(Piece::Line)));
    assert!(matches!(field_for(b"n"), Some(Piece::Newline)));
    assert!(matches!(field_for(b"X(key)"), Some(Piece::Meta(k)) if k == b"key"));
    assert!(matches!(field_for(b"X()"), Some(Piece::Meta(k)) if k.is_empty()));
    assert!(field_for(b"").is_none());
    assert!(field_for(b"D").is_none());
    assert!(field_for(b"dl").is_none());
    assert!(field_for(b"X(").is_none());
    assert!(field_for(b"Y(k)").is_none());
    assert!(field_for(b"X[k)").is_none());
}

#[test]
fn each_kind_of_filter_looks_at_its_own_aspect() {
    let warn = event(Level::Warn, "svc::db");
    let threshold = Filter::Threshold { level: Level::Warn };
    assert_eq!(threshold.decide(&warn), Verdict::Neutral);
    assert_eq!(threshold.decide(&event(Level::Error, "x")), Verdict::Neutral);
    assert_eq!(threshold.decide(&event(Level::Info, "x")), Verdict::Reject);
    let exact = Filter::Exact { level: Level::Warn, on_match: Verdict::Accept, on_mismatch: Verdict::Reject };
    assert_eq!(exact.decide(&warn), Verdict::Accept);
    assert_eq!(exact.decide(&event(Level::Error, "x")), Verdict::Reject);
    let subtree = Filter::Subtree { name: b"svc".to_vec(), on_match: Verdict::Reject, on_mismatch: Verdict::Neutral };
    assert_eq!(subtree.decide(&warn), Verdict::Reject);
    assert_eq!(subtree.decide(&event(Level::Warn, "svc")), Verdict::Reject);
    assert_eq!(subtree.decide(&event(Level::Warn, "svcs::db")), Verdict::Neutral);
    let keyed = Filter::HasKey { key: b"id".to_vec(), on_match: Verdict::Neutral, on_mismatch: Verdict::Reject };
    assert_eq!(keyed.decide(&warn), Verdict::Neutral);
    assert_eq!(
        keyed.decide(&Event::new(Level::Warn, b"t".to_vec(), b"m".to_vec(), Timestamp { micros: 0 })),
        Verdict::Reject
    );
}

#[test]
fn a_chain_stops_at_the_first_verdict() {
    let e = event(Level::Info, "svc::db");
    let deny_unless_allowed = vec![
        Filter::Subtree { name: b"svc".to_vec(), on_match: Verdict::Accept, on_mismatch: Verdict::Neutral },
        Filter::Threshold { level: Level::Error },
    ];
    assert_eq!(run_chain(&deny_unless_allowed, &e), Verdict::Accept);
    assert!(passes_chain(&deny_unless_allowed, &e));
    assert_eq!(run_chain(&deny_unless_allowed, &event(Level::Info, "other")), Verdict::Reject);
    assert!(!passes_chain(&deny_unless_allowed, &event(Level::Info, "other")));
    let abstaining = vec![Filter::Threshold { level: Level::Trace }, Filter::Threshold { level: Level::Debug }];
    assert_eq!(run_chain(&abstaining, &e), Verdict::Neutral);
    assert!(passes_chain(&abstaining, &e));
    assert_eq!(run_chain(&vec![], &e), Verdict::Neutral);
    assert!(passes_chain(&vec![], &e));
}
