use log4rs_guide::appender::{Appender, Destination, Stream};
use log4rs_guide::dispatch::Gate;
use log4rs_guide::engine::Engine;
use log4rs_guide::event::Timestamp;
use log4rs_guide::layout::Layout;
use log4rs_guide::level::Level;
use log4rs_guide::sample::{emit_series, message_of, Emitted};
use log4rs_guide::snapshot::{Config, LoggerConfig, RootConfig};
use log4rs_guide::{fee, foo};

fn engine(root: Level, loggers: Vec<LoggerConfig>) -> Engine {
    Engine::new(Config {
        appenders: vec![Appender {
            name: b"log".to_vec(),
            destination: Destination::Console { stream: Stream::Stdout },
            layout: Layout::standard(),
            writable: true,
        }],
        root: RootConfig { level: root, appenders: vec![b"log".to_vec()] },
        loggers,
        filters: vec![],
    })
    .unwrap()
}

fn lines(out: &[Emitted]) -> Vec<String> {
    let mut lines = Vec::new();
    for emitted in out {
        let mut i = 0;
        while let Some(d) = emitted.dispatch.delivery(i) {
            lines.push(String::from_utf8(d.record.clone()).unwrap());
            i += 1;
        }
    }
    lines
}

#[test]
fn messages_are_signed_by_their_sender() {
    assert_eq!(message_of(Level::Info, b""), b"This is an info message.".to_vec());
    assert_eq!(message_of(Level::Error, b""), b"This is an error message.".to_vec());
    assert_eq!(message_of(Level::Warn, b"bar"), b"This is a warning message from bar.".to_vec());
    assert_eq!(message_of(Level::Debug, b"fi"), b"This is a debug message from fi.".to_vec());
    assert_eq!(message_of(Level::Trace, b"fum"), b"This is a trace message from fum.".to_vec());
}

#[test]
fn a_series_is_info_error_warning_debug_trace() {
    let mut e = engine(Level::Trace, vec![]);
    let out = emit_series(&mut e, b"some::where", b"me", Timestamp { micros: 2_500_000 });
    assert_eq!(
        lines(&out),
        vec![
            "2.500000 INFO some::where - This is an info message from me.\n",
            "2.500000 ERROR some::where - This is an error message from me.\n",
            "2.500000 WARN some::where - This is a warning message from me.\n",
            "2.500000 DEBUG some::where - This is a debug message from me.\n",
            "2.500000 TRACE some::where - This is a trace message from me.\n",
        ]
    );
    let levels: Vec<Level> = out.iter().map(|x| x.event.level).collect();
    assert_eq!(levels, vec![Level::Info, Level::Error, Level::Warn, Level::Debug, Level::Trace]);
}

#[test]
fn at_debug_the_trace_events_are_dropped() {
    let mut e = engine(Level::Debug, vec![]);
    let out = log4rs_guide::test_logging(&mut e, Timestamp { micros: 0 });
    assert_eq!(out.len(), 25);
    let lines = lines(&out);
    assert_eq!(lines.len(), 20);
    assert_eq!(lines[0], "0.000000 INFO log4rs_guide - This is an info message.\n");
    assert_eq!(lines[1], "0.000000 ERROR log4rs_guide - This is an error message.\n");
    assert_eq!(lines[2], "0.000000 WARN log4rs_guide - This is a warning message.\n");
    assert_eq!(lines[3], "0.000000 DEBUG log4rs_guide - This is a debug message.\n");
    assert_eq!(lines[4], "0.000000 INFO log4rs_guide::foo::bar - This is an info message from bar.\n");
    assert_eq!(lines[8], "0.000000 INFO log4rs_guide::foo::baz - This is an info message from baz.\n");
    assert_eq!(lines[12], "0.000000 INFO log4rs_guide::fee::fi - This is an info message from fi.\n");
    assert_eq!(
        lines[19],
        "0.000000 DEBUG log4rs_guide::fee::fi::fo::fum - This is a debug message from fum.\n"
    );
    for emitted in &out {
        let dropped = emitted.event.level == Level::Trace;
        assert_eq!(emitted.dispatch.gate() == Gate::DroppedByLevel, dropped);
    }
}

#[test]
fn at_trace_every_event_is_written() {
    let mut e = engine(Level::Trace, vec![]);
    let out = log4rs_guide::test_logging(&mut e, Timestamp { micros: 0 });
    assert_eq!(lines(&out).len(), 25);
    assert_eq!(lines(&out)[4], "0.000000 TRACE log4rs_guide - This is a trace message.\n");
}

#[test]
fn at_error_only_the_errors_are_written() {
    let mut e = engine(Level::Error, vec![]);
    let out = log4rs_guide::test_logging(&mut e, Timestamp { micros: 0 });
    let lines = lines(&out);
    assert_eq!(lines.len(), 5);
    assert!(lines.iter().all(|l| l.contains(" ERROR ")));
}

#[test]
fn each_sender_logs_for_its_own_target() {
    let loggers = vec![
        LoggerConfig { name: b"log4rs_guide::foo".to_vec(), level: Some(Level::Error), appenders: None, additive: true },
        LoggerConfig { name: b"log4rs_guide::fee::fi".to_vec(), level: Some(Level::Trace), appenders: None, additive: true },
        LoggerConfig { name: b"log4rs_guide::fee::fi::fo".to_vec(), level: Some(Level::Warn), appenders: None, additive: true },
    ];
    let mut e = engine(Level::Info, loggers);
    let now = Timestamp { micros: 0 };
    assert_eq!(lines(&foo::bar::test_logging(&mut e, now)).len(), 1);
    assert_eq!(lines(&foo::baz::test_logging(&mut e, now)).len(), 1);
    assert_eq!(lines(&fee::fi::test_logging(&mut e, now)).len(), 5);
    assert_eq!(lines(&fee::fi::fo::fum::test_logging(&mut e, now)).len(), 2);
    let bar = foo::bar::test_logging(&mut e, now);
    assert_eq!(bar[0].event.target, b"log4rs_guide::foo::bar".to_vec());
    assert_eq!(bar[1].event.message, b"This is an error message from bar.".to_vec());
    let fum = fee::fi::fo::fum::test_logging(&mut e, now);
    assert_eq!(fum[4].event.target, b"log4rs_guide::fee::fi::fo::fum".to_vec());
    assert_eq!(fum[4].event.message, b"This is a trace message from fum.".to_vec());
}

#[test]
fn what_was_resolved_before_a_reload_is_not_used_after_it() {
    let mut e = engine(Level::Error, vec![]);
    let now = Timestamp { micros: 0 };
    assert_eq!(lines(&foo::bar::test_logging(&mut e, now)).len(), 1);
    assert_eq!(lines(&foo::bar::test_logging(&mut e, now)).len(), 1);
    let next = Config {
        appenders: vec![
            Appender {
                name: b"a".to_vec(),
                destination: Destination::Console { stream: Stream::Stdout },
                layout: Layout::standard(),
                writable: true,
            },
            Appender {
                name: b"b".to_vec(),
                destination: Destination::Console { stream: Stream::Stderr },
                layout: Layout::standard(),
                writable: true,
            },
        ],
        root: RootConfig { level: Level::Warn, appenders: vec![b"a".to_vec(), b"b".to_vec()] },
        loggers: vec![],
        filters: vec![],
    };
    e.reload(next).unwrap();
    let out = foo::bar::test_logging(&mut e, now);
    assert_eq!(lines(&out).len(), 4);
    assert!(out.iter().all(|x| x.dispatch.stamp() == 1));
}
