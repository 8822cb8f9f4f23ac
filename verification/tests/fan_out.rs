use log4rs_guide::appender::{AppendError, Appender, Destination, Stream};
use log4rs_guide::dispatch::{Delivery, Dispatch, Gate, Phase};
use log4rs_guide::engine::Engine;
use log4rs_guide::event::{Event, Timestamp};
use log4rs_guide::fanout::fan_out;
use log4rs_guide::filter::{combine, Verdict};
use log4rs_guide::layout::Layout;
use log4rs_guide::level::Level;
use log4rs_guide::queue::Queue;
use log4rs_guide::snapshot::{Config, RootConfig, Snapshot};
use log4rs_guide::wrap::sink;

fn appender(name: &str, destination: Destination) -> Appender {
    Appender { name: name.as_bytes().to_vec(), destination, layout: Layout::standard(), writable: true }
}

fn three_consoles() -> Config {
    Config {
        appenders: vec![
            appender("first", Destination::Console { stream: Stream::Stdout }),
            appender("second", Destination::Console { stream: Stream::Stdout }),
            appender("third", Destination::Console { stream: Stream::Stderr }),
        ],
        root: RootConfig {
            level: Level::Trace,
            appenders: vec![b"first".to_vec(), b"second".to_vec(), b"third".to_vec()],
        },
        loggers: vec![],
        filters: vec![],
    }
}

fn event(message: &str) -> Event {
    Event::new(Level::Info, b"t".to_vec(), message.as_bytes().to_vec(), Timestamp { micros: 0 })
}

#[test]
fn a_queue_that_always_fails_does_not_starve_the_one_that_always_succeeds() {
    let mut engine = Engine::new(three_consoles()).unwrap();
    let mut queues = vec![Queue::new(0), Queue::new(100), Queue::new(0)];
    let mut d = engine.dispatch(&event("one"));
    fan_out(&mut d, &mut queues);
    assert_eq!(d.phase(), Phase::Delivered);
    assert_eq!(d.attempted(), 3);
    assert_eq!(d.failures().len(), 2);
    assert_eq!(d.failures()[0].appender, 0);
    assert_eq!(d.failures()[0].error, AppendError::Full);
    assert_eq!(d.failures()[1].appender, 2);
    assert_eq!(queues[0].len(), 0);
    assert_eq!(queues[2].len(), 0);
    assert_eq!(queues[1].flush(), vec![b"0.000000 INFO t - one\n".to_vec()]);
}

#[test]
fn a_queue_fills_up_and_the_others_go_on() {
    let mut engine = Engine::new(three_consoles()).unwrap();
    let mut queues = vec![Queue::new(1), Queue::new(3), Queue::new(2)];
    for message in ["a", "b", "c"] {
        let mut d = engine.dispatch(&event(message));
        fan_out(&mut d, &mut queues);
        assert_eq!(d.phase(), Phase::Delivered);
    }
    assert_eq!(queues[0].flush(), vec![b"0.000000 INFO t - a\n".to_vec()]);
    assert_eq!(
        queues[1].flush(),
        vec![
            b"0.000000 INFO t - a\n".to_vec(),
            b"0.000000 INFO t - b\n".to_vec(),
            b"0.000000 INFO t - c\n".to_vec(),
        ]
    );
    assert_eq!(
        queues[2].flush(),
        vec![b"0.000000 INFO t - a\n".to_vec(), b"0.000000 INFO t - b\n".to_vec()]
    );
}

#[test]
fn an_appender_without_a_queue_fails_to_write() {
    let mut engine = Engine::new(three_consoles()).unwrap();
    let mut queues = vec![Queue::new(4)];
    let mut d = engine.dispatch(&event("x"));
    fan_out(&mut d, &mut queues);
    assert_eq!(d.phase(), Phase::Delivered);
    assert_eq!(queues[0].len(), 1);
    assert_eq!(d.failures().len(), 2);
    assert_eq!(d.failures()[0].error, AppendError::Write);
    assert_eq!(d.failures()[1].error, AppendError::Write);
}

#[test]
fn a_dispatch_that_did_not_pass_fans_out_nothing() {
    let mut queues = vec![Queue::new(4)];
    let mut dropped = Dispatch::new(3, Gate::DroppedByLevel, vec![Delivery { appender: 0, record: b"r".to_vec() }]);
    fan_out(&mut dropped, &mut queues);
    assert_eq!(dropped.phase(), Phase::DroppedByLevel);
    assert_eq!(dropped.planned(), 0);
    assert_eq!(dropped.stamp(), 3);
    let mut filtered = Dispatch::new(3, Gate::FilteredOut, vec![]);
    filtered.report(Ok(()));
    fan_out(&mut filtered, &mut queues);
    assert_eq!(filtered.phase(), Phase::FilteredOut);
    assert_eq!(filtered.attempted(), 0);
    assert_eq!(queues[0].len(), 0);
}

#[test]
fn a_fan_out_takes_up_where_the_dispatch_stands() {
    let mut queues = vec![Queue::new(4), Queue::new(4)];
    let mut d = Dispatch::new(
        0,
        Gate::Passed,
        vec![
            Delivery { appender: 0, record: b"zero".to_vec() },
            Delivery { appender: 1, record: b"one".to_vec() },
        ],
    );
    d.report(Err(AppendError::Flush));
    fan_out(&mut d, &mut queues);
    assert_eq!(d.phase(), Phase::Delivered);
    assert_eq!(queues[0].len(), 0);
    assert_eq!(queues[1].flush(), vec![b"one".to_vec()]);
    d.report(Ok(()));
    assert_eq!(d.attempted(), 2);
    assert_eq!(d.failures().len(), 1);
}

#[test]
fn the_first_verdict_that_is_not_neutral_decides() {
    assert_eq!(combine(&vec![]), Verdict::Neutral);
    assert_eq!(combine(&vec![Verdict::Neutral, Verdict::Neutral]), Verdict::Neutral);
    assert_eq!(combine(&vec![Verdict::Neutral, Verdict::Reject, Verdict::Accept]), Verdict::Reject);
    assert_eq!(combine(&vec![Verdict::Accept, Verdict::Reject]), Verdict::Accept);
}

#[test]
fn a_chain_of_wrappers_ends_in_its_writer() {
    let s = Snapshot::build(Config {
        appenders: vec![
            appender("a", Destination::Buffered { inner: b"b".to_vec(), capacity: 1 }),
            appender("b", Destination::Buffered { inner: b"out".to_vec(), capacity: 1 }),
            appender("out", Destination::File { path: b"out.log".to_vec() }),
            appender("err", Destination::Console { stream: Stream::Stderr }),
        ],
        root: RootConfig { level: Level::Info, appenders: vec![b"a".to_vec()] },
        loggers: vec![],
        filters: vec![],
    })
    .unwrap();
    assert_eq!(sink(&s, 0), Some(2));
    assert_eq!(sink(&s, 1), Some(2));
    assert_eq!(sink(&s, 2), Some(2));
    assert_eq!(sink(&s, 3), Some(3));
    assert_eq!(sink(&s, 4), None);
}
