use log4rs_guide::appender::{AppendError, Appender, Destination, Stream};
use log4rs_guide::dispatch::{begin, Gate, Phase};
use log4rs_guide::engine::Engine;
use log4rs_guide::event::{Event, Field, Location, Timestamp};
use log4rs_guide::filter::{Filter, Verdict};
use log4rs_guide::layout::Layout;
use log4rs_guide::level::Level;
use log4rs_guide::snapshot::{Config, ConfigError, LoggerConfig, RootConfig, Snapshot};

fn console(name: &str) -> Appender {
    Appender {
        name: name.as_bytes().to_vec(),
        destination: Destination::Console { stream: Stream::Stdout },
        layout: Layout::standard(),
        writable: true,
    }
}

fn file(name: &str, path: &str) -> Appender {
    Appender {
        name: name.as_bytes().to_vec(),
        destination: Destination::File { path: path.as_bytes().to_vec() },
        layout: Layout::standard(),
        writable: true,
    }
}

fn names(list: &[&str]) -> Vec<Vec<u8>> {
    list.iter().map(|n| n.as_bytes().to_vec()).collect()
}

fn logger(name: &str, level: Option<Level>, appenders: Option<&[&str]>, additive: bool) -> LoggerConfig {
    LoggerConfig {
        name: name.as_bytes().to_vec(),
        level,
        appenders: appenders.map(names),
        additive,
    }
}

fn event(level: Level, target: &str, message: &str) -> Event {
    Event::new(
        level,
        target.as_bytes().to_vec(),
        message.as_bytes().to_vec(),
        Timestamp { micros: 1_619_566_647_190_275 },
    )
}

fn root_only() -> Config {
    Config {
        appenders: vec![console("console")],
        root: RootConfig { level: Level::Info, appenders: names(&["console"]) },
        loggers: vec![],
        filters: vec![],
    }
}

#[test]
fn debug_below_root_info_is_dropped() {
    let mut engine = Engine::new(root_only()).unwrap();
    let d = engine.dispatch(&event(Level::Debug, "a.b", "quiet"));
    assert_eq!(d.gate(), Gate::DroppedByLevel);
    assert_eq!(d.phase(), Phase::DroppedByLevel);
    assert_eq!(d.planned(), 0);
    assert!(d.pending().is_none());
}

#[test]
fn info_at_root_info_is_delivered_once_in_the_standard_layout() {
    let mut engine = Engine::new(root_only()).unwrap();
    let d = engine.dispatch(&event(Level::Info, "a.b", "hello there"));
    assert_eq!(d.gate(), Gate::Passed);
    assert_eq!(d.phase(), Phase::Delivering);
    assert_eq!(d.planned(), 1);
    let first = d.pending().unwrap();
    assert_eq!(first.appender, 0);
    assert_eq!(first.record, b"1619566647.190275 INFO a.b - hello there\n".to_vec());
}

#[test]
fn nearest_explicit_level_governs_and_appenders_add_up() {
    let config = Config {
        appenders: vec![console("consoleApp"), file("fileApp", "svc.log")],
        root: RootConfig { level: Level::Error, appenders: names(&["consoleApp"]) },
        loggers: vec![logger("svc", Some(Level::Trace), Some(&["fileApp"]), true)],
        filters: vec![],
    };
    let mut engine = Engine::new(config).unwrap();
    let mut d = engine.dispatch(&event(Level::Debug, "svc.sub", "work"));
    assert_eq!(d.planned(), 2);
    assert_eq!(d.delivery(0).unwrap().appender, 1);
    assert_eq!(d.delivery(1).unwrap().appender, 0);
    d.report(Ok(()));
    d.report(Ok(()));
    assert_eq!(d.phase(), Phase::Delivered);
    assert!(d.failures().is_empty());
    let other = engine.dispatch(&event(Level::Warn, "other", "work"));
    assert_eq!(other.gate(), Gate::DroppedByLevel);
}

#[test]
fn a_failing_appender_does_not_stop_the_next() {
    let config = Config {
        appenders: vec![console("bad"), console("good")],
        root: RootConfig { level: Level::Trace, appenders: names(&["bad", "good"]) },
        loggers: vec![],
        filters: vec![],
    };
    let mut engine = Engine::new(config).unwrap();
    let mut d = engine.dispatch(&event(Level::Info, "x", "m"));
    let mut received: Vec<(usize, Vec<u8>)> = Vec::new();
    while d.phase() == Phase::Delivering {
        let (appender, record) = {
            let next = d.pending().unwrap();
            (next.appender, next.record.clone())
        };
        if appender == 0 {
            d.report(Err(AppendError::Write));
        } else {
            received.push((appender, record));
            d.report(Ok(()));
        }
    }
    assert_eq!(d.phase(), Phase::Delivered);
    assert_eq!(d.attempted(), 2);
    assert_eq!(received.len(), 1);
    assert_eq!(received[0].0, 1);
    assert_eq!(received[0].1, b"1619566647.190275 INFO x - m\n".to_vec());
    assert_eq!(d.failures().len(), 1);
    assert_eq!(d.failures()[0].appender, 0);
    assert_eq!(d.failures()[0].error, AppendError::Write);
}

#[test]
fn a_silent_logger_silences_its_subtree() {
    let config = Config {
        appenders: vec![console("console")],
        root: RootConfig { level: Level::Trace, appenders: names(&["console"]) },
        loggers: vec![logger("noisy", None, Some(&[]), false)],
        filters: vec![],
    };
    let mut engine = Engine::new(config).unwrap();
    for target in ["noisy", "noisy.part", "noisy::deep::er"] {
        let d = engine.dispatch(&event(Level::Error, target, "m"));
        assert_eq!(d.gate(), Gate::Passed);
        assert_eq!(d.planned(), 0);
        assert_eq!(d.phase(), Phase::Delivered);
    }
    let d = engine.dispatch(&event(Level::Error, "noisyish", "m"));
    assert_eq!(d.planned(), 1);
}

#[test]
fn an_empty_additive_list_still_inherits() {
    let config = Config {
        appenders: vec![console("console")],
        root: RootConfig { level: Level::Trace, appenders: names(&["console"]) },
        loggers: vec![logger("a", None, Some(&[]), true)],
        filters: vec![],
    };
    let mut engine = Engine::new(config).unwrap();
    let d = engine.dispatch(&event(Level::Info, "a.b", "m"));
    assert_eq!(d.planned(), 1);
}

#[test]
fn filters_reject_after_the_level_gate() {
    let mut config = root_only();
    config.filters = vec![
        Filter::Subtree {
            name: b"secret".to_vec(),
            on_match: Verdict::Reject,
            on_mismatch: Verdict::Neutral,
        },
        Filter::Threshold { level: Level::Warn },
    ];
    let mut engine = Engine::new(config).unwrap();
    assert_eq!(engine.dispatch(&event(Level::Error, "secret.key", "m")).gate(), Gate::FilteredOut);
    assert_eq!(engine.dispatch(&event(Level::Info, "open", "m")).gate(), Gate::FilteredOut);
    assert_eq!(engine.dispatch(&event(Level::Warn, "open", "m")).gate(), Gate::Passed);
    assert_eq!(engine.dispatch(&event(Level::Debug, "secret", "m")).gate(), Gate::DroppedByLevel);
}

#[test]
fn reload_replaces_the_snapshot_or_leaves_it() {
    let mut engine = Engine::new(root_only()).unwrap();
    assert_eq!(engine.version(), 0);
    assert!(engine.enabled(Level::Info, b"a"));
    assert!(!engine.enabled(Level::Debug, b"a"));
    let mut bad = root_only();
    bad.root.appenders = names(&["console", "missing"]);
    assert_eq!(engine.reload(bad), Err(ConfigError::UnknownInRoot { position: 1 }));
    assert_eq!(engine.version(), 0);
    assert!(!engine.enabled(Level::Debug, b"a"));
    let mut good = root_only();
    good.root.level = Level::Debug;
    assert_eq!(engine.reload(good), Ok(()));
    assert_eq!(engine.version(), 1);
    assert!(engine.enabled(Level::Debug, b"a"));
    assert!(!engine.enabled(Level::Trace, b"a"));
}

#[test]
fn each_kind_of_fault_is_reported() {
    let mut twice = root_only();
    twice.appenders.push(console("other"));
    twice.appenders.push(console("console"));
    assert_eq!(Engine::new(twice).err(), Some(ConfigError::DuplicateAppender { index: 2 }));
    let mut closed = root_only();
    closed.appenders.push(file("f", "/nowhere/f.log"));
    closed.appenders[1].writable = false;
    assert_eq!(Engine::new(closed).err(), Some(ConfigError::Unwritable { index: 1 }));
    let mut dangling = root_only();
    dangling.loggers.push(logger("a", None, None, true));
    dangling.loggers.push(logger("b", None, Some(&["console", "console", "nope"]), true));
    assert_eq!(
        Engine::new(dangling).err(),
        Some(ConfigError::UnknownInLogger { logger: 1, position: 2 })
    );
}

#[test]
fn a_dispatch_begins_under_the_snapshot_it_is_given() {
    let snapshot = Snapshot::build(root_only()).unwrap();
    let d = begin(&snapshot, 41, &event(Level::Warn, "a", "m"));
    assert_eq!(d.stamp(), 41);
    assert_eq!(d.gate(), Gate::Passed);
    assert_eq!(d.planned(), 1);
    assert_eq!(d.delivery(0).unwrap().record, b"1619566647.190275 WARN a - m\n".to_vec());
    assert!(d.delivery(1).is_none());
    let d = begin(&snapshot, 42, &event(Level::Trace, "a", "m"));
    assert_eq!(d.gate(), Gate::DroppedByLevel);
}

#[test]
fn an_event_is_made_of_its_parts_and_dispatched() {
    let mut config = root_only();
    config.appenders[0].layout = log4rs_guide::pattern::parse(b"{l} {t} {M} {f}:{L} {X(id)} {m}").unwrap();
    let mut engine = Engine::new(config).unwrap();
    let d = engine.emit(
        Level::Error,
        b"db".to_vec(),
        b"lost".to_vec(),
        vec![Field { key: b"id".to_vec(), value: b"7".to_vec() }],
        Location { module: b"db::pool".to_vec(), file: b"pool.rs".to_vec(), line: 12 },
        Timestamp { micros: 1 },
    );
    assert_eq!(d.planned(), 1);
    assert_eq!(d.pending().unwrap().record, b"ERROR db db::pool pool.rs:12 7 lost\n".to_vec());
    let d = engine.emit(
        Level::Debug,
        b"db".to_vec(),
        b"lost".to_vec(),
        vec![],
        Location { module: vec![], file: vec![], line: 0 },
        Timestamp { micros: 1 },
    );
    assert_eq!(d.gate(), Gate::DroppedByLevel);
}

#[test]
fn resolving_again_gives_the_same_answer() {
    let config = Config {
        appenders: vec![console("a"), console("b")],
        root: RootConfig { level: Level::Warn, appenders: names(&["a"]) },
        loggers: vec![
            logger("x.y", Some(Level::Debug), Some(&["b", "a"]), true),
            logger("x", None, Some(&["b"]), false),
        ],
        filters: vec![],
    };
    let twin = config.clone();
    let mut engine = Engine::new(config).unwrap();
    let mut other = Engine::new(twin).unwrap();
    for target in ["x.y.z", "x.y", "x", "x.q", "w", ""] {
        let first = engine.resolve(target.as_bytes());
        let second = engine.resolve(target.as_bytes());
        let cold = other.snapshot().resolve(target.as_bytes());
        assert_eq!(first.level, second.level);
        assert_eq!(first.appenders, second.appenders);
        assert_eq!(first.level, cold.level);
        assert_eq!(first.appenders, cold.appenders);
    }
    assert_eq!(engine.resolve(b"x.y.z").level, Level::Debug);
    assert_eq!(engine.resolve(b"x.y.z").appenders, vec![1, 0]);
    assert_eq!(engine.resolve(b"x.q").level, Level::Warn);
    assert_eq!(engine.resolve(b"x.q").appenders, vec![1]);
    assert_eq!(other.resolve(b"w").appenders, vec![0]);
}

#[test]
fn a_dispatch_keeps_the_plan_of_the_snapshot_it_began_under() {
    let mut engine = Engine::new(root_only()).unwrap();
    let mut before = engine.dispatch(&event(Level::Info, "a", "kept"));
    let next = Config {
        appenders: vec![console("x"), console("y")],
        root: RootConfig { level: Level::Error, appenders: names(&["y", "x"]) },
        loggers: vec![],
        filters: vec![],
    };
    engine.reload(next).unwrap();
    assert_eq!(before.stamp(), 0);
    assert_eq!(before.planned(), 1);
    assert_eq!(before.pending().unwrap().appender, 0);
    assert_eq!(before.pending().unwrap().record, b"1619566647.190275 INFO a - kept\n".to_vec());
    before.report(Ok(()));
    assert_eq!(before.phase(), Phase::Delivered);
    let after = engine.dispatch(&event(Level::Error, "a", "new"));
    assert_eq!(after.stamp(), 1);
    assert_eq!(after.planned(), 2);
    assert_eq!(after.delivery(0).unwrap().appender, 1);
    assert_eq!(after.delivery(1).unwrap().appender, 0);
    assert_eq!(engine.dispatch(&event(Level::Info, "a", "now dropped")).gate(), Gate::DroppedByLevel);
}

#[test]
fn a_logger_with_a_list_of_its_own_is_heard_below_a_silent_one() {
    let config = Config {
        appenders: vec![console("console"), console("own")],
        root: RootConfig { level: Level::Trace, appenders: names(&["console"]) },
        loggers: vec![
            logger("quiet", None, Some(&[]), false),
            logger("quiet.loud", None, Some(&["own"]), true),
            logger("quiet.loud.shut", None, Some(&[]), false),
        ],
        filters: vec![],
    };
    let mut engine = Engine::new(config).unwrap();
    assert_eq!(engine.dispatch(&event(Level::Info, "quiet.other", "m")).planned(), 0);
    let heard = engine.dispatch(&event(Level::Info, "quiet.loud.er", "m"));
    assert_eq!(heard.planned(), 1);
    assert_eq!(heard.delivery(0).unwrap().appender, 1);
    assert_eq!(engine.dispatch(&event(Level::Info, "quiet.loud.shut.in", "m")).planned(), 0);
}
