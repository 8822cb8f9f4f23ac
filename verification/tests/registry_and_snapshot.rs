use log4rs_guide::appender::{report_line, AppendError, Appender, Destination, Stream};
use log4rs_guide::layout::Layout;
use log4rs_guide::level::Level;
use log4rs_guide::registry::Registry;
use log4rs_guide::snapshot::{lookup, resolve_refs, Config, ConfigError, RootConfig, Snapshot};

fn appender(name: &str, destination: Destination) -> Appender {
    Appender { name: name.as_bytes().to_vec(), destination, layout: Layout::standard(), writable: true }
}

fn console(name: &str) -> Appender {
    appender(name, Destination::Console { stream: Stream::Stderr })
}

fn buffered(name: &str, inner: &str) -> Appender {
    appender(name, Destination::Buffered { inner: inner.as_bytes().to_vec(), capacity: 8 })
}

fn config(appenders: Vec<Appender>) -> Config {
    Config {
        appenders,
        root: RootConfig { level: Level::Info, appenders: vec![] },
        loggers: vec![],
        filters: vec![],
    }
}

#[test]
fn registering_creates_the_loggers_above() {
    let mut r = Registry::new(Level::Warn, vec![0]);
    assert_eq!(r.root_level(), Level::Warn);
    r.register(b"a.b::c", Some(Level::Debug), None, true);
    assert!(r.contains(b"a.b::c"));
    assert!(r.contains(b"a.b"));
    assert!(r.contains(b"a"));
    assert!(!r.contains(b"a.b:"));
    assert!(!r.contains(b""));
    assert_eq!(r.resolve(b"a.b::c").level, Level::Debug);
    assert_eq!(r.resolve(b"a.b::c::d").level, Level::Debug);
    assert_eq!(r.resolve(b"a.b").level, Level::Warn);
    assert_eq!(r.resolve(b"a.b::cd").level, Level::Warn);
}

#[test]
fn registering_again_replaces_the_settings() {
    let mut r = Registry::new(Level::Warn, vec![0]);
    r.register(b"a", Some(Level::Debug), Some(vec![1]), true);
    r.register(b"a.b", None, None, true);
    assert_eq!(r.resolve(b"a.b").appenders, vec![1, 0]);
    r.register(b"a", None, Some(vec![2]), false);
    assert_eq!(r.resolve(b"a.b").level, Level::Warn);
    assert_eq!(r.resolve(b"a.b").appenders, vec![2]);
    assert!(r.contains(b"a.b"));
}

#[test]
fn the_empty_name_is_the_root() {
    let mut r = Registry::new(Level::Warn, vec![0]);
    r.register(b"", Some(Level::Trace), None, false);
    assert_eq!(r.root_level(), Level::Trace);
    assert_eq!(r.resolve(b"x").appenders, vec![0]);
    r.register(b"", None, Some(vec![3, 4]), false);
    assert_eq!(r.root_level(), Level::Trace);
    assert_eq!(r.resolve(b"x").appenders, vec![3, 4]);
    assert_eq!(r.resolve(b"").appenders, vec![3, 4]);
}

#[test]
fn appenders_come_once_in_the_order_of_the_walk() {
    let mut r = Registry::new(Level::Info, vec![0, 1]);
    r.register(b"a", None, Some(vec![2, 1, 2]), true);
    r.register(b"a.b", None, Some(vec![3, 0]), true);
    r.register(b"a.b.c", None, None, false);
    assert_eq!(r.resolve(b"a.b.c").appenders, vec![3, 0, 2, 1]);
    assert_eq!(r.resolve(b"a.x").appenders, vec![2, 1, 0]);
    assert_eq!(r.resolve(b"z").appenders, vec![0, 1]);
}

#[test]
fn a_list_that_is_not_additive_ends_the_walk() {
    let mut r = Registry::new(Level::Info, vec![0]);
    r.register(b"a", None, Some(vec![1]), false);
    r.register(b"a.b", None, Some(vec![2]), true);
    assert_eq!(r.resolve(b"a.b.c").appenders, vec![2, 1]);
    assert_eq!(r.resolve(b"a").appenders, vec![1]);
}

#[test]
fn names_resolve_to_the_first_appender_of_that_name() {
    let appenders = vec![console("a"), console("b"), console("a")];
    assert_eq!(lookup(&appenders, b"a"), Some(0));
    assert_eq!(lookup(&appenders, b"b"), Some(1));
    assert_eq!(lookup(&appenders, b"c"), None);
    assert_eq!(resolve_refs(&appenders, &vec![b"b".to_vec(), b"a".to_vec()]), Ok(vec![1, 0]));
    assert_eq!(resolve_refs(&appenders, &vec![b"b".to_vec(), b"x".to_vec(), b"y".to_vec()]), Err(1));
    assert_eq!(resolve_refs(&appenders, &vec![]), Ok(vec![]));
}

#[test]
fn wrapping_an_unknown_appender_is_a_fault() {
    let c = config(vec![console("out"), buffered("q", "nowhere")]);
    assert_eq!(Snapshot::build(c).err(), Some(ConfigError::UnknownInner { index: 1 }));
}

#[test]
fn an_appender_that_is_its_own_destination_is_a_fault() {
    let own = config(vec![console("out"), buffered("q", "q")]);
    assert_eq!(Snapshot::build(own).err(), Some(ConfigError::Cyclic { index: 1 }));
    let ring = config(vec![buffered("a", "b"), buffered("b", "c"), buffered("c", "a"), console("out")]);
    assert_eq!(Snapshot::build(ring).err(), Some(ConfigError::Cyclic { index: 0 }));
    let tail = config(vec![console("out"), buffered("t", "a"), buffered("a", "b"), buffered("b", "a")]);
    assert_eq!(Snapshot::build(tail).err(), Some(ConfigError::Cyclic { index: 1 }));
}

#[test]
fn a_chain_that_ends_in_a_writer_is_valid() {
    let c = config(vec![buffered("a", "b"), buffered("b", "c"), buffered("c", "out"), console("out")]);
    let s = Snapshot::build(c).unwrap();
    assert_eq!(s.wraps(0), Some(1));
    assert_eq!(s.wraps(1), Some(2));
    assert_eq!(s.wraps(2), Some(3));
    assert_eq!(s.wraps(3), None);
    assert_eq!(s.wraps(4), None);
    assert_eq!(s.appenders().len(), 4);
}

#[test]
fn faults_are_looked_for_in_a_fixed_order() {
    let mut c = config(vec![console("x"), buffered("q", "gone"), console("x")]);
    c.appenders[0].writable = false;
    c.root.appenders = vec![b"gone".to_vec()];
    assert_eq!(Snapshot::build(c.clone()).err(), Some(ConfigError::DuplicateAppender { index: 2 }));
    c.appenders[2].name = b"y".to_vec();
    assert_eq!(Snapshot::build(c.clone()).err(), Some(ConfigError::Unwritable { index: 0 }));
    c.appenders[0].writable = true;
    assert_eq!(Snapshot::build(c.clone()).err(), Some(ConfigError::UnknownInner { index: 1 }));
    c.appenders[1] = buffered("q", "q");
    assert_eq!(Snapshot::build(c.clone()).err(), Some(ConfigError::Cyclic { index: 1 }));
    c.appenders[1] = buffered("q", "y");
    assert_eq!(Snapshot::build(c.clone()).err(), Some(ConfigError::UnknownInRoot { position: 0 }));
    c.root.appenders = vec![b"q".to_vec()];
    assert!(Snapshot::build(c).is_ok());
}

#[test]
fn a_snapshot_resolves_and_gates() {
    let mut c = config(vec![console("out")]);
    c.root.appenders = vec![b"out".to_vec()];
    let s = Snapshot::build(c).unwrap();
    assert!(s.enabled(Level::Info, b"any"));
    assert!(s.enabled(Level::Error, b"any"));
    assert!(!s.enabled(Level::Debug, b"any"));
    let r = s.resolve(b"any::where");
    assert_eq!(r.level, Level::Info);
    assert_eq!(r.appenders, vec![0]);
    assert!(s.filters().is_empty());
}

#[test]
fn a_failure_is_reported_in_one_line() {
    assert_eq!(report_line(b"file", AppendError::Write), b"appender file: write failed\n".to_vec());
    assert_eq!(report_line(b"file", AppendError::Flush), b"appender file: flush failed\n".to_vec());
    assert_eq!(report_line(b"r", AppendError::Roll), b"appender r: roll failed\n".to_vec());
    assert_eq!(report_line(b"", AppendError::Full), b"appender : queue full\n".to_vec());
}
