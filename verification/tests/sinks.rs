use log4rs_guide::appender::{AppendError, Destination, RollPolicy, RollStrategy, Stream};
use log4rs_guide::event::Timestamp;
use log4rs_guide::queue::Queue;
use log4rs_guide::retire::{Ledger, Superseded};
use log4rs_guide::rolling::{before_write, is_due, plan_roll, FileOp, SinkState};

fn at(micros: u64) -> Timestamp {
    Timestamp { micros }
}

#[test]
fn a_file_rolls_by_size_before_it_would_pass_the_limit() {
    let policy = RollPolicy::Size { limit: 100 };
    let mut st = SinkState::opened(0, at(0));
    assert!(!is_due(policy, &st, 500, at(0)));
    st.after_write(Ok(()), 60);
    assert_eq!(st.written, 60);
    assert!(!is_due(policy, &st, 40, at(0)));
    assert!(is_due(policy, &st, 41, at(0)));
    assert!(is_due(policy, &st, usize::MAX, at(0)));
}

#[test]
fn a_file_rolls_by_age_once_the_time_is_up() {
    let policy = RollPolicy::Age { micros: 1_000 };
    let st = SinkState::opened(5, at(10_000));
    assert!(!is_due(policy, &st, 1, at(10_999)));
    assert!(is_due(policy, &st, 1, at(11_000)));
    assert!(!is_due(policy, &st, 1, at(9_000)));
}

#[test]
fn a_window_of_three_moves_each_archive_up() {
    assert_eq!(
        plan_roll(RollStrategy::FixedWindow { count: 3, compress: false }),
        vec![
            FileOp::Remove { index: 3 },
            FileOp::Rename { from: 2, to: 3 },
            FileOp::Rename { from: 1, to: 2 },
            FileOp::Rename { from: 0, to: 1 },
        ]
    );
    assert_eq!(
        plan_roll(RollStrategy::FixedWindow { count: 1, compress: true }),
        vec![
            FileOp::Remove { index: 1 },
            FileOp::Rename { from: 0, to: 1 },
            FileOp::Compress { index: 1 },
        ]
    );
    assert_eq!(
        plan_roll(RollStrategy::FixedWindow { count: 0, compress: true }),
        vec![FileOp::Remove { index: 0 }]
    );
    assert_eq!(plan_roll(RollStrategy::Delete), vec![FileOp::Remove { index: 0 }]);
}

#[test]
fn only_a_rolling_file_that_is_due_is_rolled() {
    let st = SinkState { written: 90, opened_at: 0, delivered: 3, failed: 0 };
    let rolling = Destination::RollingFile {
        path: b"app.log".to_vec(),
        policy: RollPolicy::Size { limit: 100 },
        strategy: RollStrategy::Delete,
    };
    assert_eq!(before_write(&rolling, &st, 11, at(0)), vec![FileOp::Remove { index: 0 }]);
    assert_eq!(before_write(&rolling, &st, 10, at(0)), vec![]);
    let plain = Destination::File { path: b"app.log".to_vec() };
    assert_eq!(before_write(&plain, &st, 1000, at(0)), vec![]);
    let console = Destination::Console { stream: Stream::Stdout };
    assert_eq!(before_write(&console, &st, 1000, at(0)), vec![]);
}

#[test]
fn a_failed_roll_leaves_the_file_that_was_live() {
    let mut st = SinkState { written: 90, opened_at: 7, delivered: 3, failed: 0 };
    st.after_roll(false, at(50));
    assert_eq!(st, SinkState { written: 90, opened_at: 7, delivered: 3, failed: 1 });
    st.after_write(Ok(()), 20);
    assert_eq!(st, SinkState { written: 110, opened_at: 7, delivered: 4, failed: 1 });
    st.after_roll(true, at(60));
    assert_eq!(st, SinkState { written: 0, opened_at: 60, delivered: 4, failed: 1 });
    st.after_write(Err(AppendError::Write), 20);
    assert_eq!(st, SinkState { written: 0, opened_at: 60, delivered: 4, failed: 2 });
}

#[test]
fn counts_stop_at_the_greatest_number() {
    let mut st = SinkState { written: u64::MAX - 1, opened_at: 0, delivered: u64::MAX, failed: u64::MAX };
    st.after_write(Ok(()), 5);
    assert_eq!(st.written, u64::MAX);
    assert_eq!(st.delivered, u64::MAX);
    st.after_roll(false, at(0));
    assert_eq!(st.failed, u64::MAX);
}

#[test]
fn a_queue_hands_records_out_in_the_order_they_came() {
    let mut q = Queue::new(3);
    assert_eq!(q.len(), 0);
    assert_eq!(q.accept(b"one".to_vec()), Ok(()));
    assert_eq!(q.accept(b"two".to_vec()), Ok(()));
    assert_eq!(q.accept(b"three".to_vec()), Ok(()));
    assert_eq!(q.accept(b"four".to_vec()), Err(AppendError::Full));
    assert_eq!(q.len(), 3);
    assert_eq!(q.drain(2), vec![b"one".to_vec(), b"two".to_vec()]);
    assert_eq!(q.len(), 1);
    assert_eq!(q.accept(b"five".to_vec()), Ok(()));
    assert_eq!(q.drain(0), Vec::<Vec<u8>>::new());
    assert_eq!(q.drain(9), vec![b"three".to_vec(), b"five".to_vec()]);
    assert_eq!(q.drain(9), Vec::<Vec<u8>>::new());
    assert_eq!(q.accept(b"six".to_vec()), Ok(()));
    assert_eq!(q.accept(b"seven".to_vec()), Ok(()));
    assert_eq!(q.flush(), vec![b"six".to_vec(), b"seven".to_vec()]);
    assert_eq!(q.len(), 0);
    assert_eq!(q.flush(), Vec::<Vec<u8>>::new());
}

#[test]
fn a_queue_without_room_refuses_everything() {
    let mut q = Queue::new(0);
    assert_eq!(q.accept(b"x".to_vec()), Err(AppendError::Full));
    assert_eq!(q.len(), 0);
}

#[test]
fn what_a_shutdown_cannot_write_is_counted_as_lost() {
    let mut q = Queue::new(5);
    for r in ["a", "b", "c", "d"] {
        q.accept(r.as_bytes().to_vec()).unwrap();
    }
    let end = q.shutdown(3);
    assert_eq!(end.flushed, vec![b"a".to_vec(), b"b".to_vec(), b"c".to_vec()]);
    assert_eq!(end.lost, 1);
    let mut q = Queue::new(5);
    q.accept(b"a".to_vec()).unwrap();
    let end = q.shutdown(10);
    assert_eq!(end.flushed, vec![b"a".to_vec()]);
    assert_eq!(end.lost, 0);
    let mut q = Queue::new(2);
    q.accept(b"a".to_vec()).unwrap();
    q.accept(b"b".to_vec()).unwrap();
    let end = q.shutdown(0);
    assert!(end.flushed.is_empty());
    assert_eq!(end.lost, 2);
}

#[test]
fn a_snapshot_that_nobody_holds_is_retired_at_once() {
    let mut l = Ledger::new(0);
    assert_eq!(l.current(), 0);
    assert_eq!(l.holders(0), Some(0));
    assert_eq!(l.supersede(1), Superseded::RetireNow { version: 0 });
    assert_eq!(l.current(), 1);
    assert_eq!(l.holders(0), None);
    assert_eq!(l.holders(1), Some(0));
}

#[test]
fn a_snapshot_that_is_held_is_retired_when_its_last_holder_leaves() {
    let mut l = Ledger::new(7);
    assert_eq!(l.enter(), Some(7));
    assert_eq!(l.enter(), Some(7));
    assert_eq!(l.holders(7), Some(2));
    assert_eq!(l.supersede(8), Superseded::RetireLater);
    assert_eq!(l.enter(), Some(8));
    assert_eq!(l.holders(7), Some(2));
    assert!(!l.leave(7));
    assert_eq!(l.holders(7), Some(1));
    assert!(l.leave(7));
    assert_eq!(l.holders(7), None);
    assert!(!l.leave(7));
    assert!(!l.leave(8));
    assert_eq!(l.holders(8), Some(0));
    assert!(!l.leave(8));
    assert!(!l.leave(99));
}

#[test]
fn a_version_in_use_cannot_be_given_again() {
    let mut l = Ledger::new(1);
    l.enter();
    assert_eq!(l.supersede(2), Superseded::RetireLater);
    assert_eq!(l.supersede(1), Superseded::VersionInUse);
    assert_eq!(l.supersede(2), Superseded::VersionInUse);
    assert_eq!(l.current(), 2);
    assert!(l.leave(1));
    assert_eq!(l.supersede(1), Superseded::RetireNow { version: 2 });
    assert_eq!(l.current(), 1);
}
