//! Rolling files: when to roll, what a roll does to the files, and what
//! is known of a sink between writes.
//!
//! The files of one rolling appender are numbered. File 0 is the live
//! file, which is written to; the files from 1 on are its archives, the
//! youngest first.

use crate::appender::{AppendError, Destination, RollPolicy, RollStrategy};
use crate::event::Timestamp;
use vstd::prelude::*;

verus! {

/// What is known of one sink between writes.
#[derive(Clone, Copy, Debug, PartialEq, Eq, Structural)]
pub struct SinkState {
    /// The bytes written to the live file since it was opened.
    pub written: u64,
    /// When the live file was opened, in microseconds since the epoch.
    pub opened_at: u64,
    /// The records that were written.
    pub delivered: u64,
    /// The writes and rolls that failed.
    pub failed: u64,
}

/// One step of a roll.
#[derive(Clone, Copy, Debug, PartialEq, Eq, Structural)]
pub enum FileOp {
    /// Removes file `index`, if it exists.
    Remove { index: u16 },
    /// Gives file `from` the number `to`, if file `from` exists.
    Rename { from: u16, to: u16 },
    /// Compresses file `index` where it lies, if it exists. What the file
    /// holds stays the same.
    Compress { index: u16 },
}

/// The files of one appender: the content of each file that exists.
pub type Files = Map<int, Seq<u8>>;

/// `a + b`, or the greatest `u64` where the sum is greater.
pub open spec fn capped_sum(a: u64, b: nat) -> u64 {
    if a + b > u64::MAX {
        u64::MAX
    } else {
        (a + b) as u64
    }
}

/// Whether the live file is to be rolled before a record of `len` bytes
/// is written at the time `now`. By size, a file that holds something is
/// rolled if the record would take it beyond the limit. By age, a file is
/// rolled once it has been open for the given time.
pub open spec fn roll_due(policy: RollPolicy, st: SinkState, len: nat, now: Timestamp) -> bool {
    match policy {
        RollPolicy::Size { limit } => st.written > 0 && st.written + len > limit,
        RollPolicy::Age { micros } => now.micros >= st.opened_at && now.micros - st.opened_at
            >= micros,
    }
}

/// The steps of a roll that keeps `count` archives: the oldest archive is
/// removed, then each file, from the oldest on, moves up by one.
pub open spec fn window_ops(count: u16) -> Seq<FileOp> {
    Seq::new(
        (count + 1) as nat,
        |k: int|
            if k == 0 {
                FileOp::Remove { index: count }
            } else {
                FileOp::Rename { from: (count - k) as u16, to: (count - k + 1) as u16 }
            },
    )
}

/// The steps of a roll. Compressing comes last, and only where at least
/// one archive is kept.
pub open spec fn roll_ops(strategy: RollStrategy) -> Seq<FileOp> {
    match strategy {
        RollStrategy::Delete => seq![FileOp::Remove { index: 0 }],
        RollStrategy::FixedWindow { count, compress } => if compress && count > 0 {
            window_ops(count).push(FileOp::Compress { index: 1 })
        } else {
            window_ops(count)
        },
    }
}

/// The steps to perform before a record of `len` bytes is written: those
/// of a roll where the destination is a rolling file that is due, none
/// otherwise.
pub open spec fn ops_before(dest: Destination, st: SinkState, len: nat, now: Timestamp) -> Seq<
    FileOp,
> {
    match dest {
        Destination::RollingFile { path, policy, strategy } => if roll_due(policy, st, len, now) {
            roll_ops(strategy)
        } else {
            Seq::empty()
        },
        _ => Seq::empty(),
    }
}

/// The sink after a roll was attempted. A roll that succeeded leaves an
/// empty live file, opened now. One that failed is counted and leaves the
/// sink as it was, so that the record goes to the file that was live
/// before.
pub open spec fn rolled(st: SinkState, ok: bool, now: Timestamp) -> SinkState {
    if ok {
        SinkState { written: 0, opened_at: now.micros, delivered: st.delivered, failed: st.failed }
    } else {
        SinkState {
            written: st.written,
            opened_at: st.opened_at,
            delivered: st.delivered,
            failed: capped_sum(st.failed, 1),
        }
    }
}

/// The sink after a record of `len` bytes was written, or was not.
pub open spec fn wrote(st: SinkState, outcome: Result<(), AppendError>, len: nat) -> SinkState {
    match outcome {
        Ok(_) => SinkState {
            written: capped_sum(st.written, len),
            opened_at: st.opened_at,
            delivered: capped_sum(st.delivered, 1),
            failed: st.failed,
        },
        Err(_) => SinkState {
            written: st.written,
            opened_at: st.opened_at,
            delivered: st.delivered,
            failed: capped_sum(st.failed, 1),
        },
    }
}

/// The files after one step.
pub open spec fn apply_op(files: Files, op: FileOp) -> Files {
    match op {
        FileOp::Remove { index } => files.remove(index as int),
        FileOp::Rename { from, to } => if files.contains_key(from as int) {
            files.remove(from as int).insert(to as int, files[from as int])
        } else {
            files
        },
        FileOp::Compress { index } => files,
    }
}

/// The files after the first `n` of the given steps.
pub open spec fn apply_ops(files: Files, ops: Seq<FileOp>, n: int) -> Files
    decreases n,
{
    if n <= 0 {
        files
    } else {
        apply_op(apply_ops(files, ops, n - 1), ops[n - 1])
    }
}

/// The files after a record was accepted: after the roll, if one was due
/// and it succeeded, the record stands at the end of the live file.
pub open spec fn accepted(
    files: Files,
    ops: Seq<FileOp>,
    roll_ok: bool,
    record: Seq<u8>,
) -> Files {
    let ready = if roll_ok {
        apply_ops(files, ops, ops.len() as int)
    } else {
        files
    };
    if ready.contains_key(0) {
        ready.insert(0, ready[0] + record)
    } else {
        ready.insert(0, record)
    }
}

/// After a roll that keeps `count` archives, compressed or not, each
/// archive up to `count` is the file that had the number before it, the
/// live file is gone, and the files beyond `count` are as they were.
pub proof fn lemma_window_shifts(files: Files, count: u16, compress: bool)
    ensures
        ({
            let ops = roll_ops(RollStrategy::FixedWindow { count, compress });
            let after = apply_ops(files, ops, ops.len() as int);
            &&& !after.contains_key(0)
            &&& forall|i: int|
                1 <= i <= count ==> (after.contains_key(i) <==> files.contains_key(i - 1))
            &&& forall|i: int|
                1 <= i <= count && after.contains_key(i) ==> after[i] == files[i - 1]
            &&& forall|i: int| i > count || i < 0 ==> (after.contains_key(i) <==> files.contains_key(i))
            &&& forall|i: int|
                (i > count || i < 0) && after.contains_key(i) ==> after[i] == files[i]
        }),
{
    lemma_window_steps(files, count, count + 1);
    let ops = roll_ops(RollStrategy::FixedWindow { count, compress });
    lemma_same_steps(files, window_ops(count), ops, count + 1);
    if compress && count > 0 {
        assert(ops[count + 1] == FileOp::Compress { index: 1 });
    }
}

/// The files after the first `n` steps depend on those steps alone.
proof fn lemma_same_steps(files: Files, a: Seq<FileOp>, b: Seq<FileOp>, n: int)
    requires
        n <= a.len(),
        n <= b.len(),
        forall|k: int| 0 <= k < n ==> a[k] == b[k],
    ensures
        apply_ops(files, a, n) == apply_ops(files, b, n),
    decreases n,
{
    if n > 0 {
        lemma_same_steps(files, a, b, n - 1);
    }
}

proof fn lemma_window_steps(files: Files, count: u16, n: int)
    requires
        1 <= n <= count + 1,
    ensures
        ({
            let after = apply_ops(files, window_ops(count), n);
            let gap = count - n + 1;
            &&& !after.contains_key(gap)
            &&& forall|i: int|
                gap < i <= count ==> (after.contains_key(i) <==> files.contains_key(i - 1))
            &&& forall|i: int| gap < i <= count && after.contains_key(i) ==> after[i] == files[i - 1]
            &&& forall|i: int|
                i > count || i < gap ==> (after.contains_key(i) <==> files.contains_key(i))
            &&& forall|i: int|
                (i > count || i < gap) && after.contains_key(i) ==> after[i] == files[i]
        }),
    decreases n,
{
    let ops = window_ops(count);
    if n == 1 {
        assert(apply_ops(files, ops, 0) == files);
        assert(ops[0] == FileOp::Remove { index: count });
    } else {
        lemma_window_steps(files, count, n - 1);
        let before = apply_ops(files, ops, n - 1);
        let k = n - 1;
        assert(ops[k] == FileOp::Rename { from: (count - k) as u16, to: (count - k + 1) as u16 });
    }
}

/// A record that is accepted is never lost: it stands at the end of the
/// live file whether or not a roll was due and whether or not it
/// succeeded. Where the roll failed, the live file holds all that it held
/// before, and the record after it.
pub proof fn lemma_accept_keeps_record(
    files: Files,
    ops: Seq<FileOp>,
    roll_ok: bool,
    record: Seq<u8>,
)
    ensures
        accepted(files, ops, roll_ok, record).contains_key(0),
        accepted(files, ops, roll_ok, record)[0].len() >= record.len(),
        accepted(files, ops, roll_ok, record)[0].subrange(
            accepted(files, ops, roll_ok, record)[0].len() - record.len(),
            accepted(files, ops, roll_ok, record)[0].len() as int,
        ) == record,
        !roll_ok && files.contains_key(0) ==> accepted(files, ops, roll_ok, record)[0] == files[0]
            + record,
{
    let after = accepted(files, ops, roll_ok, record)[0];
    assert(after.subrange(after.len() - record.len(), after.len() as int) =~= record);
}

impl SinkState {
    /// The state of a sink whose live file was opened at the time `now`
    /// and holds `written` bytes.
    pub fn opened(written: u64, now: Timestamp) -> (st: SinkState)
        ensures
            st == (SinkState { written, opened_at: now.micros, delivered: 0, failed: 0 }),
    {
        SinkState { written, opened_at: now.micros, delivered: 0, failed: 0 }
    }

    /// Records that a roll was attempted and how it went.
    pub fn after_roll(&mut self, ok: bool, now: Timestamp)
        ensures
            *final(self) == rolled(*old(self), ok, now),
    {
        if ok {
            self.written = 0;
            self.opened_at = now.micros;
        } else {
            self.failed = self.failed.saturating_add(1);
        }
    }

    /// Records that the write of a record of `len` bytes was attempted
    /// and how it went.
    pub fn after_write(&mut self, outcome: Result<(), AppendError>, len: usize)
        ensures
            *final(self) == wrote(*old(self), outcome, len as nat),
    {
        match outcome {
            Ok(_) => {
                self.written = self.written.saturating_add(len as u64);
                self.delivered = self.delivered.saturating_add(1);
            },
            Err(_) => {
                self.failed = self.failed.saturating_add(1);
            },
        }
    }
}

/// Whether the live file is to be rolled before a record of `len` bytes
/// is written at the time `now`.
pub fn is_due(policy: RollPolicy, st: &SinkState, len: usize, now: Timestamp) -> (due: bool)
    ensures
        due == roll_due(policy, *st, len as nat, now),
{
    match policy {
        RollPolicy::Size { limit } => {
            let size: u64 = len as u64;
            st.written > 0 && (size > limit || st.written > limit - size)
        },
        RollPolicy::Age { micros } => {
            now.micros >= st.opened_at && now.micros - st.opened_at >= micros
        },
    }
}

/// The steps of a roll, in the order in which they are to be performed.
pub fn plan_roll(strategy: RollStrategy) -> (ops: Vec<FileOp>)
    ensures
        ops@ == roll_ops(strategy),
{
    match strategy {
        RollStrategy::Delete => {
            let ops = vec![FileOp::Remove { index: 0 }];
            assert(ops@ =~= roll_ops(strategy));
            ops
        },
        RollStrategy::FixedWindow { count, compress } => {
            let mut ops: Vec<FileOp> = Vec::new();
            ops.push(FileOp::Remove { index: count });
            let mut from: u16 = count;
            while from > 0
                invariant
                    from <= count,
                    ops@.len() == count - from + 1,
                    forall|k: int| 0 <= k < ops@.len() ==> ops@[k] == window_ops(count)[k],
                decreases from,
            {
                from -= 1;
                ops.push(FileOp::Rename { from, to: from + 1 });
            }
            assert(ops@ =~= window_ops(count));
            if compress && count > 0 {
                ops.push(FileOp::Compress { index: 1 });
            }
            ops
        },
    }
}

/// The steps to perform before a record of `len` bytes is written to
/// `dest` at the time `now`. The record is written after them whether
/// they succeed or not.
pub fn before_write(dest: &Destination, st: &SinkState, len: usize, now: Timestamp) -> (ops: Vec<
    FileOp,
>)
    ensures
        ops@ == ops_before(*dest, *st, len as nat, now),
{
    match dest {
        Destination::RollingFile { path, policy, strategy } => {
            if is_due(*policy, st, len, now) {
                plan_roll(*strategy)
            } else {
                Vec::new()
            }
        },
        _ => Vec::new(),
    }
}

} // verus!
