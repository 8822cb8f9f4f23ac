//! A bounded queue of records, for an appender whose writes are done by
//! another thread than the one that logs.
//!
//! The thread that logs puts records in; the writer takes them out in the
//! same order. A full queue refuses the record, it never blocks. At
//! shutdown the writer says how many records it can still write; the rest
//! is counted as lost.

use crate::appender::AppendError;
use vstd::prelude::*;

verus! {

/// The queue as a mathematical value.
pub struct QueueView {
    pub capacity: nat,
    /// The records that wait, the oldest first.
    pub pending: Seq<Seq<u8>>,
}

/// A bounded queue of records.
#[derive(Debug)]
pub struct Queue {
    capacity: usize,
    pending: Vec<Vec<u8>>,
}

/// What became of the records of a queue at shutdown.
#[derive(Debug)]
pub struct Shutdown {
    /// The records that are still to be written, the oldest first.
    pub flushed: Vec<Vec<u8>>,
    /// The number of records that were dropped.
    pub lost: usize,
}

/// A list of records as a mathematical value.
pub open spec fn records_view(records: Seq<Vec<u8>>) -> Seq<Seq<u8>> {
    Seq::new(records.len(), |i: int| records[i]@)
}

/// `a`, or `b` where `b` is less.
pub open spec fn least(a: int, b: int) -> int {
    if a <= b {
        a
    } else {
        b
    }
}

/// Parts a list of records after its first `n`.
fn split_front(items: Vec<Vec<u8>>, n: usize) -> (parts: (Vec<Vec<u8>>, Vec<Vec<u8>>))
    requires
        n <= items@.len(),
    ensures
        parts.0@ == items@.subrange(0, n as int),
        parts.1@ == items@.subrange(n as int, items@.len() as int),
{
    let ghost all = items@;
    let mut front = items;
    let mut back: Vec<Vec<u8>> = Vec::new();
    while front.len() > n
        invariant
            n <= front@.len() <= all.len(),
            front@ == all.subrange(0, front@.len() as int),
            back@.len() == all.len() - front@.len(),
            forall|k: int| 0 <= k < back@.len() ==> back@[k] == all[all.len() - 1 - k],
        decreases front@.len(),
    {
        match front.pop() {
            Some(item) => {
                back.push(item);
            },
            None => {},
        }
        assert(front@ =~= all.subrange(0, front@.len() as int));
    }
    let mut rest: Vec<Vec<u8>> = Vec::new();
    while back.len() > 0
        invariant
            n <= all.len(),
            back@.len() + rest@.len() == all.len() - n,
            forall|k: int| 0 <= k < back@.len() ==> back@[k] == all[all.len() - 1 - k],
            rest@ == all.subrange(n as int, n + rest@.len()),
        decreases back@.len(),
    {
        match back.pop() {
            Some(item) => {
                rest.push(item);
            },
            None => {},
        }
        assert(rest@ =~= all.subrange(n as int, n + rest@.len()));
    }
    (front, rest)
}

impl View for Queue {
    type V = QueueView;

    closed spec fn view(&self) -> QueueView {
        QueueView { capacity: self.capacity as nat, pending: records_view(self.pending@) }
    }
}

impl Queue {
    #[verifier::type_invariant]
    spec fn well_formed(self) -> bool {
        self.pending@.len() <= self.capacity
    }

    /// An empty queue with room for `capacity` records.
    pub fn new(capacity: usize) -> (q: Queue)
        ensures
            q@ == (QueueView { capacity: capacity as nat, pending: Seq::empty() }),
    {
        let q = Queue { capacity, pending: Vec::new() };
        assert(q@.pending =~= Seq::empty());
        q
    }

    /// The number of records that wait.
    pub fn len(&self) -> (n: usize)
        ensures
            n == self@.pending.len(),
            n <= self@.capacity,
    {
        proof {
            use_type_invariant(self);
        }
        self.pending.len()
    }

    /// Accepts a record: puts it at the end of the queue. A full queue
    /// refuses it and stays as it is.
    pub fn accept(&mut self, record: Vec<u8>) -> (r: Result<(), AppendError>)
        ensures
            final(self)@.capacity == old(self)@.capacity,
            match r {
                Ok(_) => old(self)@.pending.len() < old(self)@.capacity && final(self)@.pending
                    == old(self)@.pending.push(record@),
                Err(e) => e == AppendError::Full && old(self)@.pending.len() == old(
                    self,
                )@.capacity && final(self)@.pending == old(self)@.pending,
            },
    {
        proof {
            use_type_invariant(&*self);
        }
        if self.pending.len() >= self.capacity {
            return Err(AppendError::Full);
        }
        let mut pending: Vec<Vec<u8>> = Vec::new();
        std::mem::swap(&mut self.pending, &mut pending);
        pending.push(record);
        assert(records_view(pending@) =~= old(self)@.pending.push(record@));
        std::mem::swap(&mut self.pending, &mut pending);
        Ok(())
    }

    /// Takes the oldest records out of the queue, at most `max` of them,
    /// the oldest first.
    pub fn drain(&mut self, max: usize) -> (taken: Vec<Vec<u8>>)
        ensures
            final(self)@.capacity == old(self)@.capacity,
            records_view(taken@) == old(self)@.pending.subrange(
                0,
                least(max as int, old(self)@.pending.len() as int),
            ),
            final(self)@.pending == old(self)@.pending.subrange(
                least(max as int, old(self)@.pending.len() as int),
                old(self)@.pending.len() as int,
            ),
    {
        proof {
            use_type_invariant(&*self);
        }
        let mut pending: Vec<Vec<u8>> = Vec::new();
        std::mem::swap(&mut self.pending, &mut pending);
        let n: usize = if max < pending.len() {
            max
        } else {
            pending.len()
        };
        let ghost all = pending@;
        let (taken, mut rest) = split_front(pending, n);
        assert(records_view(taken@) =~= records_view(all).subrange(0, n as int));
        assert(records_view(rest@) =~= records_view(all).subrange(n as int, all.len() as int));
        std::mem::swap(&mut self.pending, &mut rest);
        taken
    }

    /// Takes every record out of the queue, the oldest first.
    pub fn flush(&mut self) -> (taken: Vec<Vec<u8>>)
        ensures
            final(self)@.capacity == old(self)@.capacity,
            records_view(taken@) == old(self)@.pending,
            final(self)@.pending.len() == 0,
    {
        let n = self.len();
        let taken = self.drain(n);
        assert(old(self)@.pending.subrange(0, n as int) =~= old(self)@.pending);
        taken
    }

    /// Ends the queue. The writer can still write `budget` records: the
    /// oldest that many are handed over to be written, and every record
    /// beyond them is dropped and counted as lost.
    pub fn shutdown(self, budget: usize) -> (end: Shutdown)
        ensures
            records_view(end.flushed@) == self@.pending.subrange(
                0,
                least(budget as int, self@.pending.len() as int),
            ),
            end.lost == self@.pending.len() - least(budget as int, self@.pending.len() as int),
    {
        let pending = self.pending;
        let n: usize = if budget < pending.len() {
            budget
        } else {
            pending.len()
        };
        let ghost all = pending@;
        let (flushed, rest) = split_front(pending, n);
        assert(records_view(flushed@) =~= records_view(all).subrange(0, n as int));
        Shutdown { flushed, lost: rest.len() }
    }
}

} // verus!
