//! The fan-out of one dispatch to queues.
//!
//! Each appender has a bounded queue before it. A dispatch is fanned
//! out by handing each of its records to the queue of its appender, in
//! order. A queue that is full refuses its record; that is noted as a
//! failure, and the fan-out goes on with the next appender.

use crate::appender::AppendError;
use crate::dispatch::{phase_of, reported, Dispatch, DispatchView, Gate, Phase};
use crate::queue::{Queue, QueueView};
use crate::text::copy_bytes;
use vstd::prelude::*;

verus! {

/// A dispatch and the queues that it is fanned out to, as a mathematical
/// value.
pub struct FanView {
    pub dispatch: DispatchView,
    pub queues: Seq<QueueView>,
}

/// A list of queues as a mathematical value.
pub open spec fn queue_views(queues: Seq<Queue>) -> Seq<QueueView> {
    Seq::new(queues.len(), |i: int| queues[i]@)
}

/// Whether the queue at `a` takes one more record: there is a queue at
/// `a`, and it is not full.
pub open spec fn has_room(queues: Seq<QueueView>, a: int) -> bool {
    0 <= a < queues.len() && queues[a].pending.len() < queues[a].capacity
}

/// What the queue at `a` answers to a record: it accepts it if it has
/// room, refuses it if it is full, and where there is no queue at `a` the
/// write fails.
pub open spec fn answer(queues: Seq<QueueView>, a: int) -> Result<(), AppendError> {
    if has_room(queues, a) {
        Ok(())
    } else if 0 <= a < queues.len() {
        Err(AppendError::Full)
    } else {
        Err(AppendError::Write)
    }
}

/// The queues after `record` was offered to the queue at `a`.
pub open spec fn offered(queues: Seq<QueueView>, a: int, record: Seq<u8>) -> Seq<QueueView> {
    if has_room(queues, a) {
        queues.update(
            a,
            QueueView { capacity: queues[a].capacity, pending: queues[a].pending.push(record) },
        )
    } else {
        queues
    }
}

/// The state after the pending delivery was offered to its queue and the
/// answer was reported. Without a pending delivery nothing changes.
pub open spec fn fanned_once(f: FanView) -> FanView {
    if phase_of(f.dispatch) == Phase::Delivering {
        let next = f.dispatch.deliveries[f.dispatch.attempted as int];
        FanView {
            dispatch: reported(f.dispatch, answer(f.queues, next.appender as int)),
            queues: offered(f.queues, next.appender as int, next.record),
        }
    } else {
        f
    }
}

/// The state after `steps` deliveries were offered in turn.
pub open spec fn fanned(f: FanView, steps: nat) -> FanView
    decreases steps,
{
    if steps == 0 {
        f
    } else {
        fanned(fanned_once(f), (steps - 1) as nat)
    }
}

/// The number of deliveries that have not been attempted yet.
pub open spec fn remaining(d: DispatchView) -> nat {
    if phase_of(d) == Phase::Delivering {
        (d.deliveries.len() - d.attempted) as nat
    } else {
        0
    }
}

/// The state after every delivery that was left was offered.
pub open spec fn fanned_out(f: FanView) -> FanView {
    fanned(f, remaining(f.dispatch))
}

/// A fan-out always comes to its end: whatever the queues answer, every
/// delivery is attempted, and none is attempted twice.
pub proof fn lemma_fan_out_completes(f: FanView)
    requires
        phase_of(f.dispatch) == Phase::Delivering,
    ensures
        phase_of(fanned_out(f).dispatch) == Phase::Delivered,
        fanned_out(f).dispatch.attempted == f.dispatch.deliveries.len(),
        fanned_out(f).dispatch.deliveries == f.dispatch.deliveries,
        fanned_out(f).queues.len() == f.queues.len(),
{
    lemma_fanned_shape(f, remaining(f.dispatch));
}

proof fn lemma_fanned_shape(f: FanView, steps: nat)
    requires
        f.dispatch.gate == Gate::Passed,
        f.dispatch.attempted + steps <= f.dispatch.deliveries.len(),
    ensures
        fanned(f, steps).dispatch.gate == Gate::Passed,
        fanned(f, steps).dispatch.attempted == f.dispatch.attempted + steps,
        fanned(f, steps).dispatch.deliveries == f.dispatch.deliveries,
        fanned(f, steps).queues.len() == f.queues.len(),
    decreases steps,
{
    if steps > 0 {
        lemma_fanned_shape(fanned_once(f), (steps - 1) as nat);
    }
}

/// One appender's failure is no other appender's loss. Take a delivery
/// that is still to be attempted, for an appender that no other
/// remaining delivery is for. If the queue of this appender has room,
/// then after the fan-out it holds what it held and this record after it,
/// whatever became of the records for the other appenders.
pub proof fn lemma_others_are_served(f: FanView, j: int)
    requires
        phase_of(f.dispatch) == Phase::Delivering,
        f.dispatch.attempted <= j < f.dispatch.deliveries.len(),
        forall|i: int|
            f.dispatch.attempted <= i < f.dispatch.deliveries.len() && i != j ==> (
            #[trigger] f.dispatch.deliveries[i]).appender != f.dispatch.deliveries[j].appender,
        has_room(f.queues, f.dispatch.deliveries[j].appender as int),
    ensures
        fanned_out(f).queues[f.dispatch.deliveries[j].appender as int].pending
            == f.queues[f.dispatch.deliveries[j].appender as int].pending.push(
            f.dispatch.deliveries[j].record,
        ),
{
    lemma_served(f, j, remaining(f.dispatch));
}

proof fn lemma_served(f: FanView, j: int, steps: nat)
    requires
        f.dispatch.gate == Gate::Passed,
        f.dispatch.attempted + steps == f.dispatch.deliveries.len(),
        0 <= j < f.dispatch.deliveries.len(),
        0 <= f.dispatch.deliveries[j].appender < f.queues.len(),
        forall|i: int|
            f.dispatch.attempted <= i < f.dispatch.deliveries.len() && i != j ==> (
            #[trigger] f.dispatch.deliveries[i]).appender != f.dispatch.deliveries[j].appender,
    ensures
        j >= f.dispatch.attempted && has_room(f.queues, f.dispatch.deliveries[j].appender as int)
            ==> fanned(f, steps).queues[f.dispatch.deliveries[j].appender as int].pending
            == f.queues[f.dispatch.deliveries[j].appender as int].pending.push(
            f.dispatch.deliveries[j].record,
        ),
        j < f.dispatch.attempted ==> fanned(
            f,
            steps,
        ).queues[f.dispatch.deliveries[j].appender as int]
            == f.queues[f.dispatch.deliveries[j].appender as int],
    decreases steps,
{
    if steps > 0 {
        let g = fanned_once(f);
        let at = f.dispatch.attempted as int;
        let a = f.dispatch.deliveries[j].appender as int;
        assert(g.dispatch.deliveries == f.dispatch.deliveries);
        assert(g.dispatch.attempted == at + 1);
        assert(g.queues.len() == f.queues.len());
        lemma_served(g, j, (steps - 1) as nat);
        if j > at {
            assert(f.dispatch.deliveries[at].appender != f.dispatch.deliveries[j].appender);
            assert(g.queues[a] == f.queues[a]);
        } else if j < at {
            assert(f.dispatch.deliveries[at].appender != f.dispatch.deliveries[j].appender);
            assert(g.queues[a] == f.queues[a]);
        }
    }
}

/// Fans a dispatch out to the queues of its appenders: offers each
/// record that is left to the queue at the position of its appender, in
/// order, and reports each answer to the dispatch.
pub fn fan_out(dispatch: &mut Dispatch, queues: &mut Vec<Queue>)
    ensures
        (FanView { dispatch: final(dispatch)@, queues: queue_views(final(queues)@) })
            == fanned_out(FanView { dispatch: old(dispatch)@, queues: queue_views(old(queues)@) }),
{
    let ghost start = FanView { dispatch: old(dispatch)@, queues: queue_views(old(queues)@) };
    let ghost total = remaining(start.dispatch);
    let ghost mut done: nat = 0;
    loop
        invariant
            done <= total,
            total == remaining(start.dispatch),
            remaining(dispatch@) == total - done,
            fanned(start, total) == fanned(
                FanView { dispatch: dispatch@, queues: queue_views(queues@) },
                (total - done) as nat,
            ),
        ensures
            remaining(dispatch@) == 0,
        decreases total - done,
    {
        let ghost here = FanView { dispatch: dispatch@, queues: queue_views(queues@) };
        let (appender, record) = match dispatch.pending() {
            None => {
                break ;
            },
            Some(d) => (d.appender, copy_bytes(d.record.as_slice())),
        };
        let outcome = if appender < queues.len() {
            let mut q = Queue::new(0);
            std::mem::swap(&mut q, &mut queues[appender]);
            assert(q@ == here.queues[appender as int]);
            let r = q.accept(record);
            std::mem::swap(&mut q, &mut queues[appender]);
            match r {
                Ok(_) => Ok(()),
                Err(e) => Err(e),
            }
        } else {
            Err(AppendError::Write)
        };
        dispatch.report(outcome);
        proof {
            assert(outcome == answer(here.queues, appender as int));
            assert(queue_views(queues@) =~= offered(here.queues, appender as int, record@));
            done = done + 1;
        }
    }
}

} // verus!
