//! Dispatches and reloads in any order.
//!
//! Several dispatches may be under way while the configuration is
//! reloaded. Each step of the engine is taken as a whole: a dispatch
//! begins, an outcome is reported, a configuration is reloaded. This
//! module describes every order in which such steps can follow each
//! other, and shows that no dispatch ever sees two snapshots.

use crate::appender::AppendError;
use crate::dispatch::{begun, reported, DispatchView};
use crate::engine::next_version;
use crate::event::EventView;
use crate::snapshot::{snapshot_of, validate, Config, SnapshotView};
use vstd::prelude::*;

verus! {

/// One dispatch that is under way or over.
pub struct Flight {
    /// How many reloads had succeeded when the dispatch began.
    pub epoch: nat,
    pub event: EventView,
    pub dispatch: DispatchView,
}

/// The engine and all dispatches that were begun.
pub struct System {
    /// The snapshots that have been active, the first one first. The last
    /// is the one that is active now.
    pub snapshots: Seq<SnapshotView>,
    /// The version of the active snapshot.
    pub version: u64,
    pub flights: Seq<Flight>,
}

/// One step of the system.
pub enum Step {
    /// A dispatch begins for the event.
    Begin(EventView),
    /// An outcome is reported to the dispatch at the given position.
    Report(int, Result<(), AppendError>),
    /// The configuration is reloaded.
    Reload(Config),
}

/// The system after one step. A reload of a configuration that is not
/// valid, and a report to a dispatch that does not exist, change nothing.
pub open spec fn after_step(sys: System, step: Step) -> System {
    match step {
        Step::Begin(e) => System {
            snapshots: sys.snapshots,
            version: sys.version,
            flights: sys.flights.push(
                Flight {
                    epoch: (sys.snapshots.len() - 1) as nat,
                    event: e,
                    dispatch: begun(sys.snapshots.last(), sys.version, e),
                },
            ),
        },
        Step::Report(i, outcome) => if 0 <= i < sys.flights.len() {
            System {
                snapshots: sys.snapshots,
                version: sys.version,
                flights: sys.flights.update(
                    i,
                    Flight {
                        epoch: sys.flights[i].epoch,
                        event: sys.flights[i].event,
                        dispatch: reported(sys.flights[i].dispatch, outcome),
                    },
                ),
            }
        } else {
            sys
        },
        Step::Reload(config) => if validate(config) is Ok {
            System {
                snapshots: sys.snapshots.push(snapshot_of(config)),
                version: next_version(sys.version),
                flights: sys.flights,
            }
        } else {
            sys
        },
    }
}

/// The system after the first `n` of the given steps.
pub open spec fn after_steps(sys: System, steps: Seq<Step>, n: int) -> System
    decreases n,
{
    if n <= 0 {
        sys
    } else {
        after_step(after_steps(sys, steps, n - 1), steps[n - 1])
    }
}

/// Whether a dispatch is what one snapshot, the one that was active when
/// it began, gives for its event: the event fared at the gates as under
/// that snapshot, and the deliveries are those for that snapshot.
pub open spec fn of_one_snapshot(sys: System, f: Flight) -> bool {
    &&& f.epoch < sys.snapshots.len()
    &&& f.dispatch.gate == begun(sys.snapshots[f.epoch as int], f.dispatch.stamp, f.event).gate
    &&& f.dispatch.deliveries == begun(
        sys.snapshots[f.epoch as int],
        f.dispatch.stamp,
        f.event,
    ).deliveries
}

/// Whether every dispatch of the system is of one snapshot.
pub open spec fn unmixed(sys: System) -> bool {
    &&& sys.snapshots.len() > 0
    &&& forall|i: int| 0 <= i < sys.flights.len() ==> of_one_snapshot(sys, #[trigger] sys.flights[i])
}

/// No step mixes snapshots.
pub proof fn lemma_step_keeps_unmixed(sys: System, step: Step)
    requires
        unmixed(sys),
    ensures
        unmixed(after_step(sys, step)),
{
    let next = after_step(sys, step);
    assert forall|i: int| 0 <= i < next.flights.len() implies of_one_snapshot(
        next,
        #[trigger] next.flights[i],
    ) by {
        match step {
            Step::Begin(e) => {
                if i < sys.flights.len() {
                    assert(of_one_snapshot(sys, sys.flights[i]));
                }
            },
            Step::Report(k, outcome) => {
                assert(of_one_snapshot(sys, sys.flights[i]));
            },
            Step::Reload(config) => {
                assert(of_one_snapshot(sys, sys.flights[i]));
            },
        }
    }
}

/// Reloading is atomic for every dispatch. Start with one snapshot and
/// no dispatch, and let dispatches begin, outcomes be reported and
/// configurations be reloaded in any order. Then at every moment every
/// dispatch, finished or not, has exactly the deliveries that the
/// snapshot under which it began gives for its event: never some of an
/// earlier snapshot and some of a later one.
pub proof fn lemma_never_mixed(first: SnapshotView, version: u64, steps: Seq<Step>, n: int)
    requires
        0 <= n <= steps.len(),
    ensures
        unmixed(
            after_steps(
                System { snapshots: seq![first], version, flights: Seq::empty() },
                steps,
                n,
            ),
        ),
    decreases n,
{
    let start = System { snapshots: seq![first], version, flights: Seq::empty() };
    if n > 0 {
        lemma_never_mixed(first, version, steps, n - 1);
        lemma_step_keeps_unmixed(after_steps(start, steps, n - 1), steps[n - 1]);
    }
}

} // verus!
