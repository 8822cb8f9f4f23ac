//! The dispatch of one event.
//!
//! An event is first held against the level of its target, then against
//! the chain of filters. If it passes both, one record is encoded for each
//! appender that the target resolves to. The records are then handed out
//! one at a time; how each write went is reported back, and a failed write
//! never keeps the next appender from its record.

use crate::appender::AppendError;
use crate::event::{Event, EventView};
use crate::filter::{chain_passes, passes_chain};
use crate::name::at_or_above;
use crate::registry::{
    effective_appenders, effective_level, lemma_silenced, lists_nothing, refs_below,
    walk_reaches, EffectiveConfig,
};
use crate::snapshot::{Snapshot, SnapshotView};
use vstd::prelude::*;

verus! {

/// How an event fared at the gates.
#[derive(Clone, Copy, Debug, PartialEq, Eq, Structural)]
pub enum Gate {
    /// Its level is below the level of its target.
    DroppedByLevel,
    /// The chain of filters rejected it.
    FilteredOut,
    /// It passed both.
    Passed,
}

/// Where the dispatch of an event stands.
#[derive(Clone, Copy, Debug, PartialEq, Eq, Structural)]
pub enum Phase {
    DroppedByLevel,
    FilteredOut,
    /// Some appender has not been attempted yet.
    Delivering,
    /// Every appender has been attempted.
    Delivered,
}

/// One record on its way to one appender.
#[derive(Debug)]
pub struct Delivery {
    /// The position of the appender in the snapshot.
    pub appender: usize,
    pub record: Vec<u8>,
}

/// A delivery as a mathematical value.
pub struct DeliveryView {
    pub appender: usize,
    pub record: Seq<u8>,
}

impl View for Delivery {
    type V = DeliveryView;

    open spec fn view(&self) -> DeliveryView {
        DeliveryView { appender: self.appender, record: self.record@ }
    }
}

/// A delivery that failed.
#[derive(Clone, Copy, Debug, PartialEq, Eq, Structural)]
pub struct Failure {
    pub appender: usize,
    pub error: AppendError,
}

/// The dispatch of one event as a mathematical value.
pub struct DispatchView {
    /// The version of the snapshot under which the dispatch began.
    pub stamp: u64,
    pub gate: Gate,
    pub deliveries: Seq<DeliveryView>,
    /// How many of the deliveries have been attempted.
    pub attempted: nat,
    pub failures: Seq<Failure>,
}

/// The dispatch of one event.
#[derive(Debug)]
pub struct Dispatch {
    stamp: u64,
    gate: Gate,
    deliveries: Vec<Delivery>,
    attempted: usize,
    failures: Vec<Failure>,
}

/// How `e` fares at the gates of the snapshot `s`.
pub open spec fn gate_of(s: SnapshotView, e: EventView) -> Gate {
    if !e.level.passes_spec(effective_level(s.registry, e.target)) {
        Gate::DroppedByLevel
    } else if !chain_passes(s.filters, e) {
        Gate::FilteredOut
    } else {
        Gate::Passed
    }
}

/// The deliveries that `e` calls for under the snapshot `s`: none unless
/// it passes the gates, and then one for each appender that its target
/// resolves to, in that order, with the record that the appender's layout
/// gives.
pub open spec fn deliveries_of(s: SnapshotView, e: EventView) -> Seq<DeliveryView> {
    let to = effective_appenders(s.registry, e.target);
    if gate_of(s, e) == Gate::Passed {
        Seq::new(
            to.len(),
            |i: int|
                DeliveryView {
                    appender: to[i],
                    record: s.appenders[to[i] as int].layout.output(e),
                },
        )
    } else {
        Seq::empty()
    }
}

/// The dispatch of `e` under the snapshot `s`, before any delivery.
pub open spec fn begun(s: SnapshotView, stamp: u64, e: EventView) -> DispatchView {
    DispatchView {
        stamp,
        gate: gate_of(s, e),
        deliveries: deliveries_of(s, e),
        attempted: 0,
        failures: Seq::empty(),
    }
}

/// Where a dispatch stands.
pub open spec fn phase_of(d: DispatchView) -> Phase {
    match d.gate {
        Gate::DroppedByLevel => Phase::DroppedByLevel,
        Gate::FilteredOut => Phase::FilteredOut,
        Gate::Passed => if d.attempted < d.deliveries.len() {
            Phase::Delivering
        } else {
            Phase::Delivered
        },
    }
}

/// The dispatch after the outcome of its pending delivery was reported:
/// the delivery counts as attempted, and as failed if the outcome is an
/// error. A dispatch without a pending delivery stays as it is.
pub open spec fn reported(d: DispatchView, outcome: Result<(), AppendError>) -> DispatchView {
    if phase_of(d) == Phase::Delivering {
        DispatchView {
            stamp: d.stamp,
            gate: d.gate,
            deliveries: d.deliveries,
            attempted: d.attempted + 1,
            failures: match outcome {
                Ok(_) => d.failures,
                Err(error) => d.failures.push(
                    Failure { appender: d.deliveries[d.attempted as int].appender, error },
                ),
            },
        }
    } else {
        d
    }
}

/// The dispatch after the first `n` of the given outcomes were reported
/// in turn.
pub open spec fn after_reports(
    d: DispatchView,
    outcomes: Seq<Result<(), AppendError>>,
    n: int,
) -> DispatchView
    decreases n,
{
    if n <= 0 {
        d
    } else {
        reported(after_reports(d, outcomes, n - 1), outcomes[n - 1])
    }
}

/// An event reaches an appender exactly when its level is at least the
/// level of its target, the chain of filters does not reject it, and its
/// target resolves to that appender.
pub proof fn lemma_delivered_iff(s: SnapshotView, e: EventView, a: usize)
    ensures
        (exists|i: int|
            0 <= i < deliveries_of(s, e).len() && (#[trigger] deliveries_of(s, e)[i]).appender
                == a) <==> (e.level.passes_spec(effective_level(s.registry, e.target))
            && chain_passes(s.filters, e) && effective_appenders(s.registry, e.target).contains(
            a,
        )),
{
    let to = effective_appenders(s.registry, e.target);
    let ds = deliveries_of(s, e);
    if gate_of(s, e) == Gate::Passed {
        if to.contains(a) {
            let i = choose|i: int| 0 <= i < to.len() && to[i] == a;
            assert(ds[i].appender == a);
        }
        if exists|i: int| 0 <= i < ds.len() && (#[trigger] ds[i]).appender == a {
            let i = choose|i: int| 0 <= i < ds.len() && (#[trigger] ds[i]).appender == a;
            assert(to[i] == a);
        }
    }
}

/// A dispatch is planned from one snapshot alone: each of its
/// deliveries goes to an appender of the snapshot under which it began,
/// with the record that the layout of this appender gives.
pub proof fn lemma_one_snapshot(s: SnapshotView, stamp: u64, e: EventView, i: int)
    requires
        refs_below(s.registry, s.appenders.len() as int),
        0 <= i < begun(s, stamp, e).deliveries.len(),
    ensures
        begun(s, stamp, e).stamp == stamp,
        begun(s, stamp, e).deliveries[i].appender < s.appenders.len(),
        begun(s, stamp, e).deliveries[i].record == s.appenders[begun(
            s,
            stamp,
            e,
        ).deliveries[i].appender as int].layout.output(e),
{
    crate::snapshot::lemma_effective_below(s.registry, e.target, s.appenders.len() as int);
}

/// An event that passes the gates is delivered once to each appender
/// that its target resolves to, and to no appender twice.
pub proof fn lemma_delivered_once(s: SnapshotView, e: EventView)
    ensures
        deliveries_of(s, e).len() <= effective_appenders(s.registry, e.target).len(),
        forall|i: int, j: int|
            0 <= i < j < deliveries_of(s, e).len() ==> (#[trigger] deliveries_of(
                s,
                e,
            )[i]).appender != (#[trigger] deliveries_of(s, e)[j]).appender,
{
    crate::registry::lemma_each_once(
        crate::registry::appenders_above(s.registry, e.target, e.target.len() as int),
    );
}

/// A logger that is not additive and whose list is empty silences its
/// subtree: an event for a target at or below it is delivered nowhere,
/// whatever the loggers above list, as long as no logger that the walk
/// from the target reaches below the silencing logger lists an appender
/// itself.
pub proof fn lemma_silenced_subtree(s: SnapshotView, node: Seq<u8>, e: EventView)
    requires
        node.len() > 0,
        at_or_above(node, e.target),
        s.registry.nodes.contains_key(node),
        s.registry.nodes[node].appenders == Some(Seq::<usize>::empty()),
        !s.registry.nodes[node].additive,
        forall|k: Seq<u8>|
            k.len() > node.len() && at_or_above(k, e.target) && s.registry.nodes.contains_key(k)
                && walk_reaches(s.registry, e.target, k) ==> lists_nothing(
                #[trigger] s.registry.nodes[k],
            ),
    ensures
        deliveries_of(s, e).len() == 0,
{
    lemma_silenced(s.registry, node, e.target);
}

/// A failure never stops the fan-out. Whatever the outcomes reported for
/// the first `k` deliveries, the delivery that is pending after them is
/// the next in order, and once an outcome was reported for every
/// delivery the dispatch is delivered.
pub proof fn lemma_failures_are_isolated(
    d: DispatchView,
    outcomes: Seq<Result<(), AppendError>>,
    k: int,
)
    requires
        d.gate == Gate::Passed,
        d.attempted == 0,
        0 <= k <= d.deliveries.len(),
        k <= outcomes.len(),
    ensures
        after_reports(d, outcomes, k).deliveries == d.deliveries,
        after_reports(d, outcomes, k).attempted == k,
        after_reports(d, outcomes, k).gate == Gate::Passed,
        k < d.deliveries.len() ==> phase_of(after_reports(d, outcomes, k)) == Phase::Delivering,
        k == d.deliveries.len() ==> phase_of(after_reports(d, outcomes, k)) == Phase::Delivered,
    decreases k,
{
    if k > 0 {
        lemma_failures_are_isolated(d, outcomes, k - 1);
    }
}

impl View for Dispatch {
    type V = DispatchView;

    closed spec fn view(&self) -> DispatchView {
        DispatchView {
            stamp: self.stamp,
            gate: self.gate,
            deliveries: Seq::new(self.deliveries@.len(), |i: int| self.deliveries@[i]@),
            attempted: self.attempted as nat,
            failures: self.failures@,
        }
    }
}

impl Dispatch {
    /// A dispatch that stands before its first delivery. Deliveries are
    /// kept only for an event that passed the gates.
    pub fn new(stamp: u64, gate: Gate, deliveries: Vec<Delivery>) -> (d: Dispatch)
        ensures
            d@ == (DispatchView {
                stamp,
                gate,
                deliveries: if gate == Gate::Passed {
                    Seq::new(deliveries@.len(), |i: int| deliveries@[i]@)
                } else {
                    Seq::empty()
                },
                attempted: 0,
                failures: Seq::empty(),
            }),
    {
        let kept = match gate {
            Gate::Passed => deliveries,
            _ => Vec::new(),
        };
        let d = Dispatch { stamp, gate, deliveries: kept, attempted: 0, failures: Vec::new() };
        assert(d@.deliveries =~= if gate == Gate::Passed {
            Seq::new(deliveries@.len(), |i: int| deliveries@[i]@)
        } else {
            Seq::empty()
        });
        d
    }

    /// The version of the snapshot under which the dispatch began.
    pub fn stamp(&self) -> (v: u64)
        ensures
            v == self@.stamp,
    {
        self.stamp
    }

    /// How the event fared at the gates.
    pub fn gate(&self) -> (g: Gate)
        ensures
            g == self@.gate,
    {
        self.gate
    }

    /// Where the dispatch stands.
    pub fn phase(&self) -> (p: Phase)
        ensures
            p == phase_of(self@),
    {
        match self.gate {
            Gate::DroppedByLevel => Phase::DroppedByLevel,
            Gate::FilteredOut => Phase::FilteredOut,
            Gate::Passed => {
                if self.attempted < self.deliveries.len() {
                    Phase::Delivering
                } else {
                    Phase::Delivered
                }
            },
        }
    }

    /// The number of deliveries that the event calls for.
    pub fn planned(&self) -> (n: usize)
        ensures
            n == self@.deliveries.len(),
    {
        self.deliveries.len()
    }

    /// The number of deliveries that have been attempted.
    pub fn attempted(&self) -> (n: usize)
        ensures
            n == self@.attempted,
    {
        self.attempted
    }

    /// The delivery at position `i`, if there is one.
    pub fn delivery(&self, i: usize) -> (d: Option<&Delivery>)
        ensures
            match d {
                Some(x) => i < self@.deliveries.len() && x@ == self@.deliveries[i as int],
                None => i >= self@.deliveries.len(),
            },
    {
        if i < self.deliveries.len() {
            Some(&self.deliveries[i])
        } else {
            None
        }
    }

    /// The delivery to attempt next, while there is one.
    pub fn pending(&self) -> (d: Option<&Delivery>)
        ensures
            match d {
                Some(x) => phase_of(self@) == Phase::Delivering && x@
                    == self@.deliveries[self@.attempted as int],
                None => phase_of(self@) != Phase::Delivering,
            },
    {
        match self.gate {
            Gate::Passed => {
                if self.attempted < self.deliveries.len() {
                    Some(&self.deliveries[self.attempted])
                } else {
                    None
                }
            },
            _ => None,
        }
    }

    /// Reports how the pending delivery went and moves on to the next.
    pub fn report(&mut self, outcome: Result<(), AppendError>)
        ensures
            final(self)@ == reported(old(self)@, outcome),
    {
        match self.gate {
            Gate::Passed => {
                if self.attempted < self.deliveries.len() {
                    match outcome {
                        Ok(_) => {},
                        Err(error) => {
                            let appender = self.deliveries[self.attempted].appender;
                            self.failures.push(Failure { appender, error });
                        },
                    }
                    self.attempted = self.attempted + 1;
                }
            },
            _ => {},
        }
        assert(self@.deliveries =~= old(self)@.deliveries);
    }

    /// The deliveries that failed so far, in the order of the attempts.
    pub fn failures(&self) -> (f: &Vec<Failure>)
        ensures
            f@ == self@.failures,
    {
        &self.failures
    }
}

/// Encodes one record for each appender that `to` names.
fn encode_all(snapshot: &Snapshot, to: &Vec<usize>, e: &Event) -> (out: Vec<Delivery>)
    requires
        forall|i: int| 0 <= i < to@.len() ==> to@[i] < snapshot@.appenders.len(),
    ensures
        out@.len() == to@.len(),
        forall|i: int|
            0 <= i < to@.len() ==> (#[trigger] out@[i])@ == (DeliveryView {
                appender: to@[i],
                record: snapshot@.appenders[to@[i] as int].layout.output(e@),
            }),
{
    let appenders = snapshot.appenders();
    let mut out: Vec<Delivery> = Vec::new();
    let mut i: usize = 0;
    while i < to.len()
        invariant
            i <= to@.len(),
            appenders@ == snapshot@.appenders,
            forall|k: int| 0 <= k < to@.len() ==> to@[k] < appenders@.len(),
            out@.len() == i,
            forall|k: int|
                0 <= k < i ==> (#[trigger] out@[k])@ == (DeliveryView {
                    appender: to@[k],
                    record: appenders@[to@[k] as int].layout.output(e@),
                }),
        decreases to@.len() - i,
    {
        let a: usize = to[i];
        let record = appenders[a].layout.encode_or_placeholder(e);
        out.push(Delivery { appender: a, record });
        i += 1;
    }
    out
}

/// Begins the dispatch of `e` for a target that has been resolved already.
pub(crate) fn begin_resolved(snapshot: &Snapshot, stamp: u64, config: &EffectiveConfig, e: &Event) -> (d:
    Dispatch)
    requires
        config.level == effective_level(snapshot@.registry, e@.target),
        config.appenders@ == effective_appenders(snapshot@.registry, e@.target),
        forall|i: int|
            0 <= i < config.appenders@.len() ==> config.appenders@[i] < snapshot@.appenders.len(),
    ensures
        d@ == begun(snapshot@, stamp, e@),
{
    if !e.level.passes(config.level) {
        let d = Dispatch::new(stamp, Gate::DroppedByLevel, Vec::new());
        assert(d@.deliveries =~= deliveries_of(snapshot@, e@));
        d
    } else if !passes_chain(snapshot.filters(), e) {
        let d = Dispatch::new(stamp, Gate::FilteredOut, Vec::new());
        assert(d@.deliveries =~= deliveries_of(snapshot@, e@));
        d
    } else {
        let deliveries = encode_all(snapshot, &config.appenders, e);
        let d = Dispatch::new(stamp, Gate::Passed, deliveries);
        assert(d@.deliveries =~= deliveries_of(snapshot@, e@));
        d
    }
}

/// Begins the dispatch of `e` under `snapshot`: resolves its target, holds
/// it against the gates, and encodes its records.
pub fn begin(snapshot: &Snapshot, stamp: u64, e: &Event) -> (d: Dispatch)
    ensures
        d@ == begun(snapshot@, stamp, e@),
{
    let config = snapshot.resolve(e.target.as_slice());
    begin_resolved(snapshot, stamp, &config, e)
}

} // verus!
