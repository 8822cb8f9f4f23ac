//! Filters: predicates over events that accept, reject or abstain.

use crate::event::{key_position, Event, EventView};
use crate::level::Level;
use crate::name::{at_or_above, is_at_or_above};
use vstd::prelude::*;

verus! {

/// What a filter says of an event.
#[derive(Clone, Copy, Debug, PartialEq, Eq, Structural)]
pub enum Verdict {
    /// The event passes, whatever later filters would say.
    Accept,
    /// The event is dropped, whatever later filters would say.
    Reject,
    /// This filter leaves the decision to the next one.
    Neutral,
}

/// A filter. Each kind looks at one aspect of the event.
#[derive(Clone, Debug)]
pub enum Filter {
    /// Rejects events below `level` and abstains on the others.
    Threshold { level: Level },
    /// Answers `on_match` for events of exactly `level`, `on_mismatch` otherwise.
    Exact { level: Level, on_match: Verdict, on_mismatch: Verdict },
    /// Answers `on_match` for events whose target is `name` or lies below
    /// it in the hierarchy, `on_mismatch` otherwise.
    Subtree { name: Vec<u8>, on_match: Verdict, on_mismatch: Verdict },
    /// Answers `on_match` for events whose metadata has a field with the
    /// given key, `on_mismatch` otherwise.
    HasKey { key: Vec<u8>, on_match: Verdict, on_mismatch: Verdict },
}

impl Filter {
    /// What this filter says of `e`.
    pub open spec fn verdict(self, e: EventView) -> Verdict {
        match self {
            Filter::Threshold { level } => if e.level.passes_spec(level) {
                Verdict::Neutral
            } else {
                Verdict::Reject
            },
            Filter::Exact { level, on_match, on_mismatch } => if e.level == level {
                on_match
            } else {
                on_mismatch
            },
            Filter::Subtree { name, on_match, on_mismatch } => if at_or_above(name@, e.target) {
                on_match
            } else {
                on_mismatch
            },
            Filter::HasKey { key, on_match, on_mismatch } => if key_position(
                e.metadata,
                key@,
                0,
            ) < e.metadata.len() {
                on_match
            } else {
                on_mismatch
            },
        }
    }

    /// Applies the filter to an event.
    pub fn decide(&self, e: &Event) -> (v: Verdict)
        ensures
            v == self.verdict(e@),
    {
        match self {
            Filter::Threshold { level } => {
                if e.level.passes(*level) {
                    Verdict::Neutral
                } else {
                    Verdict::Reject
                }
            },
            Filter::Exact { level, on_match, on_mismatch } => {
                if e.level.severity() == level.severity() {
                    *on_match
                } else {
                    *on_mismatch
                }
            },
            Filter::Subtree { name, on_match, on_mismatch } => {
                if is_at_or_above(name.as_slice(), e.target.as_slice()) {
                    *on_match
                } else {
                    *on_mismatch
                }
            },
            Filter::HasKey { key, on_match, on_mismatch } => {
                match e.find_key(key.as_slice()) {
                    Some(_) => *on_match,
                    None => *on_mismatch,
                }
            },
        }
    }
}

/// What the filters from position `from` on say of `e`, taken in order:
/// the first verdict that is not `Neutral`, or `Neutral` if there is none.
pub open spec fn chain_from(filters: Seq<Filter>, e: EventView, from: int) -> Verdict
    decreases filters.len() - from,
{
    if from < 0 || from >= filters.len() {
        Verdict::Neutral
    } else if filters[from].verdict(e) != Verdict::Neutral {
        filters[from].verdict(e)
    } else {
        chain_from(filters, e, from + 1)
    }
}

/// What a chain of filters says of `e`.
pub open spec fn chain_verdict(filters: Seq<Filter>, e: EventView) -> Verdict {
    chain_from(filters, e, 0)
}

/// Whether `e` gets through a chain of filters: it does unless the chain
/// rejects it.
pub open spec fn chain_passes(filters: Seq<Filter>, e: EventView) -> bool {
    chain_verdict(filters, e) != Verdict::Reject
}

/// Runs a chain of filters over an event.
pub fn run_chain(filters: &Vec<Filter>, e: &Event) -> (v: Verdict)
    ensures
        v == chain_verdict(filters@, e@),
{
    let mut i: usize = 0;
    while i < filters.len()
        invariant
            i <= filters@.len(),
            chain_verdict(filters@, e@) == chain_from(filters@, e@, i as int),
        decreases filters@.len() - i,
    {
        let v = filters[i].decide(e);
        if v != Verdict::Neutral {
            return v;
        }
        i += 1;
    }
    Verdict::Neutral
}

/// Whether an event gets through a chain of filters.
pub fn passes_chain(filters: &Vec<Filter>, e: &Event) -> (ok: bool)
    ensures
        ok == chain_passes(filters@, e@),
{
    run_chain(filters, e) != Verdict::Reject
}

/// The first of the given verdicts, from position `from` on, that is not
/// `Neutral`, or `Neutral` if there is none.
pub open spec fn first_verdict(verdicts: Seq<Verdict>, from: int) -> Verdict
    decreases verdicts.len() - from,
{
    if from < 0 || from >= verdicts.len() {
        Verdict::Neutral
    } else if verdicts[from] != Verdict::Neutral {
        verdicts[from]
    } else {
        first_verdict(verdicts, from + 1)
    }
}

/// Combines the verdicts that the filters of a chain gave, in the order
/// of the chain: the first that is not `Neutral` decides.
pub fn combine(verdicts: &Vec<Verdict>) -> (v: Verdict)
    ensures
        v == first_verdict(verdicts@, 0),
{
    let mut i: usize = 0;
    while i < verdicts.len()
        invariant
            i <= verdicts@.len(),
            first_verdict(verdicts@, 0) == first_verdict(verdicts@, i as int),
        decreases verdicts@.len() - i,
    {
        if verdicts[i] != Verdict::Neutral {
            return verdicts[i];
        }
        i += 1;
    }
    Verdict::Neutral
}

/// Running a chain over an event is combining the verdicts of its filters.
pub proof fn lemma_chain_combines(filters: Seq<Filter>, e: EventView, from: int)
    requires
        0 <= from <= filters.len(),
    ensures
        chain_from(filters, e, from) == first_verdict(
            Seq::new(filters.len(), |i: int| filters[i].verdict(e)),
            from,
        ),
    decreases filters.len() - from,
{
    if from < filters.len() {
        lemma_chain_combines(filters, e, from + 1);
    }
}

/// The first filter that does not abstain decides: where the filter at
/// position `i` gives a verdict and all the filters from `from` up to it
/// abstain, the chain from `from` on gives that verdict.
pub proof fn lemma_first_decides(filters: Seq<Filter>, e: EventView, from: int, i: int)
    requires
        0 <= from <= i < filters.len(),
        filters[i].verdict(e) != Verdict::Neutral,
        forall|j: int| from <= j < i ==> filters[j].verdict(e) == Verdict::Neutral,
    ensures
        chain_from(filters, e, from) == filters[i].verdict(e),
    decreases i - from,
{
    if from < i {
        lemma_first_decides(filters, e, from + 1, i);
    }
}

/// A chain in which every filter abstains lets the event through.
pub proof fn lemma_all_neutral_accepts(filters: Seq<Filter>, e: EventView, from: int)
    requires
        0 <= from <= filters.len(),
        forall|i: int| from <= i < filters.len() ==> filters[i].verdict(e) == Verdict::Neutral,
    ensures
        chain_from(filters, e, from) == Verdict::Neutral,
    decreases filters.len() - from,
{
    if from < filters.len() {
        lemma_all_neutral_accepts(filters, e, from + 1);
    }
}

} // verus!
