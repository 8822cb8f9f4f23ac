//! A fixed series of events, one of each level, for trying out a
//! configuration.

use crate::dispatch::{begun, Dispatch, DispatchView};
use crate::engine::Engine;
use crate::event::{Event, EventView, Timestamp};
use crate::level::Level;
use crate::snapshot::SnapshotView;
use crate::text::{append_bytes, copy_bytes};
use vstd::prelude::*;
use vstd::string::StringSliceAdditionalSpecFns;

verus! {

/// An event that was emitted, and its dispatch.
#[derive(Debug)]
pub struct Emitted {
    pub event: Event,
    pub dispatch: Dispatch,
}

/// An emitted event as a mathematical value.
pub struct EmittedView {
    pub event: EventView,
    pub dispatch: DispatchView,
}

impl View for Emitted {
    type V = EmittedView;

    open spec fn view(&self) -> EmittedView {
        EmittedView { event: self.event@, dispatch: self.dispatch@ }
    }
}

/// What was emitted, as mathematical values.
pub open spec fn emitted_views(out: Seq<Emitted>) -> Seq<EmittedView> {
    Seq::new(out.len(), |i: int| out[i]@)
}

/// The levels of a series, in the order in which its events are emitted.
pub open spec fn series_levels() -> Seq<Level> {
    seq![Level::Info, Level::Error, Level::Warn, Level::Debug, Level::Trace]
}

/// How the message of each level begins.
pub open spec fn opening(level: Level) -> Seq<u8> {
    match level {
        Level::Info => "This is an info message".spec_bytes(),
        Level::Error => "This is an error message".spec_bytes(),
        Level::Warn => "This is a warning message".spec_bytes(),
        Level::Debug => "This is a debug message".spec_bytes(),
        Level::Trace => "This is a trace message".spec_bytes(),
    }
}

/// The message of a series event: the opening of its level, then
/// ` from ` and the name of the sender where the sender has a name, then
/// a full stop.
pub open spec fn series_message(level: Level, sender: Seq<u8>) -> Seq<u8> {
    if sender.len() == 0 {
        opening(level) + ".".spec_bytes()
    } else {
        opening(level) + " from ".spec_bytes() + sender + ".".spec_bytes()
    }
}

/// The event of the given level in the series of `sender`, logged for
/// `target` at the time `now`.
pub open spec fn series_event(level: Level, target: Seq<u8>, sender: Seq<u8>, now: Timestamp)
    -> EventView {
    EventView {
        level,
        target,
        message: series_message(level, sender),
        timestamp: now,
        module: Seq::empty(),
        file: Seq::empty(),
        line: 0,
        metadata: Seq::empty(),
    }
}

/// The series of `sender` for `target`, emitted under the snapshot `s` of
/// version `stamp`: five events, each with its dispatch.
pub open spec fn series_of(
    s: SnapshotView,
    stamp: u64,
    target: Seq<u8>,
    sender: Seq<u8>,
    now: Timestamp,
) -> Seq<EmittedView> {
    Seq::new(
        5,
        |i: int|
            EmittedView {
                event: series_event(series_levels()[i], target, sender, now),
                dispatch: begun(s, stamp, series_event(series_levels()[i], target, sender, now)),
            },
    )
}

/// The opening of the message of a level.
fn opening_of(level: Level) -> (text: &'static [u8])
    ensures
        text@ == opening(level),
{
    match level {
        Level::Info => "This is an info message".as_bytes(),
        Level::Error => "This is an error message".as_bytes(),
        Level::Warn => "This is a warning message".as_bytes(),
        Level::Debug => "This is a debug message".as_bytes(),
        Level::Trace => "This is a trace message".as_bytes(),
    }
}

/// The message of a series event.
pub fn message_of(level: Level, sender: &[u8]) -> (text: Vec<u8>)
    ensures
        text@ == series_message(level, sender@),
{
    let mut text: Vec<u8> = Vec::new();
    append_bytes(&mut text, opening_of(level));
    if sender.len() > 0 {
        append_bytes(&mut text, " from ".as_bytes());
        append_bytes(&mut text, sender);
    }
    append_bytes(&mut text, ".".as_bytes());
    assert(text@ =~= series_message(level, sender@));
    text
}

/// Emits the series of `sender` for `target`: an info, an error, a
/// warning, a debug and a trace event, in this order.
pub fn emit_series(engine: &mut Engine, target: &[u8], sender: &[u8], now: Timestamp) -> (out: Vec<
    Emitted,
>)
    ensures
        final(engine)@ == old(engine)@,
        emitted_views(out@) == series_of(
            old(engine)@.snapshot,
            old(engine)@.version,
            target@,
            sender@,
            now,
        ),
{
    let levels: [Level; 5] = [Level::Info, Level::Error, Level::Warn, Level::Debug, Level::Trace];
    let ghost want = series_of(old(engine)@.snapshot, old(engine)@.version, target@, sender@, now);
    let mut out: Vec<Emitted> = Vec::new();
    let mut i: usize = 0;
    while i < 5
        invariant
            i <= 5,
            engine@ == old(engine)@,
            levels@ =~= series_levels(),
            want == series_of(old(engine)@.snapshot, old(engine)@.version, target@, sender@, now),
            out@.len() == i,
            forall|k: int| 0 <= k < i ==> (#[trigger] out@[k])@ == want[k],
        decreases 5 - i,
    {
        let level = levels[i];
        let event = Event::new(level, copy_bytes(target), message_of(level, sender), now);
        let dispatch = engine.dispatch(&event);
        out.push(Emitted { event, dispatch });
        i += 1;
    }
    assert(emitted_views(out@) =~= want);
    out
}

} // verus!
