//! A hierarchical logging engine: severity levels, filters, layouts,
//! appenders, a registry of named loggers with inherited settings, the
//! dispatch of one event to the appenders that are to receive it, and the
//! replacement of the whole configuration in one step.
//!
//! The engine decides and renders; it never touches a stream or a file.
//! Whoever drives it performs the writes it asks for and reports back how
//! each one went.
//!
//! The modules `foo` and `fee` hold senders at several depths of the
//! hierarchy. Each sends one event of every level, so that the effect of
//! a configuration on each of them can be seen.

pub mod appender;
pub mod dispatch;
pub mod engine;
pub mod event;
pub mod fanout;
pub mod fee;
pub mod filter;
pub mod foo;
pub mod interleave;
pub mod layout;
pub mod level;
pub mod name;
pub mod pattern;
pub mod queue;
pub mod record;
pub mod registry;
pub mod retire;
pub mod rolling;
pub mod sample;
pub mod snapshot;
pub mod text;
pub mod wrap;
pub mod written;

use crate::engine::Engine;
use crate::event::Timestamp;
use crate::sample::{emit_series, emitted_views, series_of, Emitted};
use vstd::prelude::*;
use vstd::string::StringSliceAdditionalSpecFns;

verus! {

/// The target of the events that the crate's root sends.
pub open spec fn target() -> Seq<u8> {
    "log4rs_guide".spec_bytes()
}

/// Moves the items of `more` to the end of `out`.
fn append_emitted(out: &mut Vec<Emitted>, more: Vec<Emitted>)
    ensures
        emitted_views(final(out)@) == emitted_views(old(out)@) + emitted_views(more@),
{
    let ghost added = more@;
    let mut rest = more;
    out.append(&mut rest);
    assert(emitted_views(out@) =~= emitted_views(old(out)@) + emitted_views(added));
}

/// Emits the series of the root, which signs with no name, and then the
/// series of the senders `bar`, `baz`, `fi` and `fum`, in this order.
pub fn test_logging(engine: &mut Engine, now: Timestamp) -> (out: Vec<Emitted>)
    ensures
        final(engine)@ == old(engine)@,
        emitted_views(out@) == series_of(
            old(engine)@.snapshot,
            old(engine)@.version,
            target(),
            Seq::empty(),
            now,
        ) + series_of(
            old(engine)@.snapshot,
            old(engine)@.version,
            foo::bar::target(),
            foo::bar::sender(),
            now,
        ) + series_of(
            old(engine)@.snapshot,
            old(engine)@.version,
            foo::baz::target(),
            foo::baz::sender(),
            now,
        ) + series_of(
            old(engine)@.snapshot,
            old(engine)@.version,
            fee::fi::target(),
            fee::fi::sender(),
            now,
        ) + series_of(
            old(engine)@.snapshot,
            old(engine)@.version,
            fee::fi::fo::fum::target(),
            fee::fi::fo::fum::sender(),
            now,
        ),
{
    let nobody: Vec<u8> = Vec::new();
    let mut out = emit_series(engine, "log4rs_guide".as_bytes(), nobody.as_slice(), now);
    append_emitted(&mut out, foo::bar::test_logging(engine, now));
    append_emitted(&mut out, foo::baz::test_logging(engine, now));
    append_emitted(&mut out, fee::fi::test_logging(engine, now));
    append_emitted(&mut out, fee::fi::fo::fum::test_logging(engine, now));
    out
}

} // verus!
