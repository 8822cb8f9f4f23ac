//! The sender `bar`.

use crate::engine::Engine;
use crate::event::Timestamp;
use crate::sample::{emit_series, emitted_views, series_of, Emitted};
use vstd::prelude::*;
use vstd::string::StringSliceAdditionalSpecFns;

verus! {

/// The target of the events that this module sends.
pub open spec fn target() -> Seq<u8> {
    "log4rs_guide::foo::bar".spec_bytes()
}

/// The name by which this module signs its messages.
pub open spec fn sender() -> Seq<u8> {
    "bar".spec_bytes()
}

/// Emits one event of each level for this module's target: an info, an
/// error, a warning, a debug and a trace event, in this order.
pub fn test_logging(engine: &mut Engine, now: Timestamp) -> (out: Vec<Emitted>)
    ensures
        final(engine)@ == old(engine)@,
        emitted_views(out@) == series_of(
            old(engine)@.snapshot,
            old(engine)@.version,
            target(),
            sender(),
            now,
        ),
{
    emit_series(engine, "log4rs_guide::foo::bar".as_bytes(), "bar".as_bytes(), now)
}

} // verus!
