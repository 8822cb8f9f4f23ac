//! Appenders: named sinks for encoded records.
//!
//! An appender is described here by what the engine needs of it: its name,
//! where its records go, and the layout that encodes them. The streams and
//! files themselves belong to whoever drives the engine.

use crate::layout::Layout;
use crate::text::append_bytes;
use vstd::prelude::*;
use vstd::string::StringSliceAdditionalSpecFns;

verus! {

/// One of the two standard streams.
#[derive(Clone, Copy, Debug, PartialEq, Eq, Structural)]
pub enum Stream {
    Stdout,
    Stderr,
}

/// When a rolling file is rolled.
#[derive(Clone, Copy, Debug, PartialEq, Eq, Structural)]
pub enum RollPolicy {
    /// Before a write that would take the file beyond `limit` bytes.
    Size { limit: u64 },
    /// Once the file has been open for `micros` microseconds.
    Age { micros: u64 },
}

/// What becomes of the file that is rolled.
#[derive(Clone, Copy, Debug, PartialEq, Eq, Structural)]
pub enum RollStrategy {
    /// It is removed.
    Delete,
    /// It becomes archive 1, each archive moves up by one, and the archive
    /// that would get a number above `count` is removed. With `compress`,
    /// the new archive 1 is compressed where it lies.
    FixedWindow { count: u16, compress: bool },
}

/// Where the records of an appender go.
#[derive(Clone, Debug)]
pub enum Destination {
    Console { stream: Stream },
    File { path: Vec<u8> },
    RollingFile { path: Vec<u8>, policy: RollPolicy, strategy: RollStrategy },
    /// A queue of `capacity` records before the appender named `inner`,
    /// which another thread writes to.
    Buffered { inner: Vec<u8>, capacity: usize },
}

/// One appender of a configuration.
#[derive(Clone, Debug)]
pub struct Appender {
    /// The name by which loggers refer to the appender.
    pub name: Vec<u8>,
    pub destination: Destination,
    pub layout: Layout,
    /// Whether the destination could be opened for writing.
    pub writable: bool,
}

/// What it was that an appender failed to do.
#[derive(Clone, Copy, Debug, PartialEq, Eq, Structural)]
pub enum AppendError {
    /// The record could not be written.
    Write,
    /// What was written could not be flushed.
    Flush,
    /// The file could not be rolled.
    Roll,
    /// The queue before the writer had no room for the record.
    Full,
}

/// What an error says of itself.
pub open spec fn error_text(error: AppendError) -> Seq<u8> {
    match error {
        AppendError::Write => "write failed".spec_bytes(),
        AppendError::Flush => "flush failed".spec_bytes(),
        AppendError::Roll => "roll failed".spec_bytes(),
        AppendError::Full => "queue full".spec_bytes(),
    }
}

/// The line that reports the failure of the appender `name` where the
/// records themselves cannot be written: `appender <name>: <what failed>`
/// and a line feed.
pub open spec fn failure_line(name: Seq<u8>, error: AppendError) -> Seq<u8> {
    "appender ".spec_bytes() + name + ": ".spec_bytes() + error_text(error) + "\n".spec_bytes()
}

/// Renders the line that reports the failure of the appender `name`.
pub fn report_line(name: &[u8], error: AppendError) -> (line: Vec<u8>)
    ensures
        line@ == failure_line(name@, error),
{
    let mut line: Vec<u8> = Vec::new();
    append_bytes(&mut line, "appender ".as_bytes());
    append_bytes(&mut line, name);
    append_bytes(&mut line, ": ".as_bytes());
    let what: &[u8] = match error {
        AppendError::Write => "write failed".as_bytes(),
        AppendError::Flush => "flush failed".as_bytes(),
        AppendError::Roll => "roll failed".as_bytes(),
        AppendError::Full => "queue full".as_bytes(),
    };
    append_bytes(&mut line, what);
    append_bytes(&mut line, "\n".as_bytes());
    assert(line@ =~= failure_line(name@, error));
    line
}

/// The name of the appender that `a` wraps, if it wraps one.
pub open spec fn inner_name(a: Appender) -> Option<Seq<u8>> {
    match a.destination {
        Destination::Buffered { inner, capacity } => Some(inner@),
        _ => None,
    }
}

/// The names of the appenders, in order.
pub open spec fn appender_names(appenders: Seq<Appender>) -> Seq<Seq<u8>> {
    Seq::new(appenders.len(), |i: int| appenders[i].name@)
}

} // verus!
