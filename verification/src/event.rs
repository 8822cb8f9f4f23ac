//! Log events.

use crate::level::Level;
use crate::name::same_bytes;
use vstd::prelude::*;

verus! {

/// A point in time, in microseconds since the epoch.
#[derive(Clone, Copy, Debug, PartialEq, Eq, Structural)]
pub struct Timestamp {
    pub micros: u64,
}

/// Where in the source an event was emitted.
#[derive(Clone, Debug)]
pub struct Location {
    pub module: Vec<u8>,
    pub file: Vec<u8>,
    pub line: u32,
}

/// One entry of an event's structured metadata.
#[derive(Clone, Debug)]
pub struct Field {
    pub key: Vec<u8>,
    pub value: Vec<u8>,
}

/// One log event. It is made once, where the program logs, and handed
/// around by reference from then on.
#[derive(Clone, Debug)]
pub struct Event {
    pub level: Level,
    pub target: Vec<u8>,
    pub message: Vec<u8>,
    pub timestamp: Timestamp,
    pub location: Location,
    pub metadata: Vec<Field>,
}

/// A metadata field as a mathematical value.
pub struct FieldView {
    pub key: Seq<u8>,
    pub value: Seq<u8>,
}

impl View for Field {
    type V = FieldView;

    open spec fn view(&self) -> FieldView {
        FieldView { key: self.key@, value: self.value@ }
    }
}

/// An event as a mathematical value.
pub struct EventView {
    pub level: Level,
    pub target: Seq<u8>,
    pub message: Seq<u8>,
    pub timestamp: Timestamp,
    pub module: Seq<u8>,
    pub file: Seq<u8>,
    pub line: u32,
    pub metadata: Seq<FieldView>,
}

impl View for Event {
    type V = EventView;

    open spec fn view(&self) -> EventView {
        EventView {
            level: self.level,
            target: self.target@,
            message: self.message@,
            timestamp: self.timestamp,
            module: self.location.module@,
            file: self.location.file@,
            line: self.location.line,
            metadata: Seq::new(self.metadata@.len(), |i: int| self.metadata@[i]@),
        }
    }
}

/// The position of the first field at or after `from` whose key is `key`,
/// or the number of fields where there is none.
pub open spec fn key_position(fields: Seq<FieldView>, key: Seq<u8>, from: int) -> int
    decreases fields.len() - from,
{
    if from < 0 || from >= fields.len() {
        fields.len() as int
    } else if fields[from].key == key {
        from
    } else {
        key_position(fields, key, from + 1)
    }
}

/// The value that the metadata gives for `key`: that of the first field
/// with this key.
pub open spec fn meta_value(fields: Seq<FieldView>, key: Seq<u8>) -> Option<Seq<u8>> {
    let at = key_position(fields, key, 0);
    if at < fields.len() {
        Some(fields[at].value)
    } else {
        None
    }
}

/// `key_position` finds the first field with the key, if any field has it.
pub proof fn lemma_key_position(fields: Seq<FieldView>, key: Seq<u8>, from: int)
    requires
        0 <= from <= fields.len(),
    ensures
        from <= key_position(fields, key, from) <= fields.len(),
        key_position(fields, key, from) < fields.len() ==> fields[key_position(
            fields,
            key,
            from,
        )].key == key,
        forall|j: int| from <= j < key_position(fields, key, from) ==> fields[j].key != key,
    decreases fields.len() - from,
{
    if from < fields.len() && fields[from].key != key {
        lemma_key_position(fields, key, from + 1);
    }
}

impl Event {
    /// An event with the given level, target, message and time, without
    /// source location or metadata.
    pub fn new(level: Level, target: Vec<u8>, message: Vec<u8>, timestamp: Timestamp) -> (e: Event)
        ensures
            e@ == (EventView {
                level,
                target: target@,
                message: message@,
                timestamp,
                module: Seq::empty(),
                file: Seq::empty(),
                line: 0,
                metadata: Seq::empty(),
            }),
    {
        let e =
        Event {
            level,
            target,
            message,
            timestamp,
            location: Location { module: Vec::new(), file: Vec::new(), line: 0 },
            metadata: Vec::new(),
        };
        assert(e@.metadata =~= Seq::empty());
        e
    }

    /// The same event with one more metadata field at the end.
    pub fn with_field(self, key: Vec<u8>, value: Vec<u8>) -> (e: Event)
        ensures
            e@ == (EventView {
                metadata: self@.metadata.push(FieldView { key: key@, value: value@ }),
                ..self@
            }),
    {
        let mut e = self;
        e.metadata.push(Field { key, value });
        assert(e@.metadata =~= self@.metadata.push(FieldView { key: key@, value: value@ }));
        e
    }

    /// The same event with its source location set.
    pub fn at(self, module: Vec<u8>, file: Vec<u8>, line: u32) -> (e: Event)
        ensures
            e@ == (EventView { module: module@, file: file@, line, ..self@ }),
    {
        let mut e = self;
        e.location = Location { module, file, line };
        e
    }

    /// The position of the first metadata field with the given key, if any.
    pub fn find_key(&self, key: &[u8]) -> (found: Option<usize>)
        ensures
            match found {
                Some(i) => i < self.metadata@.len() && i == key_position(self@.metadata, key@, 0),
                None => key_position(self@.metadata, key@, 0) == self.metadata@.len(),
            },
    {
        let mut i: usize = 0;
        while i < self.metadata.len()
            invariant
                i <= self.metadata@.len(),
                key_position(self@.metadata, key@, 0) == key_position(
                    self@.metadata,
                    key@,
                    i as int,
                ),
            decreases self.metadata@.len() - i,
        {
            if same_bytes(self.metadata[i].key.as_slice(), key) {
                return Some(i);
            }
            i += 1;
        }
        None
    }
}

} // verus!
