//! The engine: the active snapshot, its replacement, and the memory of
//! what targets resolve to.
//!
//! The engine holds exactly one snapshot at a time. Reloading either
//! replaces it as a whole or leaves it untouched. What a target resolves
//! to is remembered under the version of the snapshot that gave it, so
//! that nothing remembered under an earlier snapshot is ever used again.

use crate::dispatch::{begin_resolved, begun, Dispatch};
use crate::event::{Event, Field, Location, Timestamp};
use crate::level::Level;
use crate::name::same_bytes;
use crate::registry::{effective_appenders, effective_level, EffectiveConfig};
use crate::snapshot::{snapshot_of, validate, Config, ConfigError, Snapshot, SnapshotView};
use crate::text::copy_bytes;
use vstd::prelude::*;

verus! {

/// The greatest number of targets whose resolution is remembered.
pub const MEMORY: usize = 1024;

/// What one target resolved to under the snapshot of version `stamp`.
#[derive(Debug)]
struct Memo {
    target: Vec<u8>,
    stamp: u64,
    level: Level,
    appenders: Vec<usize>,
}

/// The engine as a mathematical value: the active snapshot and its version.
pub struct EngineView {
    pub snapshot: SnapshotView,
    pub version: u64,
}

/// The engine.
#[derive(Debug)]
pub struct Engine {
    snapshot: Snapshot,
    version: u64,
    memory: Vec<Memo>,
}

/// The version that follows `v`.
pub open spec fn next_version(v: u64) -> u64 {
    if v == u64::MAX {
        0
    } else {
        (v + 1) as u64
    }
}

/// What a target resolves to depends on the registry of the active
/// snapshot and on the target, and on nothing else: two engines with the
/// same registry resolve every target alike, whatever their versions,
/// whatever they remember, and however often they are asked.
pub proof fn lemma_resolution_is_determined(a: EngineView, b: EngineView, target: Seq<u8>)
    requires
        a.snapshot.registry == b.snapshot.registry,
    ensures
        effective_level(a.snapshot.registry, target) == effective_level(
            b.snapshot.registry,
            target,
        ),
        effective_appenders(a.snapshot.registry, target) == effective_appenders(
            b.snapshot.registry,
            target,
        ),
{
}

/// Whether what `m` remembers may be used under the snapshot `s` of the
/// given version: it is older, or it is what its target resolves to.
spec fn memo_sound(m: Memo, s: SnapshotView, version: u64) -> bool {
    &&& m.stamp <= version
    &&& m.stamp == version ==> {
        &&& m.level == effective_level(s.registry, m.target@)
        &&& m.appenders@ == effective_appenders(s.registry, m.target@)
        &&& forall|i: int| 0 <= i < m.appenders@.len() ==> m.appenders@[i] < s.appenders.len()
    }
}

/// Whether everything in `memory` may be used under the snapshot `s`.
spec fn memory_sound(memory: Seq<Memo>, s: SnapshotView, version: u64) -> bool {
    forall|i: int| 0 <= i < memory.len() ==> memo_sound(#[trigger] memory[i], s, version)
}

/// A copy of a list of positions.
fn copy_list(list: &Vec<usize>) -> (out: Vec<usize>)
    ensures
        out@ == list@,
{
    let mut out: Vec<usize> = Vec::new();
    let mut i: usize = 0;
    while i < list.len()
        invariant
            i <= list@.len(),
            out@ == list@.subrange(0, i as int),
        decreases list@.len() - i,
    {
        out.push(list[i]);
        assert(out@ =~= list@.subrange(0, i + 1));
        i += 1;
    }
    assert(list@.subrange(0, list@.len() as int) =~= list@);
    out
}

/// The position in `memory` of what is remembered for `target`: the first
/// entry for this target, or nothing where no entry is for it.
fn recall(memory: &Vec<Memo>, target: &[u8]) -> (found: Option<usize>)
    ensures
        match found {
            Some(i) => {
                &&& i < memory@.len()
                &&& memory@[i as int].target@ == target@
                &&& forall|k: int| 0 <= k < i ==> (#[trigger] memory@[k]).target@ != target@
            },
            None => forall|k: int|
                0 <= k < memory@.len() ==> (#[trigger] memory@[k]).target@ != target@,
        },
{
    let mut i: usize = 0;
    while i < memory.len()
        invariant
            i <= memory@.len(),
            forall|k: int| 0 <= k < i ==> (#[trigger] memory@[k]).target@ != target@,
        decreases memory@.len() - i,
    {
        if same_bytes(memory[i].target.as_slice(), target) {
            return Some(i);
        }
        i += 1;
    }
    None
}

impl View for Engine {
    type V = EngineView;

    closed spec fn view(&self) -> EngineView {
        EngineView { snapshot: self.snapshot@, version: self.version }
    }
}

impl Engine {
    #[verifier::type_invariant]
    spec fn well_formed(self) -> bool {
        memory_sound(self.memory@, self.snapshot@, self.version)
    }

    /// An engine whose first snapshot is made of `config`. It fails on
    /// the first fault that `validate` names, and only then.
    pub fn new(config: Config) -> (r: Result<Engine, ConfigError>)
        ensures
            match r {
                Ok(engine) => validate(config) is Ok && engine@ == (EngineView {
                    snapshot: snapshot_of(config),
                    version: 0,
                }),
                Err(e) => validate(config) == Err::<(), ConfigError>(e),
            },
    {
        match Snapshot::build(config) {
            Ok(snapshot) => Ok(Engine { snapshot, version: 0, memory: Vec::new() }),
            Err(e) => Err(e),
        }
    }

    /// Replaces the active snapshot by the one that `config` gives, under
    /// the next version. Where `config` is not valid, the engine stays
    /// exactly as it was and the fault is returned.
    pub fn reload(&mut self, config: Config) -> (r: Result<(), ConfigError>)
        ensures
            match r {
                Ok(_) => validate(config) is Ok && final(self)@ == (EngineView {
                    snapshot: snapshot_of(config),
                    version: next_version(old(self)@.version),
                }),
                Err(e) => validate(config) == Err::<(), ConfigError>(e) && final(self)@ == old(
                    self,
                )@,
            },
    {
        proof {
            use_type_invariant(&*self);
        }
        match Snapshot::build(config) {
            Err(e) => Err(e),
            Ok(snapshot) => {
                let mut memory: Vec<Memo> = Vec::new();
                let version: u64;
                if self.version == u64::MAX {
                    version = 0;
                } else {
                    std::mem::swap(&mut self.memory, &mut memory);
                    version = self.version + 1;
                }
                *self = Engine { snapshot, version, memory };
                Ok(())
            },
        }
    }

    /// The active snapshot.
    pub fn snapshot(&self) -> (s: &Snapshot)
        ensures
            s@ == self@.snapshot,
    {
        &self.snapshot
    }

    /// The version of the active snapshot.
    pub fn version(&self) -> (v: u64)
        ensures
            v == self@.version,
    {
        self.version
    }

    /// Resolves a target under the active snapshot. The answer is
    /// remembered, and a remembered answer is given again as it is; what
    /// is remembered never changes what the target resolves to.
    pub fn resolve(&mut self, target: &[u8]) -> (r: EffectiveConfig)
        ensures
            final(self)@ == old(self)@,
            r.level == effective_level(old(self)@.snapshot.registry, target@),
            r.appenders@ == effective_appenders(old(self)@.snapshot.registry, target@),
            forall|i: int|
                0 <= i < r.appenders@.len() ==> r.appenders@[i] < old(
                    self,
                )@.snapshot.appenders.len(),
    {
        proof {
            use_type_invariant(&*self);
        }
        let slot = recall(&self.memory, target);
        match slot {
            Some(i) => {
                if self.memory[i].stamp == self.version {
                    assert(memo_sound(self.memory@[i as int], self.snapshot@, self.version));
                    return EffectiveConfig {
                        level: self.memory[i].level,
                        appenders: copy_list(&self.memory[i].appenders),
                    };
                }
            },
            None => {},
        }
        let r = self.snapshot.resolve(target);
        let memo = Memo {
            target: copy_bytes(target),
            stamp: self.version,
            level: r.level,
            appenders: copy_list(&r.appenders),
        };
        assert(memo_sound(memo, self.snapshot@, self.version));
        let mut memory: Vec<Memo> = Vec::new();
        std::mem::swap(&mut self.memory, &mut memory);
        match slot {
            Some(i) => {
                memory.set(i, memo);
            },
            None => {
                if memory.len() >= MEMORY {
                    memory = Vec::new();
                }
                memory.push(memo);
            },
        }
        assert(memory_sound(memory@, self.snapshot@, self.version)) by {
            assert forall|k: int| 0 <= k < memory@.len() implies memo_sound(
                #[trigger] memory@[k],
                self.snapshot@,
                self.version,
            ) by {
                if memory@[k] != memo {
                    assert(memory@[k] == old(self).memory@[k]);
                }
            }
        }
        std::mem::swap(&mut self.memory, &mut memory);
        r
    }

    /// Whether an event of the given level for the given target would
    /// pass the level gate. This is the check to make before any work is
    /// spent on the message.
    pub fn enabled(&mut self, level: Level, target: &[u8]) -> (yes: bool)
        ensures
            final(self)@ == old(self)@,
            yes == level.passes_spec(effective_level(old(self)@.snapshot.registry, target@)),
    {
        let r = self.resolve(target);
        level.passes(r.level)
    }

    /// Begins the dispatch of `e` under the active snapshot. The whole
    /// dispatch is planned here, from this one snapshot; a later reload
    /// does not touch it.
    pub fn dispatch(&mut self, e: &Event) -> (d: Dispatch)
        ensures
            final(self)@ == old(self)@,
            d@ == begun(old(self)@.snapshot, old(self)@.version, e@),
    {
        let config = self.resolve(e.target.as_slice());
        begin_resolved(&self.snapshot, self.version, &config, e)
    }

    /// Makes an event of its parts and begins its dispatch.
    pub fn emit(
        &mut self,
        level: Level,
        target: Vec<u8>,
        message: Vec<u8>,
        metadata: Vec<Field>,
        location: Location,
        now: Timestamp,
    ) -> (d: Dispatch)
        ensures
            final(self)@ == old(self)@,
            d@ == begun(
                old(self)@.snapshot,
                old(self)@.version,
                (Event { level, target, message, timestamp: now, location, metadata })@,
            ),
    {
        let e = Event { level, target, message, timestamp: now, location, metadata };
        self.dispatch(&e)
    }
}

} // verus!
