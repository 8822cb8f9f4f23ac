//! Severity levels and their total order.

use std::cmp::Ordering;
use vstd::prelude::*;

verus! {

/// The severity of an event, from the least to the most severe.
#[derive(Clone, Copy, Debug, PartialEq, Eq, Structural)]
pub enum Level {
    Trace,
    Debug,
    Info,
    Warn,
    Error,
}

impl Level {
    /// The position of the level in the order `Trace < Debug < Info < Warn < Error`.
    pub open spec fn rank(self) -> int {
        match self {
            Level::Trace => 0,
            Level::Debug => 1,
            Level::Info => 2,
            Level::Warn => 3,
            Level::Error => 4,
        }
    }

    /// The upper-case name under which the level is rendered.
    pub open spec fn name(self) -> Seq<u8> {
        match self {
            Level::Trace => seq![84u8, 82u8, 65u8, 67u8, 69u8],
            Level::Debug => seq![68u8, 69u8, 66u8, 85u8, 71u8],
            Level::Info => seq![73u8, 78u8, 70u8, 79u8],
            Level::Warn => seq![87u8, 65u8, 82u8, 78u8],
            Level::Error => seq![69u8, 82u8, 82u8, 79u8, 82u8],
        }
    }

    /// Whether an event of this level passes a gate set at `threshold`.
    pub open spec fn passes_spec(self, threshold: Level) -> bool {
        self.rank() >= threshold.rank()
    }

    /// The rank as a machine integer.
    pub fn severity(self) -> (r: u8)
        ensures
            r == self.rank(),
    {
        match self {
            Level::Trace => 0,
            Level::Debug => 1,
            Level::Info => 2,
            Level::Warn => 3,
            Level::Error => 4,
        }
    }

    /// Whether an event of this level passes a gate set at `threshold`:
    /// it does when it is at least as severe.
    pub fn passes(self, threshold: Level) -> (ok: bool)
        ensures
            ok == self.passes_spec(threshold),
    {
        self.severity() >= threshold.severity()
    }

    /// The name of the level as bytes, such as `INFO`.
    pub fn as_bytes(self) -> (out: Vec<u8>)
        ensures
            out@ == self.name(),
    {
        let out = match self {
            Level::Trace => vec![84u8, 82u8, 65u8, 67u8, 69u8],
            Level::Debug => vec![68u8, 69u8, 66u8, 85u8, 71u8],
            Level::Info => vec![73u8, 78u8, 70u8, 79u8],
            Level::Warn => vec![87u8, 65u8, 82u8, 78u8],
            Level::Error => vec![69u8, 82u8, 82u8, 79u8, 82u8],
        };
        assert(out@ =~= self.name());
        out
    }
}

/// The level whose name is `name`, if there is one.
pub open spec fn level_named(name: Seq<u8>) -> Option<Level> {
    if name == Level::Trace.name() {
        Some(Level::Trace)
    } else if name == Level::Debug.name() {
        Some(Level::Debug)
    } else if name == Level::Info.name() {
        Some(Level::Info)
    } else if name == Level::Warn.name() {
        Some(Level::Warn)
    } else if name == Level::Error.name() {
        Some(Level::Error)
    } else {
        None
    }
}

/// How two integers stand to each other.
pub open spec fn order_of(a: int, b: int) -> Ordering {
    if a < b {
        Ordering::Less
    } else if a == b {
        Ordering::Equal
    } else {
        Ordering::Greater
    }
}

/// Compares two levels by severity.
pub fn compare(a: Level, b: Level) -> (o: Ordering)
    ensures
        o == order_of(a.rank(), b.rank()),
{
    let x: u8 = a.severity();
    let y: u8 = b.severity();
    if x < y {
        Ordering::Less
    } else if x == y {
        Ordering::Equal
    } else {
        Ordering::Greater
    }
}

/// Whether `bytes` spell exactly `word`.
fn spells(bytes: &[u8], word: &Vec<u8>) -> (same: bool)
    ensures
        same == (bytes@ == word@),
{
    if bytes.len() != word.len() {
        return false;
    }
    let mut i: usize = 0;
    while i < bytes.len()
        invariant
            bytes.len() == word.len(),
            i <= bytes.len(),
            forall|k: int| 0 <= k < i ==> bytes@[k] == word@[k],
        decreases bytes.len() - i,
    {
        if bytes[i] != word[i] {
            return false;
        }
        i += 1;
    }
    assert(bytes@ =~= word@);
    true
}

/// Reads a level from its upper-case name; any other text is no level.
pub fn parse_level(bytes: &[u8]) -> (found: Option<Level>)
    ensures
        found == level_named(bytes@),
{
    if spells(bytes, &Level::Trace.as_bytes()) {
        Some(Level::Trace)
    } else if spells(bytes, &Level::Debug.as_bytes()) {
        Some(Level::Debug)
    } else if spells(bytes, &Level::Info.as_bytes()) {
        Some(Level::Info)
    } else if spells(bytes, &Level::Warn.as_bytes()) {
        Some(Level::Warn)
    } else if spells(bytes, &Level::Error.as_bytes()) {
        Some(Level::Error)
    } else {
        None
    }
}

/// The order of levels is total: any two levels compare one way or the
/// other, and comparing the same two the other way round gives the mirror
/// answer.
pub proof fn lemma_order_total(a: Level, b: Level)
    ensures
        a.passes_spec(b) || b.passes_spec(a),
        a.passes_spec(b) && b.passes_spec(a) ==> a == b,
        order_of(a.rank(), b.rank()) == Ordering::Equal <==> a == b,
        order_of(a.rank(), b.rank()) == Ordering::Less <==> order_of(b.rank(), a.rank())
            == Ordering::Greater,
{
}

/// The order of levels is transitive.
pub proof fn lemma_order_transitive(a: Level, b: Level, c: Level)
    requires
        a.passes_spec(b),
        b.passes_spec(c),
    ensures
        a.passes_spec(c),
{
}

/// A level's name reads back as that level.
pub proof fn lemma_name_round_trip(l: Level)
    ensures
        level_named(l.name()) == Some(l),
        l.name().len() > 0,
        forall|i: int| 0 <= i < l.name().len() ==> l.name()[i] != 32u8 && l.name()[i] != 10u8,
{
    let t = Level::Trace.name();
    let d = Level::Debug.name();
    let i = Level::Info.name();
    let w = Level::Warn.name();
    let e = Level::Error.name();
    assert(t[0] == 84u8 && d[0] == 68u8 && i[0] == 73u8 && w[0] == 87u8 && e[0] == 69u8);
    assert(t.len() == 5 && d.len() == 5 && i.len() == 4 && w.len() == 4 && e.len() == 5);
}

} // verus!
