//! Which snapshots are still in use.
//!
//! A dispatch holds the snapshot under which it began until its last
//! delivery was attempted. A snapshot that was superseded by a reload is
//! retired, that is, its appenders are flushed and released, as soon as
//! no dispatch holds it any more, and not before.

use vstd::prelude::*;

verus! {

/// How many dispatches hold the snapshot of one version.
#[derive(Clone, Copy, Debug, PartialEq, Eq, Structural)]
pub struct Holding {
    pub version: u64,
    pub count: u64,
}

/// The ledger as a mathematical value: the version of the active
/// snapshot, and for each snapshot that is not retired yet the number of
/// dispatches that hold it.
pub struct LedgerView {
    pub current: u64,
    pub held: Map<u64, nat>,
}

/// The ledger of the snapshots in use.
#[derive(Debug)]
pub struct Ledger {
    current: u64,
    holdings: Vec<Holding>,
}

/// What the ledger answers to a reload.
#[derive(Clone, Copy, Debug, PartialEq, Eq, Structural)]
pub enum Superseded {
    /// The snapshot that was active is not held: retire it now.
    RetireNow { version: u64 },
    /// The snapshot that was active is still held: it is retired when
    /// its last holder leaves.
    RetireLater,
    /// The new version is that of a snapshot that is not retired yet:
    /// nothing was changed.
    VersionInUse,
}

/// Whether some holding is for the version `v`.
pub open spec fn has_version(holdings: Seq<Holding>, v: u64) -> bool {
    exists|i: int| 0 <= i < holdings.len() && (#[trigger] holdings[i]).version == v
}

/// The position of a holding for the version `v`.
pub open spec fn holding_of(holdings: Seq<Holding>, v: u64) -> int {
    choose|i: int| 0 <= i < holdings.len() && (#[trigger] holdings[i]).version == v
}

/// The counts of the holdings by version.
pub open spec fn held_map(holdings: Seq<Holding>) -> Map<u64, nat> {
    Map::new(
        |v: u64| has_version(holdings, v),
        |v: u64| holdings[holding_of(holdings, v)].count as nat,
    )
}

/// Whether no two holdings are for the same version.
pub open spec fn versions_distinct(holdings: Seq<Holding>) -> bool {
    forall|i: int, j: int|
        0 <= i < j < holdings.len() ==> (#[trigger] holdings[i]).version != (
        #[trigger] holdings[j]).version
}

/// Whether the ledger is in a state that its operations can reach: the
/// active snapshot is listed, and every other listed snapshot is held.
pub open spec fn ledger_sound(l: LedgerView) -> bool {
    &&& l.held.contains_key(l.current)
    &&& forall|v: u64| l.held.contains_key(v) && v != l.current ==> #[trigger] l.held[v] > 0
}

/// The ledger after a dispatch began under the active snapshot.
pub open spec fn entered(l: LedgerView) -> LedgerView {
    LedgerView { current: l.current, held: l.held.insert(l.current, l.held[l.current] + 1) }
}

/// Whether the snapshot of version `v` is to be retired when a holder of
/// it leaves: it was superseded, and the holder is its last.
pub open spec fn retires_on_leave(l: LedgerView, v: u64) -> bool {
    l.held.contains_key(v) && v != l.current && l.held[v] == 1
}

/// The ledger after a holder of the snapshot of version `v` left. A
/// version that is not listed or not held leaves the ledger as it is.
pub open spec fn left(l: LedgerView, v: u64) -> LedgerView {
    if !l.held.contains_key(v) || l.held[v] == 0 {
        l
    } else if retires_on_leave(l, v) {
        LedgerView { current: l.current, held: l.held.remove(v) }
    } else {
        LedgerView { current: l.current, held: l.held.insert(v, (l.held[v] - 1) as nat) }
    }
}

/// The ledger after the active snapshot was superseded by the one of
/// version `next`.
pub open spec fn superseded(l: LedgerView, next: u64) -> LedgerView {
    if l.held.contains_key(next) {
        l
    } else if l.held[l.current] == 0 {
        LedgerView { current: next, held: l.held.remove(l.current).insert(next, 0) }
    } else {
        LedgerView { current: next, held: l.held.insert(next, 0) }
    }
}

/// With distinct versions, the map holds each holding's count under its
/// version.
proof fn lemma_held_map(holdings: Seq<Holding>)
    requires
        versions_distinct(holdings),
    ensures
        forall|i: int|
            0 <= i < holdings.len() ==> held_map(holdings).contains_key(
                (#[trigger] holdings[i]).version,
            ) && held_map(holdings)[holdings[i].version] == holdings[i].count,
{
    assert forall|i: int| 0 <= i < holdings.len() implies held_map(holdings).contains_key(
        (#[trigger] holdings[i]).version,
    ) && held_map(holdings)[holdings[i].version] == holdings[i].count by {
        let v = holdings[i].version;
        assert(has_version(holdings, v));
        let j = holding_of(holdings, v);
        if i < j {
            assert(holdings[i].version != holdings[j].version);
        }
        if j < i {
            assert(holdings[j].version != holdings[i].version);
        }
    }
}

/// The position of the holding for the version `v`, if there is one.
fn find(holdings: &Vec<Holding>, v: u64) -> (found: Option<usize>)
    ensures
        match found {
            Some(i) => i < holdings@.len() && holdings@[i as int].version == v,
            None => !has_version(holdings@, v),
        },
{
    let mut i: usize = 0;
    while i < holdings.len()
        invariant
            i <= holdings@.len(),
            forall|k: int| 0 <= k < i ==> (#[trigger] holdings@[k]).version != v,
        decreases holdings@.len() - i,
    {
        if holdings[i].version == v {
            return Some(i);
        }
        i += 1;
    }
    None
}

/// A copy of a list of holdings.
fn copy_holdings(list: &Vec<Holding>) -> (out: Vec<Holding>)
    ensures
        out@ == list@,
{
    let mut out: Vec<Holding> = Vec::new();
    let mut i: usize = 0;
    while i < list.len()
        invariant
            i <= list@.len(),
            out@ == list@.subrange(0, i as int),
        decreases list@.len() - i,
    {
        out.push(list[i]);
        assert(out@ =~= list@.subrange(0, i + 1));
        i += 1;
    }
    assert(list@.subrange(0, list@.len() as int) =~= list@);
    out
}

/// A holding for a new version adds one entry to the map.
proof fn lemma_held_push(holdings: Seq<Holding>, h: Holding)
    requires
        versions_distinct(holdings),
        !has_version(holdings, h.version),
    ensures
        versions_distinct(holdings.push(h)),
        held_map(holdings.push(h)) == held_map(holdings).insert(h.version, h.count as nat),
{
    let after = holdings.push(h);
    assert forall|i: int, j: int| 0 <= i < j < after.len() implies (#[trigger] after[i]).version
        != (#[trigger] after[j]).version by {
        if j == holdings.len() {
            assert(after[i] == holdings[i]);
            if holdings[i].version == h.version {
                assert(has_version(holdings, h.version));
            }
        } else {
            assert(after[i] == holdings[i] && after[j] == holdings[j]);
        }
    }
    lemma_held_map(holdings);
    lemma_held_map(after);
    let want = held_map(holdings).insert(h.version, h.count as nat);
    assert forall|v: u64| held_map(after).contains_key(v) <==> want.contains_key(v) by {
        if has_version(after, v) {
            let i = holding_of(after, v);
            if i < holdings.len() {
                assert(after[i] == holdings[i]);
                assert(has_version(holdings, v));
            }
        }
        if has_version(holdings, v) {
            let i = holding_of(holdings, v);
            assert(after[i] == holdings[i]);
            assert(has_version(after, v));
        }
        if v == h.version {
            assert(after[holdings.len() as int] == h);
            assert(has_version(after, v));
        }
    }
    assert forall|v: u64| held_map(after).contains_key(v) implies held_map(after)[v]
        == want[v] by {
        let i = holding_of(after, v);
        if i < holdings.len() {
            assert(after[i] == holdings[i]);
        } else {
            assert(after[i] == h);
        }
    }
    assert(held_map(after) =~= want);
}

/// A changed count changes one entry of the map.
proof fn lemma_held_update(holdings: Seq<Holding>, at: int, count: u64)
    requires
        versions_distinct(holdings),
        0 <= at < holdings.len(),
    ensures
        versions_distinct(holdings.update(at, Holding { version: holdings[at].version, count })),
        held_map(holdings.update(at, Holding { version: holdings[at].version, count }))
            == held_map(holdings).insert(holdings[at].version, count as nat),
{
    let h = Holding { version: holdings[at].version, count };
    let after = holdings.update(at, h);
    assert forall|i: int| 0 <= i < after.len() implies (#[trigger] after[i]).version
        == holdings[i].version by {}
    assert forall|i: int, j: int| 0 <= i < j < after.len() implies (#[trigger] after[i]).version
        != (#[trigger] after[j]).version by {
        assert(after[i].version == holdings[i].version);
        assert(after[j].version == holdings[j].version);
    }
    lemma_held_map(holdings);
    lemma_held_map(after);
    let want = held_map(holdings).insert(h.version, count as nat);
    assert forall|v: u64| held_map(after).contains_key(v) <==> want.contains_key(v) by {
        if has_version(after, v) {
            let i = holding_of(after, v);
            assert(holdings[i].version == after[i].version);
            assert(has_version(holdings, v));
        }
        if has_version(holdings, v) {
            let i = holding_of(holdings, v);
            assert(after[i].version == holdings[i].version);
            assert(has_version(after, v));
        }
    }
    assert forall|v: u64| held_map(after).contains_key(v) implies held_map(after)[v]
        == want[v] by {
        let i = holding_of(after, v);
        if i != at {
            assert(after[i] == holdings[i]);
        }
    }
    assert(held_map(after) =~= want);
}

/// A holding that is taken out takes its entry out of the map.
proof fn lemma_held_remove(holdings: Seq<Holding>, at: int)
    requires
        versions_distinct(holdings),
        0 <= at < holdings.len(),
    ensures
        versions_distinct(holdings.update(at, holdings.last()).drop_last()),
        held_map(holdings.update(at, holdings.last()).drop_last()) == held_map(holdings).remove(
            holdings[at].version,
        ),
{
    let gone = holdings[at].version;
    let last = holdings.len() - 1;
    let after = holdings.update(at, holdings.last()).drop_last();
    assert forall|i: int| 0 <= i < after.len() implies #[trigger] after[i] == (if i == at {
        holdings[last]
    } else {
        holdings[i]
    }) by {}
    assert forall|i: int, j: int| 0 <= i < j < after.len() implies (#[trigger] after[i]).version
        != (#[trigger] after[j]).version by {
        let a = if i == at {
            last
        } else {
            i
        };
        let b = if j == at {
            last
        } else {
            j
        };
        assert(after[i] == holdings[a] && after[j] == holdings[b]);
        if a < b {
            assert(holdings[a].version != holdings[b].version);
        } else {
            assert(holdings[b].version != holdings[a].version);
        }
    }
    lemma_held_map(holdings);
    lemma_held_map(after);
    let want = held_map(holdings).remove(gone);
    assert forall|v: u64| held_map(after).contains_key(v) <==> want.contains_key(v) by {
        if has_version(after, v) {
            let i = holding_of(after, v);
            let a = if i == at {
                last
            } else {
                i
            };
            assert(after[i] == holdings[a]);
            assert(has_version(holdings, v));
            if a < at {
                assert(holdings[a].version != holdings[at].version);
            }
            if at < a {
                assert(holdings[at].version != holdings[a].version);
            }
        }
        if has_version(holdings, v) && v != gone {
            let i = holding_of(holdings, v);
            if i == last {
                assert(after[at] == holdings[last]);
            } else {
                assert(after[i] == holdings[i]);
            }
            assert(has_version(after, v));
        }
    }
    assert forall|v: u64| held_map(after).contains_key(v) implies held_map(after)[v]
        == want[v] by {
        let i = holding_of(after, v);
        let a = if i == at {
            last
        } else {
            i
        };
        assert(after[i] == holdings[a]);
    }
    assert(held_map(after) =~= want);
}

impl View for Ledger {
    type V = LedgerView;

    closed spec fn view(&self) -> LedgerView {
        LedgerView { current: self.current, held: held_map(self.holdings@) }
    }
}

impl Ledger {
    #[verifier::type_invariant]
    spec fn well_formed(self) -> bool {
        &&& versions_distinct(self.holdings@)
        &&& has_version(self.holdings@, self.current)
        &&& forall|i: int|
            0 <= i < self.holdings@.len() && (#[trigger] self.holdings@[i]).version
                != self.current ==> self.holdings@[i].count > 0
    }

    /// A ledger for a first snapshot of the given version, held by nobody.
    pub fn new(version: u64) -> (l: Ledger)
        ensures
            l@ == (LedgerView { current: version, held: Map::empty().insert(version, 0nat) }),
            ledger_sound(l@),
    {
        let first = Holding { version, count: 0 };
        let mut holdings: Vec<Holding> = Vec::new();
        proof {
            lemma_held_push(holdings@, first);
            assert(held_map(holdings@) =~= Map::empty());
        }
        holdings.push(first);
        assert(holdings@[0] == first);
        Ledger { current: version, holdings }
    }

    /// The version of the active snapshot.
    pub fn current(&self) -> (v: u64)
        ensures
            v == self@.current,
    {
        self.current
    }

    /// The number of dispatches that hold the snapshot of version `v`, if
    /// that snapshot is not retired.
    pub fn holders(&self, v: u64) -> (n: Option<u64>)
        ensures
            ledger_sound(self@),
            match n {
                Some(count) => self@.held.contains_key(v) && self@.held[v] == count,
                None => !self@.held.contains_key(v),
            },
    {
        proof {
            use_type_invariant(self);
            lemma_held_map(self.holdings@);
            self.lemma_sound();
        }
        match find(&self.holdings, v) {
            Some(i) => Some(self.holdings[i].count),
            None => None,
        }
    }

    proof fn lemma_sound(&self)
        requires
            versions_distinct(self.holdings@),
            has_version(self.holdings@, self.current),
            forall|i: int|
                0 <= i < self.holdings@.len() && (#[trigger] self.holdings@[i]).version
                    != self.current ==> self.holdings@[i].count > 0,
        ensures
            ledger_sound(self@),
    {
        lemma_held_map(self.holdings@);
        assert forall|v: u64| self@.held.contains_key(v) && v != self@.current implies (
        #[trigger] self@.held[v]) > 0 by {
            let i = holding_of(self.holdings@, v);
            assert(self.holdings@[i].version == v);
        }
    }

    /// Notes that a dispatch begins under the active snapshot, and says
    /// under which version. It answers `None`, and notes nothing, only
    /// where the count of holders cannot grow any more.
    pub fn enter(&mut self) -> (stamp: Option<u64>)
        ensures
            match stamp {
                Some(v) => {
                    &&& v == old(self)@.current
                    &&& old(self)@.held[v] < u64::MAX
                    &&& final(self)@ == entered(old(self)@)
                },
                None => {
                    &&& old(self)@.held[old(self)@.current] == u64::MAX
                    &&& final(self)@ == old(self)@
                },
            },
    {
        proof {
            use_type_invariant(&*self);
            lemma_held_map(self.holdings@);
        }
        match find(&self.holdings, self.current) {
            None => None,
            Some(i) => {
                let h = self.holdings[i];
                if h.count == u64::MAX {
                    return None;
                }
                proof {
                    lemma_held_update(self.holdings@, i as int, (h.count + 1) as u64);
                }
                let ghost before = self.holdings@;
                let mut holdings = copy_holdings(&self.holdings);
                holdings.set(i, Holding { version: h.version, count: h.count + 1 });
                assert(has_version(holdings@, self.current)) by {
                    assert(holdings@[i as int].version == self.current);
                }
                assert forall|k: int|
                    0 <= k < holdings@.len() && (#[trigger] holdings@[k]).version
                        != self.current implies holdings@[k].count > 0 by {
                    assert(holdings@[k] == before[k]);
                }
                self.holdings = holdings;
                Some(self.current)
            },
        }
    }

    /// Notes that a dispatch that began under version `v` is over. The
    /// answer is whether the snapshot of that version is to be retired
    /// now: it is if it was superseded and this was its last holder.
    pub fn leave(&mut self, v: u64) -> (retire: bool)
        ensures
            final(self)@ == left(old(self)@, v),
            retire == (retires_on_leave(old(self)@, v)),
    {
        proof {
            use_type_invariant(&*self);
            lemma_held_map(self.holdings@);
        }
        match find(&self.holdings, v) {
            None => false,
            Some(i) => {
                let h = self.holdings[i];
                if h.count == 0 {
                    false
                } else if h.count == 1 && v != self.current {
                    let ghost before = self.holdings@;
                    let ghost after = before.update(i as int, before.last()).drop_last();
                    proof {
                        lemma_held_remove(before, i as int);
                        let c = holding_of(before, self.current);
                        assert(before[c].version == self.current);
                        assert(c != i);
                        if c == before.len() - 1 {
                            assert(after[i as int] == before[c]);
                        } else {
                            assert(after[c] == before[c]);
                        }
                        assert(has_version(after, self.current));
                        assert forall|k: int|
                            0 <= k < after.len() && (#[trigger] after[k]).version
                                != self.current implies after[k].count > 0 by {
                            if k == i {
                                assert(after[k] == before[before.len() - 1]);
                            } else {
                                assert(after[k] == before[k]);
                            }
                        }
                    }
                    let mut holdings = copy_holdings(&self.holdings);
                    holdings.swap_remove(i);
                    assert(holdings@ == after);
                    self.holdings = holdings;
                    true
                } else {
                    let ghost before = self.holdings@;
                    let ghost after = before.update(
                        i as int,
                        Holding { version: h.version, count: (h.count - 1) as u64 },
                    );
                    proof {
                        lemma_held_update(before, i as int, (h.count - 1) as u64);
                        let c = holding_of(before, self.current);
                        assert(after[c].version == self.current);
                        assert(has_version(after, self.current));
                        assert forall|k: int|
                            0 <= k < after.len() && (#[trigger] after[k]).version
                                != self.current implies after[k].count > 0 by {
                            if k != i {
                                assert(after[k] == before[k]);
                            }
                        }
                    }
                    let mut holdings = copy_holdings(&self.holdings);
                    holdings.set(i, Holding { version: h.version, count: h.count - 1 });
                    assert(holdings@ == after);
                    self.holdings = holdings;
                    false
                }
            },
        }
    }

    /// Notes that the active snapshot was superseded by the one of
    /// version `next`.
    pub fn supersede(&mut self, next: u64) -> (r: Superseded)
        ensures
            final(self)@ == superseded(old(self)@, next),
            match r {
                Superseded::VersionInUse => old(self)@.held.contains_key(next),
                Superseded::RetireNow { version } => !old(self)@.held.contains_key(next)
                    && version == old(self)@.current && old(self)@.held[version] == 0,
                Superseded::RetireLater => !old(self)@.held.contains_key(next) && old(self)@.held[old(self)@.current] > 0,
            },
    {
        proof {
            use_type_invariant(&*self);
            lemma_held_map(self.holdings@);
        }
        match find(&self.holdings, next) {
            Some(_) => {
                return Superseded::VersionInUse;
            },
            None => {},
        }
        let fresh = Holding { version: next, count: 0 };
        match find(&self.holdings, self.current) {
            None => Superseded::VersionInUse,
            Some(i) => {
                let h = self.holdings[i];
                let ghost before = self.holdings@;
                let mut holdings = copy_holdings(&self.holdings);
                let was = self.current;
                if h.count == 0 {
                    let ghost mid = before.update(i as int, before.last()).drop_last();
                    proof {
                        lemma_held_remove(before, i as int);
                        assert(!has_version(mid, next)) by {
                            if has_version(mid, next) {
                                let k = holding_of(mid, next);
                                if k == i {
                                    assert(mid[k] == before[before.len() - 1]);
                                } else {
                                    assert(mid[k] == before[k]);
                                }
                                assert(has_version(before, next));
                            }
                        }
                        lemma_held_push(mid, fresh);
                        let after = mid.push(fresh);
                        assert(after[mid.len() as int] == fresh);
                        assert(has_version(after, next));
                        assert forall|k: int|
                            0 <= k < after.len() && (#[trigger] after[k]).version
                                != next implies after[k].count > 0 by {
                            if k == i {
                                assert(after[k] == before[before.len() - 1]);
                            } else {
                                assert(after[k] == before[k]);
                            }
                            assert(after[k].version != was) by {
                                if after[k].version == was {
                                    assert(has_version(mid, was));
                                    assert(held_map(mid).contains_key(was));
                                }
                            }
                        }
                    }
                    holdings.swap_remove(i);
                    holdings.push(fresh);
                    *self = Ledger { current: next, holdings };
                    Superseded::RetireNow { version: was }
                } else {
                    proof {
                        lemma_held_push(before, fresh);
                        let after = before.push(fresh);
                        assert(after[before.len() as int] == fresh);
                        assert(has_version(after, next));
                        assert forall|k: int|
                            0 <= k < after.len() && (#[trigger] after[k]).version
                                != next implies after[k].count > 0 by {
                            assert(after[k] == before[k]);
                            if before[k].version == was {
                                if k < i {
                                    assert(before[k].version != before[i as int].version);
                                }
                                if i < k {
                                    assert(before[i as int].version != before[k].version);
                                }
                            }
                        }
                    }
                    holdings.push(fresh);
                    *self = Ledger { current: next, holdings };
                    Superseded::RetireLater
                }
            },
        }
    }
}

/// A snapshot is retired only when it is out of use: leaving retires a
/// snapshot only if it was superseded and nobody else holds it, and the
/// snapshot is then gone from the ledger, so that it is never retired a
/// second time.
pub proof fn lemma_retired_once(l: LedgerView, v: u64)
    requires
        ledger_sound(l),
    ensures
        retires_on_leave(l, v) ==> !left(l, v).held.contains_key(v),
        retires_on_leave(l, v) ==> !retires_on_leave(left(l, v), v),
        v == l.current ==> !retires_on_leave(l, v),
        l.held.contains_key(v) && l.held[v] > 1 ==> !retires_on_leave(l, v),
        ledger_sound(left(l, v)),
        ledger_sound(entered(l)),
{
}

/// A snapshot that is held when it is superseded stays in the ledger,
/// with all its holders, until they have left.
pub proof fn lemma_held_snapshot_stays(l: LedgerView, next: u64)
    requires
        ledger_sound(l),
        !l.held.contains_key(next),
        l.held[l.current] > 0,
    ensures
        superseded(l, next).held.contains_key(l.current),
        superseded(l, next).held[l.current] == l.held[l.current],
        superseded(l, next).current == next,
        ledger_sound(superseded(l, next)),
{
}

} // verus!
