//! The registry of loggers.
//!
//! Loggers are named hierarchically. A logger may set a level, a list of
//! appenders, or neither; what it does not set it takes from the nearest
//! logger above it that does. The root logger, whose name is empty, sets
//! both and ends every walk.

use crate::level::Level;
use crate::name::{
    at_or_above, lemma_parent_below, lemma_parent_cut, parent_cut, parent_len, prefix_is,
    split_at,
};
use crate::text::copy_range;
use vstd::prelude::*;

verus! {

/// One registered logger. Appenders are referred to by their position in
/// the configuration's list of appenders.
#[derive(Debug)]
pub struct Node {
    pub name: Vec<u8>,
    pub level: Option<Level>,
    pub appenders: Option<Vec<usize>>,
    pub additive: bool,
}

/// What a logger sets, as a mathematical value.
pub struct Settings {
    /// The level, where the logger sets one.
    pub level: Option<Level>,
    /// The appenders, where the logger lists any; an empty list is a list.
    pub appenders: Option<Seq<usize>>,
    /// Whether the appenders of the loggers above are added to the
    /// logger's own list. It matters only where the logger has a list.
    pub additive: bool,
}

/// The registry as a mathematical value: the root's level and appenders,
/// and the settings of every registered logger by name.
pub struct RegistryView {
    pub root_level: Level,
    pub root_appenders: Seq<usize>,
    pub nodes: Map<Seq<u8>, Settings>,
}

/// What a target resolves to: the level that gates it and the appenders
/// that receive it, each once, in the order in which the walk meets them.
#[derive(Debug)]
pub struct EffectiveConfig {
    pub level: Level,
    pub appenders: Vec<usize>,
}

/// The registry of loggers.
#[derive(Debug)]
pub struct Registry {
    root_level: Level,
    root_appenders: Vec<usize>,
    nodes: Vec<Node>,
}

/// The settings of a logger that sets nothing itself.
pub open spec fn blank() -> Settings {
    Settings { level: None, appenders: None, additive: true }
}

/// A list of appenders, where there is one, as a mathematical value.
pub open spec fn list_view(list: Option<Vec<usize>>) -> Option<Seq<usize>> {
    match list {
        Some(l) => Some(l@),
        None => None,
    }
}

/// The settings that a node holds.
pub open spec fn settings_of(node: Node) -> Settings {
    Settings { level: node.level, appenders: list_view(node.appenders), additive: node.additive }
}

/// Whether some node of `nodes` has the name `k`.
pub open spec fn has_name(nodes: Seq<Node>, k: Seq<u8>) -> bool {
    exists|i: int| 0 <= i < nodes.len() && (#[trigger] nodes[i]).name@ == k
}

/// The position of a node of `nodes` with the name `k`.
pub open spec fn position_of(nodes: Seq<Node>, k: Seq<u8>) -> int {
    choose|i: int| 0 <= i < nodes.len() && (#[trigger] nodes[i]).name@ == k
}

/// The settings of the nodes by name.
pub open spec fn nodes_map(nodes: Seq<Node>) -> Map<Seq<u8>, Settings> {
    Map::new(|k: Seq<u8>| has_name(nodes, k), |k: Seq<u8>| settings_of(nodes[position_of(nodes, k)]))
}

/// Whether no two nodes have the same name and none has the empty name.
pub open spec fn names_distinct(nodes: Seq<Node>) -> bool {
    &&& forall|i: int| 0 <= i < nodes.len() ==> (#[trigger] nodes[i]).name@.len() > 0
    &&& forall|i: int, j: int|
        0 <= i < j < nodes.len() ==> (#[trigger] nodes[i]).name@ != (#[trigger] nodes[j]).name@
}

/// The level that governs the prefix of `name` of length `cut`: that of
/// the nearest logger, walking upward from the prefix, that sets one.
pub open spec fn level_above(v: RegistryView, name: Seq<u8>, cut: int) -> Level
    decreases cut,
{
    let k = name.subrange(0, cut);
    if cut <= 0 {
        v.root_level
    } else if v.nodes.contains_key(k) && v.nodes[k].level is Some {
        v.nodes[k].level->0
    } else {
        proof {
            lemma_parent_below(name, cut);
        }
        level_above(v, name, parent_cut(name, cut))
    }
}

/// The appenders that the prefix of `name` of length `cut` collects on
/// the walk upward: each logger's own list in turn, up to and including
/// the first logger that has a list and is not additive, or else the root.
pub open spec fn appenders_above(v: RegistryView, name: Seq<u8>, cut: int) -> Seq<usize>
    decreases cut,
{
    let k = name.subrange(0, cut);
    if cut <= 0 {
        v.root_appenders
    } else if v.nodes.contains_key(k) && v.nodes[k].appenders is Some {
        if v.nodes[k].additive {
            proof {
                lemma_parent_below(name, cut);
            }
            v.nodes[k].appenders->0 + appenders_above(v, name, parent_cut(name, cut))
        } else {
            v.nodes[k].appenders->0
        }
    } else {
        proof {
            lemma_parent_below(name, cut);
        }
        appenders_above(v, name, parent_cut(name, cut))
    }
}

/// The items of `s`, each once, in the order of their first occurrence.
pub open spec fn each_once(s: Seq<usize>) -> Seq<usize>
    decreases s.len(),
{
    if s.len() == 0 {
        Seq::empty()
    } else if each_once(s.drop_last()).contains(s.last()) {
        each_once(s.drop_last())
    } else {
        each_once(s.drop_last()).push(s.last())
    }
}

/// The level that gates events for the target `name`.
pub open spec fn effective_level(v: RegistryView, name: Seq<u8>) -> Level {
    level_above(v, name, name.len() as int)
}

/// The appenders that receive events for the target `name`.
pub open spec fn effective_appenders(v: RegistryView, name: Seq<u8>) -> Seq<usize> {
    each_once(appenders_above(v, name, name.len() as int))
}

/// Whether every appender that the registry refers to lies below `n`.
pub open spec fn refs_below(v: RegistryView, n: int) -> bool {
    &&& forall|i: int| 0 <= i < v.root_appenders.len() ==> v.root_appenders[i] < n
    &&& forall|k: Seq<u8>, i: int|
        v.nodes.contains_key(k) && (#[trigger] v.nodes[k]).appenders is Some && 0 <= i
            < v.nodes[k].appenders->0.len() ==> (#[trigger] v.nodes[k].appenders->0[i]) < n
}

/// `each_once` keeps exactly the items of `s` and repeats none.
pub proof fn lemma_each_once(s: Seq<usize>)
    ensures
        each_once(s).no_duplicates(),
        each_once(s).len() <= s.len(),
        forall|x: usize| each_once(s).contains(x) <==> s.contains(x),
    decreases s.len(),
{
    if s.len() > 0 {
        let front = s.drop_last();
        let last = s.last();
        lemma_each_once(front);
        let d = each_once(front);
        assert forall|x: usize| each_once(s).contains(x) <==> s.contains(x) by {
            if s.contains(x) {
                let i = choose|i: int| 0 <= i < s.len() && s[i] == x;
                if i < s.len() - 1 {
                    assert(front[i] == x);
                    assert(front.contains(x));
                    assert(d.contains(x));
                    let j = choose|j: int| 0 <= j < d.len() && d[j] == x;
                    if !d.contains(last) {
                        assert(d.push(last)[j] == x);
                    }
                } else {
                    if !d.contains(last) {
                        assert(d.push(last)[d.len() as int] == x);
                    }
                }
            }
            if each_once(s).contains(x) {
                let j = choose|j: int| 0 <= j < each_once(s).len() && each_once(s)[j] == x;
                if j < d.len() {
                    assert(d[j] == x);
                    assert(d.contains(x));
                    assert(front.contains(x));
                    let i = choose|i: int| 0 <= i < front.len() && front[i] == x;
                    assert(s[i] == front[i]);
                } else {
                    assert(x == last);
                    assert(s[s.len() - 1] == x);
                }
            }
        }
    }
}

/// An item that is already there changes nothing; a new one comes last.
pub proof fn lemma_each_once_push(s: Seq<usize>, x: usize)
    ensures
        each_once(s.push(x)) == if each_once(s).contains(x) {
            each_once(s)
        } else {
            each_once(s).push(x)
        },
{
    assert(s.push(x).drop_last() =~= s);
}

/// Whether `k` names a logger strictly between the root and `name`: a
/// proper prefix of `name`, not empty, that ends just before a separator.
pub open spec fn strictly_between(k: Seq<u8>, name: Seq<u8>) -> bool {
    0 < k.len() < name.len() && name.subrange(0, k.len() as int) == k && split_at(
        name,
        k.len() as int,
    )
}

/// The registry after the logger `name` was registered with the settings
/// `s`. The empty name is the root: it takes the level and the list that
/// `s` sets and keeps what `s` leaves open. Any other name gets exactly
/// the settings `s`, and every logger between it and the root that was
/// not registered yet is registered without settings of its own.
pub open spec fn registered(v: RegistryView, name: Seq<u8>, s: Settings) -> RegistryView {
    if name.len() == 0 {
        RegistryView {
            root_level: match s.level {
                Some(l) => l,
                None => v.root_level,
            },
            root_appenders: match s.appenders {
                Some(a) => a,
                None => v.root_appenders,
            },
            nodes: v.nodes,
        }
    } else {
        RegistryView {
            root_level: v.root_level,
            root_appenders: v.root_appenders,
            nodes: Map::new(
                |k: Seq<u8>| v.nodes.contains_key(k) || k == name || strictly_between(k, name),
                |k: Seq<u8>|
                    if k == name {
                        s
                    } else if v.nodes.contains_key(k) {
                        v.nodes[k]
                    } else {
                        blank()
                    },
            ),
        }
    }
}

/// With distinct names, the map holds each node's settings under its name.
proof fn lemma_nodes_map(nodes: Seq<Node>)
    requires
        names_distinct(nodes),
    ensures
        forall|i: int|
            0 <= i < nodes.len() ==> nodes_map(nodes).contains_key((#[trigger] nodes[i]).name@)
                && nodes_map(nodes)[nodes[i].name@] == settings_of(nodes[i]),
{
    assert forall|i: int| 0 <= i < nodes.len() implies nodes_map(nodes).contains_key(
        (#[trigger] nodes[i]).name@,
    ) && nodes_map(nodes)[nodes[i].name@] == settings_of(nodes[i]) by {
        let k = nodes[i].name@;
        assert(has_name(nodes, k));
        let j = position_of(nodes, k);
        assert(0 <= j < nodes.len() && nodes[j].name@ == k);
        if i < j {
            assert(nodes[i].name@ != nodes[j].name@);
        }
        if j < i {
            assert(nodes[j].name@ != nodes[i].name@);
        }
    }
}

/// A node under a new name adds one entry to the map.
proof fn lemma_map_push(nodes: Seq<Node>, n: Node)
    requires
        names_distinct(nodes),
        n.name@.len() > 0,
        !has_name(nodes, n.name@),
    ensures
        names_distinct(nodes.push(n)),
        nodes_map(nodes.push(n)) == nodes_map(nodes).insert(n.name@, settings_of(n)),
{
    let after = nodes.push(n);
    assert forall|i: int, j: int| 0 <= i < j < after.len() implies (#[trigger] after[i]).name@ != (
    #[trigger] after[j]).name@ by {
        if j == nodes.len() {
            assert(after[i] == nodes[i]);
            if nodes[i].name@ == n.name@ {
                assert(has_name(nodes, n.name@));
            }
        } else {
            assert(after[i] == nodes[i] && after[j] == nodes[j]);
        }
    }
    assert forall|i: int| 0 <= i < after.len() implies (#[trigger] after[i]).name@.len() > 0 by {
        if i < nodes.len() {
            assert(after[i] == nodes[i]);
        }
    }
    lemma_nodes_map(nodes);
    lemma_nodes_map(after);
    let want = nodes_map(nodes).insert(n.name@, settings_of(n));
    assert forall|k: Seq<u8>| nodes_map(after).contains_key(k) <==> want.contains_key(k) by {
        if has_name(after, k) {
            let i = position_of(after, k);
            if i < nodes.len() {
                assert(nodes[i] == after[i]);
                assert(has_name(nodes, k));
            }
        }
        if has_name(nodes, k) {
            let i = position_of(nodes, k);
            assert(after[i] == nodes[i]);
            assert(has_name(after, k));
        }
        if k == n.name@ {
            assert(after[nodes.len() as int] == n);
            assert(has_name(after, k));
        }
    }
    assert forall|k: Seq<u8>| nodes_map(after).contains_key(k) implies nodes_map(after)[k]
        == want[k] by {
        let i = position_of(after, k);
        assert(0 <= i < after.len() && after[i].name@ == k);
        if i < nodes.len() {
            assert(after[i] == nodes[i]);
        } else {
            assert(after[i] == n);
        }
    }
    assert(nodes_map(after) =~= want);
}

/// A node that replaces one of the same name replaces its entry in the map.
proof fn lemma_map_update(nodes: Seq<Node>, at: int, n: Node)
    requires
        names_distinct(nodes),
        0 <= at < nodes.len(),
        nodes[at].name@ == n.name@,
    ensures
        names_distinct(nodes.update(at, n)),
        nodes_map(nodes.update(at, n)) == nodes_map(nodes).insert(n.name@, settings_of(n)),
{
    let after = nodes.update(at, n);
    assert forall|i: int| 0 <= i < after.len() implies (#[trigger] after[i]).name@ == nodes[i].name@ by {}
    assert forall|i: int, j: int| 0 <= i < j < after.len() implies (#[trigger] after[i]).name@ != (
    #[trigger] after[j]).name@ by {
        assert(after[i].name@ == nodes[i].name@);
        assert(after[j].name@ == nodes[j].name@);
    }
    assert forall|i: int| 0 <= i < after.len() implies (#[trigger] after[i]).name@.len() > 0 by {
        assert(after[i].name@ == nodes[i].name@);
    }
    lemma_nodes_map(nodes);
    lemma_nodes_map(after);
    let want = nodes_map(nodes).insert(n.name@, settings_of(n));
    assert forall|k: Seq<u8>| nodes_map(after).contains_key(k) <==> want.contains_key(k) by {
        if has_name(after, k) {
            let i = position_of(after, k);
            assert(nodes[i].name@ == after[i].name@);
            assert(has_name(nodes, k));
        }
        if has_name(nodes, k) {
            let i = position_of(nodes, k);
            assert(after[i].name@ == nodes[i].name@);
            assert(has_name(after, k));
        }
    }
    assert forall|k: Seq<u8>| nodes_map(after).contains_key(k) implies nodes_map(after)[k]
        == want[k] by {
        let i = position_of(after, k);
        assert(0 <= i < after.len() && after[i].name@ == k);
        if i != at {
            assert(after[i] == nodes[i]);
        }
    }
    assert(nodes_map(after) =~= want);
}

/// Whether `v` holds `x`.
fn holds(v: &Vec<usize>, x: usize) -> (yes: bool)
    ensures
        yes == v@.contains(x),
{
    let mut i: usize = 0;
    while i < v.len()
        invariant
            i <= v@.len(),
            forall|k: int| 0 <= k < i ==> v@[k] != x,
        decreases v@.len() - i,
    {
        if v[i] == x {
            return true;
        }
        i += 1;
    }
    false
}

/// Adds to `out` the items of `list` that it does not hold yet.
fn add_each(out: &mut Vec<usize>, list: &Vec<usize>, Ghost(before): Ghost<Seq<usize>>)
    requires
        old(out)@ == each_once(before),
    ensures
        final(out)@ == each_once(before + list@),
{
    let mut j: usize = 0;
    assert(before + list@.subrange(0, 0) =~= before);
    while j < list.len()
        invariant
            j <= list@.len(),
            out@ == each_once(before + list@.subrange(0, j as int)),
        decreases list@.len() - j,
    {
        let x = list[j];
        proof {
            lemma_each_once_push(before + list@.subrange(0, j as int), x);
            assert((before + list@.subrange(0, j as int)).push(x) =~= before + list@.subrange(
                0,
                j + 1,
            ));
        }
        if !holds(out, x) {
            out.push(x);
        }
        j += 1;
    }
    assert(list@.subrange(0, list@.len() as int) =~= list@);
}

/// The position of the node whose name is the prefix of `name` of length
/// `cut`, if there is one.
fn find(nodes: &Vec<Node>, name: &[u8], cut: usize) -> (found: Option<usize>)
    requires
        cut <= name@.len(),
    ensures
        match found {
            Some(i) => i < nodes@.len() && nodes@[i as int].name@ == name@.subrange(
                0,
                cut as int,
            ),
            None => !has_name(nodes@, name@.subrange(0, cut as int)),
        },
{
    let mut i: usize = 0;
    while i < nodes.len()
        invariant
            i <= nodes@.len(),
            cut <= name@.len(),
            forall|k: int|
                0 <= k < i ==> (#[trigger] nodes@[k]).name@ != name@.subrange(0, cut as int),
        decreases nodes@.len() - i,
    {
        if prefix_is(name, cut, nodes[i].name.as_slice()) {
            return Some(i);
        }
        i += 1;
    }
    None
}

impl View for Registry {
    type V = RegistryView;

    closed spec fn view(&self) -> RegistryView {
        RegistryView {
            root_level: self.root_level,
            root_appenders: self.root_appenders@,
            nodes: nodes_map(self.nodes@),
        }
    }
}

impl Registry {
    #[verifier::type_invariant]
    spec fn well_formed(self) -> bool {
        names_distinct(self.nodes@)
    }

    /// A registry that holds the root alone.
    pub fn new(root_level: Level, root_appenders: Vec<usize>) -> (r: Registry)
        ensures
            r@ == (RegistryView {
                root_level,
                root_appenders: root_appenders@,
                nodes: Map::empty(),
            }),
    {
        let r = Registry { root_level, root_appenders, nodes: Vec::new() };
        assert(nodes_map(r.nodes@) =~= Map::empty());
        r
    }

    /// The level of the root.
    pub fn root_level(&self) -> (l: Level)
        ensures
            l == self@.root_level,
    {
        self.root_level
    }

    /// Whether a logger is registered under `name`.
    pub fn contains(&self, name: &[u8]) -> (yes: bool)
        ensures
            yes == self@.nodes.contains_key(name@),
    {
        assert(name@.subrange(0, name@.len() as int) =~= name@);
        find(&self.nodes, name, name.len()).is_some()
    }

    /// Resolves a target: walks from its full name upward through every
    /// shorter prefix that ends before a separator, and reports the level
    /// and the appenders that hold for it. The walk ends as soon as both
    /// are settled.
    pub fn resolve(&self, name: &[u8]) -> (r: EffectiveConfig)
        ensures
            r.level == effective_level(self@, name@),
            r.appenders@ == effective_appenders(self@, name@),
    {
        proof {
            use_type_invariant(self);
            lemma_nodes_map(self.nodes@);
        }
        let mut cut: usize = name.len();
        let mut level: Option<Level> = None;
        let mut out: Vec<usize> = Vec::new();
        let mut open: bool = true;
        let ghost mut collected: Seq<usize> = Seq::empty();
        assert(collected + appenders_above(self@, name@, cut as int) =~= appenders_above(
            self@,
            name@,
            cut as int,
        ));
        while cut > 0 && (open || level.is_none())
            invariant
                cut <= name@.len(),
                names_distinct(self.nodes@),
                forall|i: int|
                    0 <= i < self.nodes@.len() ==> nodes_map(self.nodes@).contains_key(
                        (#[trigger] self.nodes@[i]).name@,
                    ) && nodes_map(self.nodes@)[self.nodes@[i].name@] == settings_of(
                        self.nodes@[i],
                    ),
                effective_level(self@, name@) == match level {
                    Some(l) => l,
                    None => level_above(self@, name@, cut as int),
                },
                appenders_above(self@, name@, name@.len() as int) == if open {
                    collected + appenders_above(self@, name@, cut as int)
                } else {
                    collected
                },
                out@ == each_once(collected),
            decreases cut,
        {
            proof {
                lemma_parent_cut(name@, cut as int);
            }
            let ghost k = name@.subrange(0, cut as int);
            let ghost above = appenders_above(self@, name@, parent_cut(name@, cut as int));
            match find(&self.nodes, name, cut) {
                Some(i) => {
                    let node = &self.nodes[i];
                    assert(self@.nodes.contains_key(k) && self@.nodes[k] == settings_of(*node));
                    if level.is_none() {
                        level = node.level;
                    }
                    if open {
                        match &node.appenders {
                            Some(list) => {
                                add_each(&mut out, list, Ghost(collected));
                                proof {
                                    assert(collected + (list@ + above) =~= (collected + list@)
                                        + above);
                                    collected = collected + list@;
                                }
                                if !node.additive {
                                    open = false;
                                }
                            },
                            None => {},
                        }
                    }
                },
                None => {
                    assert(!self@.nodes.contains_key(k));
                },
            }
            cut = parent_len(name, cut);
        }
        let level = match level {
            Some(l) => l,
            None => self.root_level,
        };
        if open {
            add_each(&mut out, &self.root_appenders, Ghost(collected));
        }
        EffectiveConfig { level, appenders: out }
    }

    /// Registers the logger `name`, or replaces its settings if it is
    /// registered already. Every logger between it and the root that is
    /// not registered yet is registered too, without settings of its own.
    /// The empty name is the root: it takes the level and the list given
    /// and keeps what is not given.
    pub fn register(
        &mut self,
        name: &[u8],
        level: Option<Level>,
        appenders: Option<Vec<usize>>,
        additive: bool,
    )
        ensures
            final(self)@ == registered(
                old(self)@,
                name@,
                Settings { level, appenders: list_view(appenders), additive },
            ),
    {
        proof {
            use_type_invariant(&*self);
        }
        let ghost before = self@;
        let ghost s = Settings { level, appenders: list_view(appenders), additive };
        if name.len() == 0 {
            match level {
                Some(l) => {
                    self.root_level = l;
                },
                None => {},
            }
            match appenders {
                Some(list) => {
                    self.root_appenders = list;
                },
                None => {},
            }
            return ;
        }
        let len: usize = name.len();
        let mut nodes: Vec<Node> = Vec::new();
        std::mem::swap(&mut self.nodes, &mut nodes);
        let mut cut: usize = parent_len(name, len);
        proof {
            lemma_parent_cut(name@, len as int);
            assert(nodes_map(nodes@) =~= Map::new(
                |k: Seq<u8>|
                    before.nodes.contains_key(k) || (strictly_between(k, name@) && k.len() > cut),
                |k: Seq<u8>|
                    if before.nodes.contains_key(k) {
                        before.nodes[k]
                    } else {
                        blank()
                    },
            ));
        }
        while cut > 0
            invariant
                cut < len == name@.len(),
                names_distinct(nodes@),
                cut > 0 ==> split_at(name@, cut as int),
                nodes_map(nodes@) == Map::new(
                    |k: Seq<u8>|
                        before.nodes.contains_key(k) || (strictly_between(k, name@) && k.len()
                            > cut),
                    |k: Seq<u8>|
                        if before.nodes.contains_key(k) {
                            before.nodes[k]
                        } else {
                            blank()
                        },
                ),
            decreases cut,
        {
            let ghost here = name@.subrange(0, cut as int);
            let ghost had = nodes_map(nodes@);
            let up = parent_len(name, cut);
            proof {
                lemma_parent_cut(name@, cut as int);
                assert(strictly_between(here, name@)) by {
                    assert(name@.subrange(0, here.len() as int) =~= here);
                }
            }
            match find(&nodes, name, cut) {
                Some(_) => {
                    assert(has_name(nodes@, here));
                    assert(had.contains_key(here));
                },
                None => {
                    let node = Node {
                        name: copy_range(name, 0, cut),
                        level: None,
                        appenders: None,
                        additive: true,
                    };
                    proof {
                        lemma_map_push(nodes@, node);
                        assert(settings_of(node) == blank());
                    }
                    nodes.push(node);
                },
            }
            proof {
                let want = Map::new(
                    |k: Seq<u8>|
                        before.nodes.contains_key(k) || (strictly_between(k, name@) && k.len()
                            > up),
                    |k: Seq<u8>|
                        if before.nodes.contains_key(k) {
                            before.nodes[k]
                        } else {
                            blank()
                        },
                );
                let now = nodes_map(nodes@);
                assert(now == if had.contains_key(here) {
                    had
                } else {
                    had.insert(here, blank())
                });
                assert forall|k: Seq<u8>| now.contains_key(k) <==> want.contains_key(k) by {
                    if strictly_between(k, name@) && k.len() > up && k.len() <= cut {
                        assert(split_at(name@, k.len() as int));
                        assert(k.len() == cut);
                        assert(k =~= here);
                    }
                    if k == here {
                        assert(strictly_between(k, name@) && k.len() > up);
                    }
                }
                assert forall|k: Seq<u8>| now.contains_key(k) implies now[k] == want[k] by {
                    if k == here && !had.contains_key(here) {
                        assert(!before.nodes.contains_key(k));
                    }
                }
                assert(now =~= want);
            }
            cut = up;
        }
        let node = Node { name: copy_range(name, 0, len), level, appenders, additive };
        proof {
            assert(name@.subrange(0, len as int) =~= name@);
            assert(settings_of(node) == s);
        }
        match find(&nodes, name, len) {
            Some(i) => {
                proof {
                    lemma_map_update(nodes@, i as int, node);
                }
                nodes.set(i, node);
            },
            None => {
                proof {
                    lemma_map_push(nodes@, node);
                }
                nodes.push(node);
            },
        }
        proof {
            assert(nodes_map(nodes@) =~= registered(before, name@, s).nodes);
        }
        std::mem::swap(&mut self.nodes, &mut nodes);
    }
}

/// Whether a logger with the settings `s` adds no appender of its own.
pub open spec fn lists_nothing(s: Settings) -> bool {
    s.appenders is None || s.appenders->0.len() == 0
}

/// Whether a logger with the settings `s` ends the walk upward: it has a
/// list and is not additive.
pub open spec fn ends_walk(s: Settings) -> bool {
    s.appenders is Some && !s.additive
}

/// Whether the walk upward from `target` comes as far as the logger `k`:
/// no logger below `k` on the way ends it.
pub open spec fn walk_reaches(v: RegistryView, target: Seq<u8>, k: Seq<u8>) -> bool {
    forall|j: Seq<u8>|
        j.len() > k.len() && at_or_above(j, target) && v.nodes.contains_key(j) ==> !ends_walk(
            #[trigger] v.nodes[j],
        )
}

/// A logger that is not additive and whose list is empty silences its
/// subtree: a target at or below it resolves to no appender, whatever the
/// loggers above it list. This holds as long as no logger that the walk
/// from the target reaches below the silencing logger lists an appender
/// itself.
pub proof fn lemma_silenced(v: RegistryView, node: Seq<u8>, target: Seq<u8>)
    requires
        node.len() > 0,
        at_or_above(node, target),
        v.nodes.contains_key(node),
        v.nodes[node].appenders == Some(Seq::<usize>::empty()),
        !v.nodes[node].additive,
        forall|k: Seq<u8>|
            k.len() > node.len() && at_or_above(k, target) && v.nodes.contains_key(k)
                && walk_reaches(v, target, k) ==> lists_nothing(#[trigger] v.nodes[k]),
    ensures
        effective_appenders(v, target).len() == 0,
{
    if node == target {
        assert(target.subrange(0, node.len() as int) =~= node);
    }
    lemma_quiet_above(v, node, target, target.len() as int);
}

proof fn lemma_quiet_above(v: RegistryView, node: Seq<u8>, target: Seq<u8>, cut: int)
    requires
        0 < node.len() <= cut <= target.len(),
        target.subrange(0, node.len() as int) == node,
        node.len() < target.len() ==> split_at(target, node.len() as int),
        cut == target.len() || split_at(target, cut),
        v.nodes.contains_key(node),
        v.nodes[node].appenders == Some(Seq::<usize>::empty()),
        !v.nodes[node].additive,
        forall|k: Seq<u8>|
            k.len() > node.len() && at_or_above(k, target) && v.nodes.contains_key(k)
                && walk_reaches(v, target, k) ==> lists_nothing(#[trigger] v.nodes[k]),
        forall|j: Seq<u8>|
            j.len() > cut && at_or_above(j, target) && v.nodes.contains_key(j) ==> !ends_walk(
                #[trigger] v.nodes[j],
            ),
    ensures
        appenders_above(v, target, cut).len() == 0,
    decreases cut,
{
    let k = target.subrange(0, cut);
    let up = parent_cut(target, cut);
    lemma_parent_cut(target, cut);
    if cut > node.len() {
        assert(at_or_above(k, target)) by {
            if cut == target.len() {
                assert(k =~= target);
            } else {
                assert(target.subrange(0, k.len() as int) =~= k);
            }
        }
        assert(up >= node.len()) by {
            if up < node.len() {
                assert(split_at(target, node.len() as int));
            }
        }
        assert(walk_reaches(v, target, k));
        if v.nodes.contains_key(k) {
            assert(lists_nothing(v.nodes[k]));
        }
        if !(v.nodes.contains_key(k) && ends_walk(v.nodes[k])) {
            assert forall|j: Seq<u8>|
                j.len() > up && at_or_above(j, target) && v.nodes.contains_key(j) implies !ends_walk(
                #[trigger] v.nodes[j],
            ) by {
                if j.len() <= cut {
                    if j.len() < cut {
                        assert(j != target);
                        assert(split_at(target, j.len() as int));
                    } else {
                        assert(j =~= k) by {
                            if j != target {
                                assert(target.subrange(0, j.len() as int) == j);
                            }
                        }
                    }
                }
            }
            lemma_quiet_above(v, node, target, up);
        }
    } else {
        assert(k =~= node);
    }
}

/// A logger that the walk reaches is heard: where the walk upward from
/// a target reaches a logger that lists an appender, the target resolves
/// to at least one appender.
pub proof fn lemma_heard(v: RegistryView, k: Seq<u8>, target: Seq<u8>)
    requires
        k.len() > 0,
        at_or_above(k, target),
        v.nodes.contains_key(k),
        walk_reaches(v, target, k),
        !lists_nothing(v.nodes[k]),
    ensures
        effective_appenders(v, target).len() > 0,
{
    if k == target {
        assert(target.subrange(0, k.len() as int) =~= k);
    }
    lemma_loud_above(v, k, target, target.len() as int);
    let all = appenders_above(v, target, target.len() as int);
    lemma_each_once(all);
    assert(all.contains(all[0]));
    assert(each_once(all).contains(all[0]));
}

proof fn lemma_loud_above(v: RegistryView, k: Seq<u8>, target: Seq<u8>, cut: int)
    requires
        0 < k.len() <= cut <= target.len(),
        target.subrange(0, k.len() as int) == k,
        k.len() < target.len() ==> split_at(target, k.len() as int),
        cut == target.len() || split_at(target, cut),
        v.nodes.contains_key(k),
        walk_reaches(v, target, k),
        !lists_nothing(v.nodes[k]),
    ensures
        appenders_above(v, target, cut).len() > 0,
    decreases cut,
{
    let here = target.subrange(0, cut);
    let up = parent_cut(target, cut);
    lemma_parent_cut(target, cut);
    if cut > k.len() {
        assert(at_or_above(here, target)) by {
            if cut == target.len() {
                assert(here =~= target);
            } else {
                assert(target.subrange(0, here.len() as int) =~= here);
            }
        }
        assert(up >= k.len()) by {
            if up < k.len() {
                assert(split_at(target, k.len() as int));
            }
        }
        if v.nodes.contains_key(here) {
            assert(!ends_walk(v.nodes[here]));
        }
        lemma_loud_above(v, k, target, up);
    } else {
        assert(here =~= k);
    }
}

} // verus!
