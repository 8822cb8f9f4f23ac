//! Configurations and the snapshots made of them.
//!
//! A configuration is what a loader hands over: appenders, the root and
//! the loggers, which refer to appenders by name. A snapshot is a
//! configuration that was found valid, with every reference resolved. It
//! is never changed, only replaced.

use crate::appender::{appender_names, inner_name, Appender, Destination};
use crate::filter::Filter;
use crate::level::Level;
use crate::name::same_bytes;
use crate::registry::{
    appenders_above, each_once, effective_appenders, effective_level, lemma_each_once,
    refs_below, registered, EffectiveConfig, Registry, RegistryView, Settings,
};
use vstd::prelude::*;

verus! {

/// The root logger of a configuration.
#[derive(Clone, Debug)]
pub struct RootConfig {
    pub level: Level,
    pub appenders: Vec<Vec<u8>>,
}

/// One logger of a configuration.
#[derive(Clone, Debug)]
pub struct LoggerConfig {
    pub name: Vec<u8>,
    pub level: Option<Level>,
    pub appenders: Option<Vec<Vec<u8>>>,
    pub additive: bool,
}

/// A configuration, as a loader hands it over.
#[derive(Clone, Debug)]
pub struct Config {
    pub appenders: Vec<Appender>,
    pub root: RootConfig,
    pub loggers: Vec<LoggerConfig>,
    pub filters: Vec<Filter>,
}

/// Why a configuration is not valid.
#[derive(Clone, Copy, Debug, PartialEq, Eq, Structural)]
pub enum ConfigError {
    /// The appender at `index` has the name of an earlier appender.
    DuplicateAppender { index: usize },
    /// The destination of the appender at `index` cannot be written to.
    Unwritable { index: usize },
    /// The appender at `index` wraps an appender that the configuration
    /// does not have.
    UnknownInner { index: usize },
    /// The appender at `index` is its own destination: following what it
    /// wraps never comes to an appender that writes.
    Cyclic { index: usize },
    /// The root refers, at `position` of its list, to an appender that
    /// the configuration does not have.
    UnknownInRoot { position: usize },
    /// The logger at `logger` refers, at `position` of its list, to an
    /// appender that the configuration does not have.
    UnknownInLogger { logger: usize, position: usize },
}

/// A snapshot as a mathematical value.
pub struct SnapshotView {
    pub appenders: Seq<Appender>,
    pub filters: Seq<Filter>,
    pub registry: RegistryView,
}

/// A valid configuration, ready for dispatch.
#[derive(Debug)]
pub struct Snapshot {
    appenders: Vec<Appender>,
    /// For each appender, the position of the one that it wraps.
    wraps: Vec<Option<usize>>,
    filters: Vec<Filter>,
    registry: Registry,
}

/// A list of names as a mathematical value.
pub open spec fn names_view(names: Seq<Vec<u8>>) -> Seq<Seq<u8>> {
    Seq::new(names.len(), |i: int| names[i]@)
}

/// The first position at or after `from` at which `names` holds `r`, or
/// the length of `names` where there is none.
pub open spec fn index_named(names: Seq<Seq<u8>>, r: Seq<u8>, from: int) -> int
    decreases names.len() - from,
{
    if from < 0 || from >= names.len() {
        names.len() as int
    } else if names[from] == r {
        from
    } else {
        index_named(names, r, from + 1)
    }
}

/// The first position at or after `from` whose name occurs earlier in
/// `names`, or the length of `names` where there is none.
pub open spec fn first_repeat(names: Seq<Seq<u8>>, from: int) -> int
    decreases names.len() - from,
{
    if from < 0 || from >= names.len() {
        names.len() as int
    } else if index_named(names, names[from], 0) < from {
        from
    } else {
        first_repeat(names, from + 1)
    }
}

/// The first position at or after `from` of an appender that is not
/// writable, or the number of appenders where there is none.
pub open spec fn first_unwritable(appenders: Seq<Appender>, from: int) -> int
    decreases appenders.len() - from,
{
    if from < 0 || from >= appenders.len() {
        appenders.len() as int
    } else if !appenders[from].writable {
        from
    } else {
        first_unwritable(appenders, from + 1)
    }
}

/// The position of the appender that the appender at `i` wraps: -1 where
/// it wraps none, and the number of appenders where it wraps one that the
/// configuration does not have.
pub open spec fn inner_at(appenders: Seq<Appender>, i: int) -> int {
    match inner_name(appenders[i]) {
        Some(name) => index_named(appender_names(appenders), name, 0),
        None => -1,
    }
}

/// The first position at or after `from` of an appender that wraps an
/// unknown one, or the number of appenders where there is none.
pub open spec fn first_unknown_inner(appenders: Seq<Appender>, from: int) -> int
    decreases appenders.len() - from,
{
    if from < 0 || from >= appenders.len() {
        appenders.len() as int
    } else if inner_at(appenders, from) >= appenders.len() {
        from
    } else {
        first_unknown_inner(appenders, from + 1)
    }
}

/// Whether following what the appender at `i` wraps, for at most `steps`
/// steps, comes to an appender that wraps nothing.
pub open spec fn reaches_sink(appenders: Seq<Appender>, i: int, steps: nat) -> bool
    decreases steps,
{
    if !(0 <= i < appenders.len()) {
        false
    } else if inner_at(appenders, i) < 0 {
        true
    } else if steps == 0 {
        false
    } else {
        reaches_sink(appenders, inner_at(appenders, i), (steps - 1) as nat)
    }
}

/// The first position at or after `from` of an appender from which no
/// appender that writes is reached in as many steps as there are
/// appenders, or the number of appenders where there is none.
pub open spec fn first_cyclic(appenders: Seq<Appender>, from: int) -> int
    decreases appenders.len() - from,
{
    if from < 0 || from >= appenders.len() {
        appenders.len() as int
    } else if !reaches_sink(appenders, from, appenders.len()) {
        from
    } else {
        first_cyclic(appenders, from + 1)
    }
}

/// The first position at or after `from` at which `refs` names no
/// appender, or the length of `refs` where there is none.
pub open spec fn first_unknown(names: Seq<Seq<u8>>, refs: Seq<Seq<u8>>, from: int) -> int
    decreases refs.len() - from,
{
    if from < 0 || from >= refs.len() {
        refs.len() as int
    } else if index_named(names, refs[from], 0) >= names.len() {
        from
    } else {
        first_unknown(names, refs, from + 1)
    }
}

/// The positions of the appenders that `refs` names.
pub open spec fn resolved(names: Seq<Seq<u8>>, refs: Seq<Seq<u8>>) -> Seq<usize> {
    Seq::new(refs.len(), |p: int| index_named(names, refs[p], 0) as usize)
}

/// The appenders that a logger refers to; none where it has no list.
pub open spec fn logger_refs(l: LoggerConfig) -> Seq<Seq<u8>> {
    match l.appenders {
        Some(list) => names_view(list@),
        None => Seq::empty(),
    }
}

/// The first logger at or after `from` that refers to an unknown
/// appender, or the number of loggers where there is none.
pub open spec fn first_bad_logger(names: Seq<Seq<u8>>, loggers: Seq<LoggerConfig>, from: int) -> int
    decreases loggers.len() - from,
{
    if from < 0 || from >= loggers.len() {
        loggers.len() as int
    } else if first_unknown(names, logger_refs(loggers[from]), 0) < logger_refs(
        loggers[from],
    ).len() {
        from
    } else {
        first_bad_logger(names, loggers, from + 1)
    }
}

/// Whether a configuration is valid, and if not, what is wrong with it.
/// The faults are looked for in this order: an appender name that
/// repeats, a destination that cannot be written to, an appender that
/// wraps an unknown one, an appender that is its own destination, an
/// unknown appender in the root's list, an unknown appender in a logger's
/// list. Of each kind the first in the configuration is reported.
pub open spec fn validate(c: Config) -> Result<(), ConfigError> {
    let names = appender_names(c.appenders@);
    let root_refs = names_view(c.root.appenders@);
    let bad = first_bad_logger(names, c.loggers@, 0);
    if first_repeat(names, 0) < names.len() {
        Err(ConfigError::DuplicateAppender { index: first_repeat(names, 0) as usize })
    } else if first_unwritable(c.appenders@, 0) < c.appenders@.len() {
        Err(ConfigError::Unwritable { index: first_unwritable(c.appenders@, 0) as usize })
    } else if first_unknown_inner(c.appenders@, 0) < c.appenders@.len() {
        Err(ConfigError::UnknownInner { index: first_unknown_inner(c.appenders@, 0) as usize })
    } else if first_cyclic(c.appenders@, 0) < c.appenders@.len() {
        Err(ConfigError::Cyclic { index: first_cyclic(c.appenders@, 0) as usize })
    } else if first_unknown(names, root_refs, 0) < root_refs.len() {
        Err(ConfigError::UnknownInRoot { position: first_unknown(names, root_refs, 0) as usize })
    } else if bad < c.loggers@.len() {
        Err(
            ConfigError::UnknownInLogger {
                logger: bad as usize,
                position: first_unknown(names, logger_refs(c.loggers@[bad]), 0) as usize,
            },
        )
    } else {
        Ok(())
    }
}

/// What a logger of a configuration sets, with its references resolved.
pub open spec fn logger_settings(names: Seq<Seq<u8>>, l: LoggerConfig) -> Settings {
    Settings {
        level: l.level,
        appenders: match l.appenders {
            Some(list) => Some(resolved(names, names_view(list@))),
            None => None,
        },
        additive: l.additive,
    }
}

/// The registry that holds the root of `c` and its first `n` loggers,
/// registered in the order of the configuration.
pub open spec fn registry_of(c: Config, n: int) -> RegistryView
    decreases n,
{
    let names = appender_names(c.appenders@);
    if n <= 0 {
        RegistryView {
            root_level: c.root.level,
            root_appenders: resolved(names, names_view(c.root.appenders@)),
            nodes: Map::empty(),
        }
    } else {
        registered(
            registry_of(c, n - 1),
            c.loggers@[n - 1].name@,
            logger_settings(names, c.loggers@[n - 1]),
        )
    }
}

/// The snapshot that a valid configuration gives.
pub open spec fn snapshot_of(c: Config) -> SnapshotView {
    SnapshotView {
        appenders: c.appenders@,
        filters: c.filters@,
        registry: registry_of(c, c.loggers@.len() as int),
    }
}

/// `index_named` finds the first appender with the name, if there is one.
pub proof fn lemma_index_named(names: Seq<Seq<u8>>, r: Seq<u8>, from: int)
    requires
        0 <= from <= names.len(),
    ensures
        from <= index_named(names, r, from) <= names.len(),
        index_named(names, r, from) < names.len() ==> names[index_named(names, r, from)] == r,
        forall|j: int| from <= j < index_named(names, r, from) ==> names[j] != r,
    decreases names.len() - from,
{
    if from < names.len() && names[from] != r {
        lemma_index_named(names, r, from + 1);
    }
}

/// Where all references are known, the resolved positions name appenders.
pub proof fn lemma_resolved_below(names: Seq<Seq<u8>>, refs: Seq<Seq<u8>>, from: int)
    requires
        0 <= from <= refs.len(),
        first_unknown(names, refs, from) == refs.len(),
    ensures
        forall|p: int|
            from <= p < refs.len() ==> 0 <= index_named(names, #[trigger] refs[p], 0)
                < names.len(),
    decreases refs.len() - from,
{
    if from < refs.len() {
        lemma_index_named(names, refs[from], 0);
        lemma_resolved_below(names, refs, from + 1);
    }
}

/// Registering a logger whose appenders lie below `n` keeps all
/// references of the registry below `n`.
pub proof fn lemma_registered_below(v: RegistryView, name: Seq<u8>, s: Settings, n: int)
    requires
        refs_below(v, n),
        s.appenders is Some ==> forall|i: int|
            0 <= i < s.appenders->0.len() ==> s.appenders->0[i] < n,
    ensures
        refs_below(registered(v, name, s), n),
{
    let after = registered(v, name, s);
    if name.len() > 0 {
        assert forall|k: Seq<u8>, i: int|
            after.nodes.contains_key(k) && (#[trigger] after.nodes[k]).appenders is Some && 0 <= i
                < after.nodes[k].appenders->0.len() implies (
        #[trigger] after.nodes[k].appenders->0[i]) < n by {
            if k != name {
                assert(v.nodes.contains_key(k));
                assert(after.nodes[k] == v.nodes[k]);
                assert(v.nodes[k].appenders->0[i] < n);
            }
        }
    }
}

/// Where all references of the registry lie below `n`, so do the
/// appenders that any target resolves to.
pub proof fn lemma_effective_below(v: RegistryView, name: Seq<u8>, n: int)
    requires
        refs_below(v, n),
    ensures
        forall|i: int|
            0 <= i < effective_appenders(v, name).len() ==> effective_appenders(v, name)[i] < n,
{
    let all = appenders_above(v, name, name.len() as int);
    lemma_above_below(v, name, name.len() as int, n);
    lemma_each_once(all);
    assert forall|i: int| 0 <= i < each_once(all).len() implies each_once(all)[i] < n by {
        let x = each_once(all)[i];
        assert(each_once(all).contains(x));
        assert(all.contains(x));
    }
}

proof fn lemma_above_below(v: RegistryView, name: Seq<u8>, cut: int, n: int)
    requires
        refs_below(v, n),
    ensures
        forall|i: int|
            0 <= i < appenders_above(v, name, cut).len() ==> appenders_above(v, name, cut)[i]
                < n,
    decreases cut,
{
    let k = name.subrange(0, cut);
    let up = crate::name::parent_cut(name, cut);
    let all = appenders_above(v, name, cut);
    if cut <= 0 {
        assert(all == v.root_appenders);
    } else {
        crate::name::lemma_parent_below(name, cut);
        lemma_above_below(v, name, up, n);
        let above = appenders_above(v, name, up);
        if v.nodes.contains_key(k) && v.nodes[k].appenders is Some {
            let own = v.nodes[k].appenders->0;
            assert forall|i: int| 0 <= i < own.len() implies own[i] < n by {
                assert(v.nodes[k].appenders->0[i] < n);
            }
            if v.nodes[k].additive {
                assert(all == own + above);
                assert forall|i: int| 0 <= i < all.len() implies all[i] < n by {
                    if i < own.len() {
                        assert(all[i] == own[i]);
                    } else {
                        assert(all[i] == above[i - own.len()]);
                    }
                }
            } else {
                assert(all == own);
            }
        } else {
            assert(all == above);
        }
    }
}

/// An optional position as an integer: -1 where there is none.
pub open spec fn position_or_none(p: Option<usize>) -> int {
    match p {
        Some(i) => i as int,
        None => -1,
    }
}

/// Whether `wraps` holds, for each appender, the position of the one that
/// it wraps, and each such position is that of an appender.
pub open spec fn wraps_match(appenders: Seq<Appender>, wraps: Seq<Option<usize>>, n: int) -> bool {
    forall|i: int|
        0 <= i < n ==> position_or_none(#[trigger] wraps[i]) == inner_at(appenders, i)
            && inner_at(appenders, i) < appenders.len()
}

/// Whether following what the appender at `i` wraps comes to an appender
/// that writes, in as many steps as there are appenders.
fn ends_at_sink(appenders: &Vec<Appender>, wraps: &Vec<Option<usize>>, i: usize) -> (yes: bool)
    requires
        i < appenders@.len(),
        wraps@.len() == appenders@.len(),
        wraps_match(appenders@, wraps@, appenders@.len() as int),
    ensures
        yes == reaches_sink(appenders@, i as int, appenders@.len()),
{
    let mut at: usize = i;
    let mut steps: usize = appenders.len();
    loop
        invariant
            at < appenders@.len(),
            steps <= appenders@.len(),
            wraps@.len() == appenders@.len(),
            wraps_match(appenders@, wraps@, appenders@.len() as int),
            reaches_sink(appenders@, i as int, appenders@.len()) == reaches_sink(
                appenders@,
                at as int,
                steps as nat,
            ),
        decreases steps,
    {
        match wraps[at] {
            None => {
                return true;
            },
            Some(next) => {
                if steps == 0 {
                    return false;
                }
                at = next;
                steps -= 1;
            },
        }
    }
}

/// The position of the first appender named `r`, if there is one.
pub fn lookup(appenders: &Vec<Appender>, r: &[u8]) -> (found: Option<usize>)
    ensures
        match found {
            Some(i) => i < appenders@.len() && i == index_named(
                appender_names(appenders@),
                r@,
                0,
            ),
            None => index_named(appender_names(appenders@), r@, 0) == appenders@.len(),
        },
{
    let ghost names = appender_names(appenders@);
    let mut i: usize = 0;
    while i < appenders.len()
        invariant
            i <= appenders@.len(),
            names == appender_names(appenders@),
            index_named(names, r@, 0) == index_named(names, r@, i as int),
        decreases appenders@.len() - i,
    {
        if same_bytes(appenders[i].name.as_slice(), r) {
            return Some(i);
        }
        i += 1;
    }
    None
}

/// Resolves a list of appender names to positions; fails with the
/// position in the list of the first name that is unknown.
pub fn resolve_refs(appenders: &Vec<Appender>, refs: &Vec<Vec<u8>>) -> (r: Result<
    Vec<usize>,
    usize,
>)
    ensures
        match r {
            Ok(list) => first_unknown(appender_names(appenders@), names_view(refs@), 0)
                == refs@.len() && list@ == resolved(
                appender_names(appenders@),
                names_view(refs@),
            ),
            Err(p) => p < refs@.len() && p == first_unknown(
                appender_names(appenders@),
                names_view(refs@),
                0,
            ),
        },
{
    let ghost names = appender_names(appenders@);
    let ghost wanted = names_view(refs@);
    let mut out: Vec<usize> = Vec::new();
    let mut p: usize = 0;
    while p < refs.len()
        invariant
            p <= refs@.len(),
            names == appender_names(appenders@),
            wanted == names_view(refs@),
            first_unknown(names, wanted, 0) == first_unknown(names, wanted, p as int),
            out@.len() == p,
            forall|q: int| 0 <= q < p ==> out@[q] == index_named(names, wanted[q], 0),
        decreases refs@.len() - p,
    {
        match lookup(appenders, refs[p].as_slice()) {
            Some(i) => {
                out.push(i);
            },
            None => {
                return Err(p);
            },
        }
        p += 1;
    }
    assert(out@ =~= resolved(names, wanted));
    Ok(out)
}

impl View for Snapshot {
    type V = SnapshotView;

    closed spec fn view(&self) -> SnapshotView {
        SnapshotView {
            appenders: self.appenders@,
            filters: self.filters@,
            registry: self.registry@,
        }
    }
}

impl Snapshot {
    #[verifier::type_invariant]
    spec fn well_formed(self) -> bool {
        &&& refs_below(self.registry@, self.appenders@.len() as int)
        &&& self.wraps@.len() == self.appenders@.len()
        &&& wraps_match(self.appenders@, self.wraps@, self.appenders@.len() as int)
        &&& first_cyclic(self.appenders@, 0) == self.appenders@.len()
    }

    /// Checks a configuration and makes a snapshot of it. It fails on
    /// the first fault that `validate` names, and only then.
    pub fn build(config: Config) -> (r: Result<Snapshot, ConfigError>)
        ensures
            match r {
                Ok(s) => validate(config) is Ok && s@ == snapshot_of(config),
                Err(e) => validate(config) == Err::<(), ConfigError>(e),
            },
    {
        let ghost names = appender_names(config.appenders@);
        let n: usize = config.appenders.len();
        let mut j: usize = 0;
        while j < n
            invariant
                j <= n == config.appenders@.len(),
                names == appender_names(config.appenders@),
                first_repeat(names, 0) == first_repeat(names, j as int),
            decreases n - j,
        {
            match lookup(&config.appenders, config.appenders[j].name.as_slice()) {
                Some(i) => {
                    if i < j {
                        return Err(ConfigError::DuplicateAppender { index: j });
                    }
                },
                None => {
                    proof {
                        lemma_index_named(names, names[j as int], 0);
                    }
                },
            }
            j += 1;
        }
        let mut j: usize = 0;
        while j < n
            invariant
                j <= n == config.appenders@.len(),
                names == appender_names(config.appenders@),
                first_repeat(names, 0) == names.len(),
                first_unwritable(config.appenders@, 0) == first_unwritable(
                    config.appenders@,
                    j as int,
                ),
            decreases n - j,
        {
            if !config.appenders[j].writable {
                return Err(ConfigError::Unwritable { index: j });
            }
            j += 1;
        }
        let mut wraps: Vec<Option<usize>> = Vec::new();
        let mut j: usize = 0;
        while j < n
            invariant
                j <= n == config.appenders@.len(),
                names == appender_names(config.appenders@),
                first_repeat(names, 0) == names.len(),
                first_unwritable(config.appenders@, 0) == config.appenders@.len(),
                first_unknown_inner(config.appenders@, 0) == first_unknown_inner(
                    config.appenders@,
                    j as int,
                ),
                wraps@.len() == j,
                wraps_match(config.appenders@, wraps@, j as int),
            decreases n - j,
        {
            match &config.appenders[j].destination {
                Destination::Buffered { inner, capacity } => {
                    match lookup(&config.appenders, inner.as_slice()) {
                        Some(k) => {
                            wraps.push(Some(k));
                        },
                        None => {
                            return Err(ConfigError::UnknownInner { index: j });
                        },
                    }
                },
                _ => {
                    wraps.push(None);
                },
            }
            j += 1;
        }
        let mut j: usize = 0;
        while j < n
            invariant
                j <= n == config.appenders@.len(),
                names == appender_names(config.appenders@),
                first_repeat(names, 0) == names.len(),
                first_unwritable(config.appenders@, 0) == config.appenders@.len(),
                first_unknown_inner(config.appenders@, 0) == config.appenders@.len(),
                first_cyclic(config.appenders@, 0) == first_cyclic(config.appenders@, j as int),
                wraps@.len() == n,
                wraps_match(config.appenders@, wraps@, n as int),
            decreases n - j,
        {
            if !ends_at_sink(&config.appenders, &wraps, j) {
                return Err(ConfigError::Cyclic { index: j });
            }
            j += 1;
        }
        let root_list = match resolve_refs(&config.appenders, &config.root.appenders) {
            Ok(list) => list,
            Err(position) => {
                return Err(ConfigError::UnknownInRoot { position });
            },
        };
        proof {
            lemma_resolved_below(names, names_view(config.root.appenders@), 0);
        }
        let mut registry = Registry::new(config.root.level, root_list);
        let count: usize = config.loggers.len();
        let mut l: usize = 0;
        while l < count
            invariant
                l <= count == config.loggers@.len(),
                n == config.appenders@.len(),
                names == appender_names(config.appenders@),
                first_repeat(names, 0) == names.len(),
                first_unwritable(config.appenders@, 0) == config.appenders@.len(),
                first_unknown_inner(config.appenders@, 0) == config.appenders@.len(),
                first_cyclic(config.appenders@, 0) == config.appenders@.len(),
                wraps@.len() == n,
                wraps_match(config.appenders@, wraps@, n as int),
                first_unknown(names, names_view(config.root.appenders@), 0)
                    == config.root.appenders@.len(),
                first_bad_logger(names, config.loggers@, 0) == first_bad_logger(
                    names,
                    config.loggers@,
                    l as int,
                ),
                registry@ == registry_of(config, l as int),
                refs_below(registry@, n as int),
            decreases count - l,
        {
            let logger = &config.loggers[l];
            let list = match &logger.appenders {
                Some(refs) => {
                    match resolve_refs(&config.appenders, refs) {
                        Ok(list) => {
                            proof {
                                lemma_resolved_below(names, names_view(refs@), 0);
                            }
                            Some(list)
                        },
                        Err(position) => {
                            return Err(ConfigError::UnknownInLogger { logger: l, position });
                        },
                    }
                },
                None => None,
            };
            proof {
                lemma_registered_below(
                    registry@,
                    logger.name@,
                    logger_settings(names, *logger),
                    n as int,
                );
            }
            registry.register(logger.name.as_slice(), logger.level, list, logger.additive);
            l += 1;
        }
        Ok(Snapshot { appenders: config.appenders, wraps, filters: config.filters, registry })
    }

    /// The appenders of the snapshot, in the order of the configuration.
    /// None of them is its own destination.
    pub fn appenders(&self) -> (a: &Vec<Appender>)
        ensures
            a@ == self@.appenders,
            first_cyclic(a@, 0) == a@.len(),
    {
        proof {
            use_type_invariant(self);
        }
        &self.appenders
    }

    /// The position of the appender that the appender at `i` wraps, if
    /// there is an appender at `i` and it wraps one.
    pub fn wraps(&self, i: usize) -> (inner: Option<usize>)
        ensures
            match inner {
                Some(k) => i < self@.appenders.len() && k < self@.appenders.len() && k
                    == inner_at(self@.appenders, i as int),
                None => i >= self@.appenders.len() || inner_at(self@.appenders, i as int) == -1,
            },
    {
        proof {
            use_type_invariant(self);
        }
        if i < self.wraps.len() {
            self.wraps[i]
        } else {
            None
        }
    }

    /// The chain of filters that every event runs through.
    pub fn filters(&self) -> (f: &Vec<Filter>)
        ensures
            f@ == self@.filters,
    {
        &self.filters
    }

    /// Resolves a target to its level and its appenders. Every appender
    /// it names is one of the snapshot's.
    pub fn resolve(&self, target: &[u8]) -> (r: EffectiveConfig)
        ensures
            r.level == effective_level(self@.registry, target@),
            r.appenders@ == effective_appenders(self@.registry, target@),
            forall|i: int| 0 <= i < r.appenders@.len() ==> r.appenders@[i] < self@.appenders.len(),
    {
        proof {
            use_type_invariant(self);
            lemma_effective_below(self.registry@, target@, self.appenders@.len() as int);
        }
        self.registry.resolve(target)
    }

    /// Whether an event of the given level for the given target would
    /// pass the level gate. This is the check to make before any work is
    /// spent on the message.
    pub fn enabled(&self, level: Level, target: &[u8]) -> (yes: bool)
        ensures
            yes == level.passes_spec(effective_level(self@.registry, target@)),
    {
        let r = self.registry.resolve(target);
        level.passes(r.level)
    }
}

} // verus!
