//! Appenders that wrap appenders.
//!
//! An appender may stand before another one, which stands before a third,
//! and so on. In a valid configuration every such chain ends in an
//! appender that writes.

use crate::appender::Appender;
use crate::snapshot::{first_cyclic, inner_at, reaches_sink, Snapshot};
use vstd::prelude::*;
use vstd::set_lib::{lemma_int_range, lemma_len_subset, set_int_range};

verus! {

/// Whether `p` is the position of an appender that wraps none.
pub open spec fn writes(appenders: Seq<Appender>, p: int) -> bool {
    0 <= p < appenders.len() && inner_at(appenders, p) < 0
}

/// One step along the chain: from an appender that wraps one to the one
/// it wraps; from anything else, nowhere.
pub open spec fn step(appenders: Seq<Appender>, p: int) -> int {
    if 0 <= p < appenders.len() && inner_at(appenders, p) >= 0 {
        inner_at(appenders, p)
    } else {
        p
    }
}

/// Where `t` steps along the chain lead from `i`.
pub open spec fn node_after(appenders: Seq<Appender>, i: int, t: nat) -> int
    decreases t,
{
    if t == 0 {
        i
    } else {
        node_after(appenders, step(appenders, i), (t - 1) as nat)
    }
}

/// The appender that the chain from `i` ends in, in a configuration in
/// which every chain ends.
pub open spec fn sink_of(appenders: Seq<Appender>, i: int) -> int {
    node_after(appenders, i, appenders.len())
}

/// A chain reaches a writer in `k` steps exactly when `k` steps lead to one.
pub proof fn lemma_reaches_is_walk(appenders: Seq<Appender>, i: int, k: nat)
    ensures
        reaches_sink(appenders, i, k) == writes(appenders, node_after(appenders, i, k)),
    decreases k,
{
    if !(0 <= i < appenders.len()) || inner_at(appenders, i) < 0 {
        lemma_stays(appenders, i, k);
    } else if k > 0 {
        lemma_reaches_is_walk(appenders, inner_at(appenders, i), (k - 1) as nat);
    }
}

/// From where no step leads on, any number of steps leads nowhere else.
pub proof fn lemma_stays(appenders: Seq<Appender>, p: int, t: nat)
    requires
        step(appenders, p) == p,
    ensures
        node_after(appenders, p, t) == p,
    decreases t,
{
    if t > 0 {
        lemma_stays(appenders, p, (t - 1) as nat);
    }
}

/// Steps add up.
pub proof fn lemma_walk_adds(appenders: Seq<Appender>, i: int, a: nat, b: nat)
    ensures
        node_after(appenders, i, a + b) == node_after(
            appenders,
            node_after(appenders, i, a),
            b,
        ),
    decreases a,
{
    if a > 0 {
        lemma_walk_adds(appenders, step(appenders, i), (a - 1) as nat, b);
    }
}

/// The least number of steps that lead from `i` to a writer, given that
/// `k` steps do.
proof fn least_steps(appenders: Seq<Appender>, i: int, k: nat) -> (m: nat)
    requires
        writes(appenders, node_after(appenders, i, k)),
    ensures
        m <= k,
        writes(appenders, node_after(appenders, i, m)),
        forall|t: nat| t < m ==> !writes(appenders, #[trigger] node_after(appenders, i, t)),
    decreases k,
{
    if exists|t: nat| t < k && writes(appenders, #[trigger] node_after(appenders, i, t)) {
        let t = choose|t: nat| t < k && writes(appenders, #[trigger] node_after(appenders, i, t));
        least_steps(appenders, i, t)
    } else {
        k
    }
}

/// A chain that reaches a writer at all reaches it in fewer steps than
/// there are appenders: on the shortest way no appender comes twice.
pub proof fn lemma_short_way(appenders: Seq<Appender>, i: int, k: nat)
    requires
        reaches_sink(appenders, i, k),
    ensures
        reaches_sink(appenders, i, appenders.len()),
{
    let n = appenders.len();
    lemma_reaches_is_walk(appenders, i, k);
    let m = least_steps(appenders, i, k);
    let end = node_after(appenders, i, m);
    let way = Seq::new(m + 1, |t: int| node_after(appenders, i, t as nat));
    assert forall|t: int| 0 <= t <= m implies 0 <= #[trigger] way[t] < n by {
        let q = node_after(appenders, i, t as nat);
        if !(0 <= q < n) {
            lemma_stays(appenders, q, (m - t) as nat);
            lemma_walk_adds(appenders, i, t as nat, (m - t) as nat);
            assert(t as nat + (m - t) as nat == m);
        }
    }
    assert forall|a: int, b: int| 0 <= a < way.len() && 0 <= b < way.len() && a != b implies way[a]
        != way[b] by {
        if way[a] == way[b] {
            let lo = if a < b {
                a
            } else {
                b
            };
            let hi = if a < b {
                b
            } else {
                a
            };
            lemma_walk_adds(appenders, i, lo as nat, (m - hi) as nat);
            lemma_walk_adds(appenders, i, hi as nat, (m - hi) as nat);
            assert(hi as nat + (m - hi) as nat == m);
            let sooner = lo as nat + (m - hi) as nat;
            assert(sooner < m);
            assert(node_after(appenders, i, sooner) == end);
        }
    }
    assert(way.no_duplicates());
    way.unique_seq_to_set();
    lemma_int_range(0, n as int);
    assert(way.to_set().subset_of(set_int_range(0, n as int))) by {
        assert forall|x: int| way.to_set().contains(x) implies set_int_range(
            0,
            n as int,
        ).contains(x) by {
            let t = choose|t: int| 0 <= t < way.len() && way[t] == x;
            assert(0 <= way[t] < n);
        }
    }
    lemma_len_subset(way.to_set(), set_int_range(0, n as int));
    assert(m + 1 <= n);
    lemma_stays(appenders, end, (n - m) as nat);
    lemma_walk_adds(appenders, i, m, (n - m) as nat);
    assert(m + (n - m) as nat == n);
    lemma_reaches_is_walk(appenders, i, n);
}

/// An appender is its own destination for good: where as many steps as
/// there are appenders do not lead to a writer, no number of steps does.
pub proof fn lemma_cycle_never_ends(appenders: Seq<Appender>, i: int, k: nat)
    requires
        !reaches_sink(appenders, i, appenders.len()),
    ensures
        !reaches_sink(appenders, i, k),
{
    if reaches_sink(appenders, i, k) {
        lemma_short_way(appenders, i, k);
    }
}

/// Where no appender is its own destination, every chain ends in a writer.
pub proof fn lemma_all_end(appenders: Seq<Appender>, from: int, i: int)
    requires
        0 <= from <= i < appenders.len(),
        first_cyclic(appenders, from) == appenders.len(),
    ensures
        writes(appenders, sink_of(appenders, i)),
    decreases i - from,
{
    if from < i {
        lemma_all_end(appenders, from + 1, i);
    } else {
        lemma_reaches_is_walk(appenders, i, appenders.len());
    }
}

/// The position of the appender that writes what the appender at `i`
/// accepts: the end of the chain that starts at `i`. There is none only
/// where there is no appender at `i`.
pub fn sink(snapshot: &Snapshot, i: usize) -> (end: Option<usize>)
    ensures
        match end {
            Some(k) => i < snapshot@.appenders.len() && k == sink_of(
                snapshot@.appenders,
                i as int,
            ) && writes(snapshot@.appenders, k as int),
            None => i >= snapshot@.appenders.len(),
        },
{
    let appenders = snapshot.appenders();
    let n: usize = appenders.len();
    if i >= n {
        return None;
    }
    proof {
        lemma_all_end(appenders@, 0, i as int);
    }
    let mut at: usize = i;
    let mut steps: usize = n;
    while steps > 0
        invariant
            i < n,
            at < n == appenders@.len(),
            appenders@ == snapshot@.appenders,
            writes(appenders@, sink_of(appenders@, i as int)),
            steps <= n,
            sink_of(appenders@, i as int) == node_after(appenders@, at as int, steps as nat),
        decreases steps,
    {
        match snapshot.wraps(at) {
            None => {
                proof {
                    lemma_stays(appenders@, at as int, steps as nat);
                }
                return Some(at);
            },
            Some(next) => {
                at = next;
                steps -= 1;
            },
        }
    }
    Some(at)
}

} // verus!
