//! Reading back a record that was written in the standard layout.

use crate::event::{EventView, Timestamp};
use crate::layout::{
    lemma_standard_record, record_of, standard_pieces, standard_record, time_text,
};
use crate::level::{lemma_name_round_trip, level_named, parse_level, Level};
use crate::text::{
    copy_range, digits, find_byte, first_at, free_of, lemma_digits, lemma_first_at,
    lemma_first_at_is_first, lemma_padded, padded, NEWLINE, SPACE,
};
use vstd::prelude::*;

verus! {

/// The byte `-`.
pub const DASH: u8 = 45;

/// The fields of one record in the standard layout.
#[derive(Clone, Debug)]
pub struct Record {
    pub time: Vec<u8>,
    pub level: Level,
    pub target: Vec<u8>,
    pub message: Vec<u8>,
}

/// A record as a mathematical value.
pub struct RecordView {
    pub time: Seq<u8>,
    pub level: Level,
    pub target: Seq<u8>,
    pub message: Seq<u8>,
}

impl View for Record {
    type V = RecordView;

    open spec fn view(&self) -> RecordView {
        RecordView {
            time: self.time@,
            level: self.level,
            target: self.target@,
            message: self.message@,
        }
    }
}

/// Whether the three bytes ` - ` start at position `i` of `s`.
pub open spec fn dash_at(s: Seq<u8>, i: int) -> bool {
    0 <= i && i + 3 <= s.len() && s[i] == SPACE && s[i + 1] == DASH && s[i + 2] == SPACE
}

/// The first position at or after `from` at which ` - ` starts, or the
/// length of `s` where there is none.
pub open spec fn first_dash(s: Seq<u8>, from: int) -> int
    decreases s.len() - from,
{
    if from < 0 || from + 3 > s.len() {
        s.len() as int
    } else if dash_at(s, from) {
        from
    } else {
        first_dash(s, from + 1)
    }
}

/// The fields of the record `s`, if `s` is one line in the standard
/// layout: a time without spaces, one space, the name of a level, one
/// space, a target, the first ` - ` after it, a message, and a line feed
/// that is the only one in `s`.
pub open spec fn read_record(s: Seq<u8>) -> Option<RecordView> {
    let end = first_at(s, NEWLINE, 0);
    let a = first_at(s, SPACE, 0);
    let b = first_at(s, SPACE, a + 1);
    let c = first_dash(s, b + 1);
    if end + 1 != s.len() || a >= end || b >= end || c + 3 > end {
        None
    } else {
        match level_named(s.subrange(a + 1, b)) {
            None => None,
            Some(level) => Some(
                RecordView {
                    time: s.subrange(0, a),
                    level,
                    target: s.subrange(b + 1, c),
                    message: s.subrange(c + 3, end),
                },
            ),
        }
    }
}

/// Where ` - ` starts at `at` and nowhere between `from` and `at`, its
/// first occurrence from `from` on is at `at`.
pub proof fn lemma_first_dash(s: Seq<u8>, from: int, at: int)
    requires
        0 <= from <= at,
        dash_at(s, at),
        forall|j: int| from <= j < at ==> !dash_at(s, j),
    ensures
        first_dash(s, from) == at,
    decreases at - from,
{
    if from < at {
        lemma_first_dash(s, from + 1, at);
    }
}

/// Finds the first position at or after `from` at which ` - ` starts.
pub fn find_dash(s: &[u8], from: usize) -> (at: usize)
    ensures
        at == first_dash(s@, from as int),
        at <= s@.len(),
        at < s@.len() ==> dash_at(s@, at as int) && from <= at,
{
    let mut i: usize = from;
    while i < s.len() && s.len() - i >= 3
        invariant
            from <= i,
            first_dash(s@, from as int) == first_dash(s@, i as int),
        decreases s@.len() - i,
    {
        if s[i] == SPACE && s[i + 1] == DASH && s[i + 2] == SPACE {
            return i;
        }
        i += 1;
    }
    s.len()
}

/// Reads one record in the standard layout.
pub fn parse_record(bytes: &[u8]) -> (r: Option<Record>)
    ensures
        match r {
            Some(rec) => read_record(bytes@) == Some(rec@),
            None => read_record(bytes@) is None,
        },
{
    let end = find_byte(bytes, NEWLINE, 0);
    if end >= bytes.len() || end + 1 != bytes.len() {
        return None;
    }
    let a = find_byte(bytes, SPACE, 0);
    if a >= end {
        return None;
    }
    let b = find_byte(bytes, SPACE, a + 1);
    if b >= end {
        return None;
    }
    let c = find_dash(bytes, b + 1);
    if c >= bytes.len() || c + 3 > end {
        return None;
    }
    let name = copy_range(bytes, a + 1, b);
    match parse_level(name.as_slice()) {
        None => None,
        Some(level) => {
            let time = copy_range(bytes, 0, a);
            let target = copy_range(bytes, b + 1, c);
            let message = copy_range(bytes, c + 3, end);
            Some(Record { time, level, target, message })
        },
    }
}

/// The text of a time holds neither a space nor a line feed.
pub proof fn lemma_time_text_plain(t: Timestamp)
    ensures
        free_of(time_text(t), SPACE),
        free_of(time_text(t), NEWLINE),
        time_text(t).len() >= 8,
{
    lemma_digits((t.micros / 1_000_000) as nat);
    lemma_padded((t.micros % 1_000_000) as nat, 6);
    let d = digits((t.micros / 1_000_000) as nat);
    let f = padded((t.micros % 1_000_000) as nat, 6);
    let s = time_text(t);
    assert(s.len() == d.len() + 1 + 6);
    assert forall|i: int| 0 <= i < s.len() implies #[trigger] s[i] != SPACE && s[i] != NEWLINE by {
        if i < d.len() {
            assert(s[i] == d[i]);
        } else if i == d.len() {
            assert(s[i] == 46u8);
        } else {
            assert(s[i] == f[i - d.len() - 1]);
        }
    }
}

/// Whether a target can be told from what follows it in a record: ` - `
/// starts nowhere within the target, not even where its end would lie in
/// the ` - ` that follows the target.
pub open spec fn dash_free(target: Seq<u8>) -> bool {
    forall|p: int| 0 <= p < target.len() ==> !dash_at(target + seq![SPACE, DASH, SPACE], p)
}

/// Writing an event in the standard layout and reading the record back
/// gives the event's level, target and message again, and the text of its
/// time. This holds for every event whose message and target hold no
/// line feed and whose target can be told from what follows it.
pub proof fn lemma_round_trip(e: EventView)
    requires
        free_of(e.message, NEWLINE),
        free_of(e.target, NEWLINE),
        dash_free(e.target),
    ensures
        read_record(record_of(standard_pieces(), e)) == Some(
            RecordView {
                time: time_text(e.timestamp),
                level: e.level,
                target: e.target,
                message: e.message,
            },
        ),
{
    lemma_standard_record(e);
    let t = time_text(e.timestamp);
    let n = e.level.name();
    let g = e.target;
    let m = e.message;
    let s = standard_record(e);
    let a = t.len() as int;
    let b = a + 1 + n.len();
    let c = b + 1 + g.len();
    let end = c + 3 + m.len();
    lemma_time_text_plain(e.timestamp);
    lemma_name_round_trip(e.level);
    assert(s.len() == end + 1);
    assert forall|j: int| 0 <= j < a implies s[j] == t[j] by {}
    assert(s[a] == SPACE);
    assert forall|j: int| a + 1 <= j < b implies s[j] == n[j - a - 1] by {}
    assert(s[b] == SPACE);
    assert forall|j: int| b + 1 <= j < c implies s[j] == g[j - b - 1] by {}
    assert(s[c] == SPACE && s[c + 1] == DASH && s[c + 2] == SPACE);
    assert forall|j: int| c + 3 <= j < end implies s[j] == m[j - c - 3] by {}
    assert(s[end] == NEWLINE);
    assert forall|j: int| 0 <= j < end implies s[j] != NEWLINE by {
        if j < a {
            assert(s[j] == t[j]);
        } else if a + 1 <= j < b {
            assert(s[j] == n[j - a - 1]);
        } else if b + 1 <= j < c {
            assert(s[j] == g[j - b - 1]);
        } else if c + 3 <= j {
            assert(s[j] == m[j - c - 3]);
        }
    }
    lemma_first_at(s, NEWLINE, 0, end);
    assert forall|j: int| 0 <= j < a implies s[j] != SPACE by {
        assert(s[j] == t[j]);
    }
    lemma_first_at(s, SPACE, 0, a);
    assert forall|j: int| a + 1 <= j < b implies s[j] != SPACE by {
        assert(s[j] == n[j - a - 1]);
    }
    lemma_first_at(s, SPACE, a + 1, b);
    let tail = g + seq![SPACE, DASH, SPACE];
    assert forall|x: int| b + 1 <= x < c + 3 implies s[x] == tail[x - b - 1] by {
        if x < c {
            assert(s[x] == g[x - b - 1]);
        }
    }
    assert forall|j: int| b + 1 <= j < c implies !dash_at(s, j) by {
        if dash_at(s, j) {
            assert(s[j] == tail[j - b - 1]);
            assert(s[j + 1] == tail[j + 1 - b - 1]);
            assert(s[j + 2] == tail[j + 2 - b - 1]);
            assert(dash_at(tail, j - b - 1));
        }
    }
    assert(dash_at(s, c));
    lemma_first_dash(s, b + 1, c);
    assert(s.subrange(0, a) =~= t);
    assert(s.subrange(a + 1, b) =~= n);
    assert(s.subrange(b + 1, c) =~= g);
    assert(s.subrange(c + 3, end) =~= m);
}

/// The first ` - ` from `from` on lies at or before any ` - ` from
/// `from` on.
pub proof fn lemma_first_dash_bound(s: Seq<u8>, from: int, at: int)
    requires
        0 <= from <= at,
        dash_at(s, at),
    ensures
        from <= first_dash(s, from) <= at,
        dash_at(s, first_dash(s, from)),
    decreases at - from,
{
    if from < at && !dash_at(s, from) {
        lemma_first_dash_bound(s, from + 1, at);
    }
}

/// The round trip holds for no other events: where the message or the
/// target holds a line feed, or the target cannot be told from what
/// follows it, reading the record back does not give the event's fields.
pub proof fn lemma_round_trip_only(e: EventView)
    requires
        !(free_of(e.message, NEWLINE) && free_of(e.target, NEWLINE) && dash_free(e.target)),
    ensures
        read_record(record_of(standard_pieces(), e)) != Some(
            RecordView {
                time: time_text(e.timestamp),
                level: e.level,
                target: e.target,
                message: e.message,
            },
        ),
{
    lemma_standard_record(e);
    let t = time_text(e.timestamp);
    let n = e.level.name();
    let g = e.target;
    let m = e.message;
    let s = standard_record(e);
    let a = t.len() as int;
    let b = a + 1 + n.len();
    let c = b + 1 + g.len();
    let end = c + 3 + m.len();
    lemma_time_text_plain(e.timestamp);
    lemma_name_round_trip(e.level);
    assert(s.len() == end + 1);
    assert forall|j: int| b + 1 <= j < c implies s[j] == g[j - b - 1] by {}
    assert forall|j: int| c + 3 <= j < end implies s[j] == m[j - c - 3] by {}
    if !free_of(g, NEWLINE) {
        let i = choose|i: int| 0 <= i < g.len() && g[i] == NEWLINE;
        assert(s[b + 1 + i] == g[i]);
        lemma_first_at_is_first(s, NEWLINE, 0);
        assert(first_at(s, NEWLINE, 0) <= b + 1 + i);
    } else if !free_of(m, NEWLINE) {
        let i = choose|i: int| 0 <= i < m.len() && m[i] == NEWLINE;
        assert(s[c + 3 + i] == m[i]);
        lemma_first_at_is_first(s, NEWLINE, 0);
        assert(first_at(s, NEWLINE, 0) <= c + 3 + i);
    } else {
        let tail = g + seq![SPACE, DASH, SPACE];
        let p = choose|p: int| 0 <= p < g.len() && dash_at(tail, p);
        assert forall|x: int| b + 1 <= x < c + 3 implies s[x] == tail[x - b - 1] by {
            if x < c {
                assert(s[x] == g[x - b - 1]);
            }
        }
        assert(dash_at(s, b + 1 + p)) by {
            assert(s[b + 1 + p] == tail[p]);
            assert(s[b + 1 + p + 1] == tail[p + 1]);
            assert(s[b + 1 + p + 2] == tail[p + 2]);
        }
        assert forall|j: int| 0 <= j < a implies s[j] != SPACE by {
            assert(s[j] == t[j]);
        }
        assert(s[a] == SPACE);
        lemma_first_at(s, SPACE, 0, a);
        assert forall|j: int| a + 1 <= j < b implies s[j] != SPACE by {
            assert(s[j] == n[j - a - 1]);
        }
        assert(s[b] == SPACE);
        lemma_first_at(s, SPACE, a + 1, b);
        lemma_first_dash_bound(s, b + 1, b + 1 + p);
        let found = first_dash(s, b + 1);
        assert(found < c);
        if read_record(s) is Some {
            assert(read_record(s)->0.target.len() == found - b - 1);
        }
    }
}

} // verus!
