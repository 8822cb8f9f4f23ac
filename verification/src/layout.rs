//! Layouts: how an event becomes the bytes of one record.
//!
//! A layout is a list of pieces. Each piece stands for literal text or for
//! one field of the event. The record is the text of the pieces in order,
//! followed by a line feed.

use crate::event::{meta_value, Event, EventView, Timestamp};
use crate::text::{append_bytes, append_number, append_padded, digits, padded, NEWLINE, SPACE};
use vstd::prelude::*;

verus! {

/// The byte `{`, which opens a field in a pattern.
pub const OPEN: u8 = 123;

/// The byte `}`, which closes a field in a pattern.
pub const CLOSE: u8 = 125;

/// One piece of a layout.
#[derive(Clone, Debug)]
pub enum Piece {
    /// Literal text.
    Text(Vec<u8>),
    /// The time of the event.
    Time,
    /// The name of the event's level.
    Level,
    /// The event's target.
    Target,
    /// The event's message.
    Message,
    /// The module where the event was emitted.
    Module,
    /// The source file where the event was emitted.
    File,
    /// The source line where the event was emitted.
    Line,
    /// The value of the metadata field with the given key, or nothing.
    Meta(Vec<u8>),
    /// A line feed within the record.
    Newline,
}

/// A piece as a mathematical value.
pub enum PieceView {
    Text(Seq<u8>),
    Time,
    Level,
    Target,
    Message,
    Module,
    File,
    Line,
    Meta(Seq<u8>),
    Newline,
}

impl View for Piece {
    type V = PieceView;

    open spec fn view(&self) -> PieceView {
        match *self {
            Piece::Text(t) => PieceView::Text(t@),
            Piece::Time => PieceView::Time,
            Piece::Level => PieceView::Level,
            Piece::Target => PieceView::Target,
            Piece::Message => PieceView::Message,
            Piece::Module => PieceView::Module,
            Piece::File => PieceView::File,
            Piece::Line => PieceView::Line,
            Piece::Meta(k) => PieceView::Meta(k@),
            Piece::Newline => PieceView::Newline,
        }
    }
}

/// Why a record could not be encoded.
#[derive(Clone, Copy, Debug, PartialEq, Eq, Structural)]
pub enum EncodeError {
    /// The record would have `len` bytes, more than the layout's `limit`.
    TooLong { len: usize, limit: usize },
}

/// A layout: its pieces, and the greatest length of a record if one is set.
#[derive(Clone, Debug)]
pub struct Layout {
    pub pieces: Vec<Piece>,
    pub limit: Option<usize>,
}

/// How a time is written: the whole seconds, a dot, and six digits of
/// microseconds.
pub open spec fn time_text(t: Timestamp) -> Seq<u8> {
    digits((t.micros / 1_000_000) as nat) + seq![46u8] + padded((t.micros % 1_000_000) as nat, 6)
}

/// The text that one piece contributes for the event `e`.
pub open spec fn piece_text(p: PieceView, e: EventView) -> Seq<u8> {
    match p {
        PieceView::Text(t) => t,
        PieceView::Time => time_text(e.timestamp),
        PieceView::Level => e.level.name(),
        PieceView::Target => e.target,
        PieceView::Message => e.message,
        PieceView::Module => e.module,
        PieceView::File => e.file,
        PieceView::Line => digits(e.line as nat),
        PieceView::Meta(k) => match meta_value(e.metadata, k) {
            Some(v) => v,
            None => Seq::empty(),
        },
        PieceView::Newline => seq![NEWLINE],
    }
}

/// The text of the first `n` pieces for the event `e`.
pub open spec fn rendered(pieces: Seq<PieceView>, e: EventView, n: int) -> Seq<u8>
    decreases n,
{
    if n <= 0 {
        Seq::empty()
    } else {
        rendered(pieces, e, n - 1) + piece_text(pieces[n - 1], e)
    }
}

/// The record of `e` under the given pieces: their text, then a line feed.
pub open spec fn record_of(pieces: Seq<PieceView>, e: EventView) -> Seq<u8> {
    rendered(pieces, e, pieces.len() as int).push(NEWLINE)
}

/// The record written in place of one that is too long.
pub open spec fn placeholder() -> Seq<u8> {
    seq![
        60u8, 114u8, 101u8, 99u8, 111u8, 114u8, 100u8, 32u8, 116u8, 111u8, 111u8, 32u8, 108u8,
        111u8, 110u8, 103u8, 62u8, 10u8,
    ]
}

/// Whether a record of `len` bytes is within `limit`.
pub open spec fn within(len: nat, limit: Option<usize>) -> bool {
    match limit {
        Some(l) => len <= l,
        None => true,
    }
}

/// The pieces of the standard layout: time, level, target, a dash, message.
pub open spec fn standard_pieces() -> Seq<PieceView> {
    seq![
        PieceView::Time,
        PieceView::Text(seq![SPACE]),
        PieceView::Level,
        PieceView::Text(seq![SPACE]),
        PieceView::Target,
        PieceView::Text(seq![SPACE, 45u8, SPACE]),
        PieceView::Message,
    ]
}

/// The record of `e` in the standard layout, written out:
/// `<time> <LEVEL> <target> - <message>` and a line feed.
pub open spec fn standard_record(e: EventView) -> Seq<u8> {
    time_text(e.timestamp) + seq![SPACE] + e.level.name() + seq![SPACE] + e.target + seq![
        SPACE,
        45u8,
        SPACE,
    ] + e.message + seq![NEWLINE]
}

/// The standard pieces render to the standard record.
pub proof fn lemma_standard_record(e: EventView)
    ensures
        record_of(standard_pieces(), e) == standard_record(e),
{
    let p = standard_pieces();
    reveal_with_fuel(rendered, 8);
    assert(record_of(p, e) =~= standard_record(e));
}

impl Layout {
    /// The pieces as mathematical values.
    pub open spec fn pieces_view(&self) -> Seq<PieceView> {
        Seq::new(self.pieces@.len(), |i: int| self.pieces@[i]@)
    }

    /// What is handed to an appender for `e`: the record, or the
    /// placeholder where the record is longer than the limit.
    pub open spec fn output(&self, e: EventView) -> Seq<u8> {
        if within(record_of(self.pieces_view(), e).len(), self.limit) {
            record_of(self.pieces_view(), e)
        } else {
            placeholder()
        }
    }

    /// The standard layout, without a limit.
    pub fn standard() -> (l: Layout)
        ensures
            l.pieces_view() == standard_pieces(),
            l.limit is None,
    {
        let mut pieces: Vec<Piece> = Vec::new();
        pieces.push(Piece::Time);
        pieces.push(Piece::Text(vec![SPACE]));
        pieces.push(Piece::Level);
        pieces.push(Piece::Text(vec![SPACE]));
        pieces.push(Piece::Target);
        pieces.push(Piece::Text(vec![SPACE, 45u8, SPACE]));
        pieces.push(Piece::Message);
        let l = Layout { pieces, limit: None };
        proof {
            assert(l.pieces@[1]@ == PieceView::Text(seq![SPACE])) by {
                assert(l.pieces@[1]->Text_0@ =~= seq![SPACE]);
            }
            assert(l.pieces@[3]@ == PieceView::Text(seq![SPACE])) by {
                assert(l.pieces@[3]->Text_0@ =~= seq![SPACE]);
            }
            assert(l.pieces@[5]@ == PieceView::Text(seq![SPACE, 45u8, SPACE])) by {
                assert(l.pieces@[5]->Text_0@ =~= seq![SPACE, 45u8, SPACE]);
            }
            assert(l.pieces_view() =~= standard_pieces());
        }
        l
    }

    /// The same layout with the greatest record length set to `limit`.
    pub fn with_limit(self, limit: usize) -> (l: Layout)
        ensures
            l.pieces == self.pieces,
            l.limit == Some(limit),
    {
        Layout { pieces: self.pieces, limit: Some(limit) }
    }

    /// Renders the record of `e`, whatever its length.
    pub fn render(&self, e: &Event) -> (out: Vec<u8>)
        ensures
            out@ == record_of(self.pieces_view(), e@),
    {
        let mut out: Vec<u8> = Vec::new();
        let mut i: usize = 0;
        while i < self.pieces.len()
            invariant
                i <= self.pieces@.len(),
                out@ == rendered(self.pieces_view(), e@, i as int),
            decreases self.pieces@.len() - i,
        {
            append_piece(&mut out, &self.pieces[i], e);
            assert(self.pieces_view()[i as int] == self.pieces@[i as int]@);
            i += 1;
        }
        out.push(NEWLINE);
        out
    }

    /// Encodes `e`: the record, or an error where it is longer than the limit.
    pub fn encode(&self, e: &Event) -> (r: Result<Vec<u8>, EncodeError>)
        ensures
            match r {
                Ok(out) => out@ == record_of(self.pieces_view(), e@) && within(
                    out@.len(),
                    self.limit,
                ),
                Err(EncodeError::TooLong { len, limit }) => self.limit == Some(limit) && len
                    == record_of(self.pieces_view(), e@).len() && len > limit,
            },
    {
        let out = self.render(e);
        match self.limit {
            Some(limit) => {
                if out.len() > limit {
                    Err(EncodeError::TooLong { len: out.len(), limit })
                } else {
                    Ok(out)
                }
            },
            None => Ok(out),
        }
    }

    /// Encodes `e` for delivery. This never fails: a record that is longer
    /// than the limit is replaced by the placeholder.
    pub fn encode_or_placeholder(&self, e: &Event) -> (out: Vec<u8>)
        ensures
            out@ == self.output(e@),
    {
        match self.encode(e) {
            Ok(out) => out,
            Err(_) => {
                let out = vec![
                    60u8, 114u8, 101u8, 99u8, 111u8, 114u8, 100u8, 32u8, 116u8, 111u8, 111u8,
                    32u8, 108u8, 111u8, 110u8, 103u8, 62u8, 10u8,
                ];
                assert(out@ =~= placeholder());
                out
            },
        }
    }
}

/// Appends the text of a time to `out`.
pub fn append_time(out: &mut Vec<u8>, t: Timestamp)
    ensures
        final(out)@ == old(out)@ + time_text(t),
{
    append_number(out, t.micros / 1_000_000);
    out.push(46u8);
    append_padded(out, t.micros % 1_000_000, 6);
    assert(out@ =~= old(out)@ + time_text(t));
}

/// Appends the text that the piece `p` contributes for `e` to `out`.
pub fn append_piece(out: &mut Vec<u8>, p: &Piece, e: &Event)
    ensures
        final(out)@ == old(out)@ + piece_text(p@, e@),
{
    match p {
        Piece::Text(t) => append_bytes(out, t.as_slice()),
        Piece::Time => append_time(out, e.timestamp),
        Piece::Level => {
            let name = e.level.as_bytes();
            append_bytes(out, name.as_slice());
        },
        Piece::Target => append_bytes(out, e.target.as_slice()),
        Piece::Message => append_bytes(out, e.message.as_slice()),
        Piece::Module => append_bytes(out, e.location.module.as_slice()),
        Piece::File => append_bytes(out, e.location.file.as_slice()),
        Piece::Line => append_number(out, e.location.line as u64),
        Piece::Meta(k) => {
            match e.find_key(k.as_slice()) {
                Some(i) => append_bytes(out, e.metadata[i].value.as_slice()),
                None => {
                    assert(out@ =~= old(out)@ + Seq::<u8>::empty());
                },
            }
        },
        Piece::Newline => {
            out.push(NEWLINE);
            assert(out@ =~= old(out)@ + seq![NEWLINE]);
        },
    }
}

} // verus!
