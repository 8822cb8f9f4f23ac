//! Writing a layout as a pattern.
//!
//! Every layout has a written form, and reading the written form gives
//! the layout back, provided that the layout is plain: no text piece is
//! empty, no two text pieces stand side by side, and no metadata key
//! holds a closing brace.

use crate::layout::{Layout, Piece, PieceView, CLOSE, OPEN};
use crate::pattern::{
    field_named, lemma_byte_joins, parse_from, parse_pattern, so_far, token_at, with_token,
    PatternError, Token,
};
use crate::text::{append_bytes, first_at, free_of, lemma_first_at};
use vstd::prelude::*;

verus! {

/// How one byte of literal text is written: a brace twice, any other
/// byte as it is.
pub open spec fn byte_text(b: u8) -> Seq<u8> {
    if b == OPEN {
        seq![OPEN, OPEN]
    } else if b == CLOSE {
        seq![CLOSE, CLOSE]
    } else {
        seq![b]
    }
}

/// How literal text is written.
pub open spec fn escaped(t: Seq<u8>) -> Seq<u8>
    decreases t.len(),
{
    if t.len() == 0 {
        Seq::empty()
    } else {
        escaped(t.drop_last()) + byte_text(t.last())
    }
}

/// What stands between the braces for a piece that is a field.
pub open spec fn field_name(p: PieceView) -> Seq<u8> {
    match p {
        PieceView::Text(t) => Seq::empty(),
        PieceView::Time => seq![100u8],
        PieceView::Level => seq![108u8],
        PieceView::Target => seq![116u8],
        PieceView::Message => seq![109u8],
        PieceView::Module => seq![77u8],
        PieceView::File => seq![102u8],
        PieceView::Line => seq![76u8],
        PieceView::Meta(k) => seq![88u8, 40u8] + k + seq![41u8],
        PieceView::Newline => seq![110u8],
    }
}

/// How one piece is written.
pub open spec fn piece_pattern(p: PieceView) -> Seq<u8> {
    match p {
        PieceView::Text(t) => escaped(t),
        _ => seq![OPEN] + field_name(p) + seq![CLOSE],
    }
}

/// How the first `n` pieces are written.
pub open spec fn written(pieces: Seq<PieceView>, n: int) -> Seq<u8>
    decreases n,
{
    if n <= 0 {
        Seq::empty()
    } else {
        written(pieces, n - 1) + piece_pattern(pieces[n - 1])
    }
}

/// The written form of a layout.
pub open spec fn pattern_of(pieces: Seq<PieceView>) -> Seq<u8> {
    written(pieces, pieces.len() as int)
}

/// Whether a layout is plain: no text piece is empty, no two text pieces
/// stand side by side, and no metadata key holds a closing brace.
pub open spec fn plain(pieces: Seq<PieceView>) -> bool {
    forall|i: int|
        0 <= i < pieces.len() ==> match #[trigger] pieces[i] {
            PieceView::Text(t) => t.len() > 0 && (i + 1 < pieces.len() ==> !(pieces[i + 1] is Text)),
            PieceView::Meta(k) => free_of(k, CLOSE),
            _ => true,
        }
}

/// Whether `part` stands in `full` at position `pos`.
pub open spec fn stands_at(full: Seq<u8>, pos: int, part: Seq<u8>) -> bool {
    &&& 0 <= pos
    &&& pos + part.len() <= full.len()
    &&& forall|j: int| 0 <= j < part.len() ==> full[pos + j] == #[trigger] part[j]
}

/// What is written for the first `k` pieces stands at the start of what
/// is written for the first `n`, and the next piece right after it.
proof fn lemma_written_grows(pieces: Seq<PieceView>, k: int, n: int)
    requires
        0 <= k <= n <= pieces.len(),
    ensures
        stands_at(written(pieces, n), 0, written(pieces, k)),
        k < n ==> stands_at(
            written(pieces, n),
            written(pieces, k).len() as int,
            piece_pattern(pieces[k]),
        ),
    decreases n - k,
{
    if k < n {
        lemma_written_grows(pieces, k, n - 1);
        let shorter = written(pieces, n - 1);
        let longer = written(pieces, n);
        assert(longer == shorter + piece_pattern(pieces[n - 1]));
        assert forall|j: int| 0 <= j < written(pieces, k).len() implies longer[j]
            == #[trigger] written(pieces, k)[j] by {
            assert(shorter[j] == written(pieces, k)[j]);
        }
        if k < n - 1 {
            let part = piece_pattern(pieces[k]);
            let pos = written(pieces, k).len() as int;
            assert forall|j: int| 0 <= j < part.len() implies longer[pos + j] == #[trigger] part[j] by {
                assert(shorter[pos + j] == part[j]);
            }
        } else {
            let part = piece_pattern(pieces[k]);
            let pos = written(pieces, k).len() as int;
            assert(pos == shorter.len());
            assert forall|j: int| 0 <= j < part.len() implies longer[pos + j] == #[trigger] part[j] by {}
        }
    }
}

/// What is written for the first bytes of a text stands at the start of
/// what is written for the whole text, and the next byte right after it.
proof fn lemma_escaped_grows(t: Seq<u8>, j: int)
    requires
        0 <= j <= t.len(),
    ensures
        stands_at(escaped(t), 0, escaped(t.subrange(0, j))),
        j < t.len() ==> stands_at(
            escaped(t),
            escaped(t.subrange(0, j)).len() as int,
            byte_text(t[j]),
        ),
        j < t.len() ==> escaped(t.subrange(0, j + 1)) == escaped(t.subrange(0, j)) + byte_text(
            t[j],
        ),
    decreases t.len() - j,
{
    if j < t.len() {
        let next = t.subrange(0, j + 1);
        assert(next.drop_last() =~= t.subrange(0, j));
        assert(next.last() == t[j]);
        lemma_escaped_grows(t, j + 1);
        let whole = escaped(t);
        let upto = escaped(next);
        let here = escaped(t.subrange(0, j));
        assert forall|i: int| 0 <= i < here.len() implies whole[i] == #[trigger] here[i] by {
            assert(upto[i] == here[i]);
            assert(whole[i] == upto[i]);
        }
        assert forall|i: int| 0 <= i < byte_text(t[j]).len() implies whole[here.len() + i]
            == #[trigger] byte_text(t[j])[i] by {
            assert(upto[here.len() + i] == byte_text(t[j])[i]);
            assert(whole[here.len() + i] == upto[here.len() + i]);
        }
    } else {
        assert(t.subrange(0, j) =~= t);
    }
}

/// A field that stands written at `pos` is read as that field.
proof fn lemma_reads_field(full: Seq<u8>, pos: int, p: PieceView)
    requires
        !(p is Text),
        p is Meta ==> free_of(p->Meta_0, CLOSE),
        stands_at(full, pos, piece_pattern(p)),
    ensures
        token_at(full, pos) == Ok::<(Token, int), PatternError>(
            (Token::Field(p), pos + piece_pattern(p).len()),
        ),
        piece_pattern(p).len() > 0,
{
    let name = field_name(p);
    let part = piece_pattern(p);
    assert(part.len() == name.len() + 2);
    assert(part[0] == OPEN);
    assert(full[pos + 0] == part[0]);
    assert(name.len() >= 1);
    assert forall|j: int| 0 <= j < name.len() implies full[pos + 1 + j] == name[j] && name[j]
        != CLOSE by {
        assert(part[1 + j] == name[j]);
        assert(full[pos + (1 + j)] == part[1 + j]);
        if p is Meta {
            let k = p->Meta_0;
            if 2 <= j < name.len() - 1 {
                assert(name[j] == k[j - 2]);
            }
        }
    }
    assert(name[0] != OPEN);
    assert(full[pos + 1] == name[0]);
    let last = name.len() as int + 1;
    assert(part[last] == CLOSE);
    assert(full[pos + last] == part[last]);
    assert forall|i: int| pos + 1 <= i < pos + 1 + name.len() implies full[i] != CLOSE by {
        let j = i - pos - 1;
        assert(full[pos + 1 + j] == name[j] && name[j] != CLOSE);
    }
    lemma_first_at(full, CLOSE, pos + 1, pos + 1 + name.len());
    assert(full.subrange(pos + 1, pos + 1 + name.len()) =~= name);
    if p is Meta {
        let k = p->Meta_0;
        assert(name.subrange(2, name.len() - 1) =~= k);
    }
    assert(field_named(name) == Some(p));
}

/// A text that stands written at `pos` is read byte by byte into one
/// piece.
proof fn lemma_reads_text(full: Seq<u8>, pos: int, acc: Seq<PieceView>, t: Seq<u8>, j: int)
    requires
        acc.len() > 0 ==> !(acc.last() is Text),
        stands_at(full, pos, escaped(t)),
        0 <= j <= t.len(),
    ensures
        parse_from(full, pos + escaped(t.subrange(0, j)).len(), so_far(acc, t.subrange(0, j)))
            == parse_from(full, pos + escaped(t).len(), so_far(acc, t)),
    decreases t.len() - j,
{
    if j < t.len() {
        lemma_escaped_grows(t, j);
        let before = t.subrange(0, j);
        let after = t.subrange(0, j + 1);
        let q = pos + escaped(before).len();
        let b = t[j];
        let bt = byte_text(b);
        let done = escaped(before).len() as int;
        assert(full[q + 0] == bt[0]) by {
            assert(escaped(t)[done + 0] == bt[0]);
            assert(full[pos + (done + 0)] == escaped(t)[done + 0]);
        }
        if b == OPEN || b == CLOSE {
            assert(full[q + 1] == bt[1]) by {
                assert(escaped(t)[done + 1] == bt[1]);
                assert(full[pos + (done + 1)] == escaped(t)[done + 1]);
            }
        }
        assert(token_at(full, q) == Ok::<(Token, int), PatternError>(
            (Token::Byte(b), q + bt.len()),
        ));
        lemma_byte_joins(acc, before, b);
        assert(before.push(b) =~= after);
        lemma_reads_text(full, pos, acc, t, j + 1);
    } else {
        assert(t.subrange(0, j) =~= t);
    }
}

/// From the end of what is written for the first `k` pieces on, the
/// rest is read into the rest of the pieces.
proof fn lemma_reads_rest(pieces: Seq<PieceView>, k: int)
    requires
        plain(pieces),
        0 <= k <= pieces.len(),
    ensures
        parse_from(
            pattern_of(pieces),
            written(pieces, k).len() as int,
            pieces.subrange(0, k),
        ) == Ok::<Seq<PieceView>, PatternError>(pieces),
    decreases pieces.len() - k,
{
    let full = pattern_of(pieces);
    let pos = written(pieces, k).len() as int;
    let acc = pieces.subrange(0, k);
    lemma_written_grows(pieces, k, pieces.len() as int);
    if k == pieces.len() {
        assert(acc =~= pieces);
    } else {
        let p = pieces[k];
        let part = piece_pattern(p);
        assert(written(pieces, k + 1) == written(pieces, k) + part);
        assert(acc.push(p) =~= pieces.subrange(0, k + 1));
        lemma_reads_rest(pieces, k + 1);
        if k > 0 {
            assert(acc.last() == pieces[k - 1]);
        }
        match p {
            PieceView::Text(t) => {
                if k > 0 {
                    assert(!(acc.last() is Text)) by {
                        if pieces[k - 1] is Text {
                            assert(!(pieces[k - 1 + 1] is Text));
                        }
                    }
                }
                lemma_reads_text(full, pos, acc, t, 0);
                assert(t.subrange(0, 0) =~= Seq::<u8>::empty());
                assert(escaped(Seq::<u8>::empty()).len() == 0);
            },
            _ => {
                lemma_reads_field(full, pos, p);
                assert(with_token(acc, Token::Field(p)) == acc.push(p));
            },
        }
    }
}

/// Reading what was written gives the layout back: the written form of
/// a plain layout is a pattern, and it stands for that layout.
pub proof fn lemma_written_reads_back(pieces: Seq<PieceView>)
    requires
        plain(pieces),
    ensures
        parse_pattern(pattern_of(pieces)) == Ok::<Seq<PieceView>, PatternError>(pieces),
{
    lemma_reads_rest(pieces, 0);
    assert(pieces.subrange(0, 0) =~= Seq::<PieceView>::empty());
}

/// Appends the written form of literal text to `out`.
fn append_escaped(out: &mut Vec<u8>, t: &[u8])
    ensures
        final(out)@ == old(out)@ + escaped(t@),
{
    let mut j: usize = 0;
    assert(old(out)@ + escaped(t@.subrange(0, 0)) =~= old(out)@);
    while j < t.len()
        invariant
            j <= t@.len(),
            out@ == old(out)@ + escaped(t@.subrange(0, j as int)),
        decreases t@.len() - j,
    {
        let b: u8 = t[j];
        proof {
            lemma_escaped_grows(t@, j as int);
        }
        if b == OPEN || b == CLOSE {
            out.push(b);
            out.push(b);
        } else {
            out.push(b);
        }
        assert(out@ =~= old(out)@ + escaped(t@.subrange(0, j + 1)));
        j += 1;
    }
    assert(t@.subrange(0, t@.len() as int) =~= t@);
}

/// Appends the written form of one piece to `out`.
fn append_written(out: &mut Vec<u8>, p: &Piece)
    ensures
        final(out)@ == old(out)@ + piece_pattern(p@),
{
    match p {
        Piece::Text(t) => {
            append_escaped(out, t.as_slice());
        },
        Piece::Meta(k) => {
            out.push(OPEN);
            out.push(88u8);
            out.push(40u8);
            append_bytes(out, k.as_slice());
            out.push(41u8);
            out.push(CLOSE);
            assert(out@ =~= old(out)@ + piece_pattern(p@));
        },
        _ => {
            let letter: u8 = match p {
                Piece::Time => 100u8,
                Piece::Level => 108u8,
                Piece::Target => 116u8,
                Piece::Message => 109u8,
                Piece::Module => 77u8,
                Piece::File => 102u8,
                Piece::Line => 76u8,
                _ => 110u8,
            };
            out.push(OPEN);
            out.push(letter);
            out.push(CLOSE);
            assert(out@ =~= old(out)@ + piece_pattern(p@));
        },
    }
}

/// Writes a layout as a pattern.
pub fn pattern_text(layout: &Layout) -> (out: Vec<u8>)
    ensures
        out@ == pattern_of(layout.pieces_view()),
{
    let mut out: Vec<u8> = Vec::new();
    let mut i: usize = 0;
    while i < layout.pieces.len()
        invariant
            i <= layout.pieces@.len(),
            out@ == written(layout.pieces_view(), i as int),
        decreases layout.pieces@.len() - i,
    {
        append_written(&mut out, &layout.pieces[i]);
        assert(layout.pieces_view()[i as int] == layout.pieces@[i as int]@);
        i += 1;
    }
    out
}

} // verus!
