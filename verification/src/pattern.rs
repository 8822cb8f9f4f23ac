//! Patterns: the written form of a layout.
//!
//! In a pattern, `{d}` stands for the time, `{l}` for the level, `{t}` for
//! the target, `{m}` for the message, `{M}` for the module, `{f}` for the
//! file, `{L}` for the line, `{n}` for a line feed and `{X(key)}` for the
//! metadata value under `key`. `{{` and `}}` stand for one brace each. All
//! other bytes stand for themselves.

use crate::layout::{Layout, Piece, PieceView, CLOSE, OPEN};
use crate::text::{copy_range, find_byte, first_at, lemma_first_at_is_first};
use vstd::prelude::*;

verus! {

/// Why a pattern is not a layout; `at` is the position of the offending brace.
#[derive(Clone, Copy, Debug, PartialEq, Eq, Structural)]
pub enum PatternError {
    /// A `{` opens a field that no `}` closes.
    Unterminated { at: usize },
    /// The text between `{` and `}` names no field.
    UnknownField { at: usize },
    /// A single `}` stands outside a field.
    StrayClose { at: usize },
}

/// One step of reading a pattern: a literal byte or a field.
pub enum Token {
    Byte(u8),
    Field(PieceView),
}

/// The field that the text between two braces names, if any.
pub open spec fn field_named(name: Seq<u8>) -> Option<PieceView> {
    if name.len() == 1 {
        if name[0] == 100u8 {
            Some(PieceView::Time)
        } else if name[0] == 108u8 {
            Some(PieceView::Level)
        } else if name[0] == 116u8 {
            Some(PieceView::Target)
        } else if name[0] == 109u8 {
            Some(PieceView::Message)
        } else if name[0] == 77u8 {
            Some(PieceView::Module)
        } else if name[0] == 102u8 {
            Some(PieceView::File)
        } else if name[0] == 76u8 {
            Some(PieceView::Line)
        } else if name[0] == 110u8 {
            Some(PieceView::Newline)
        } else {
            None
        }
    } else if name.len() >= 3 && name[0] == 88u8 && name[1] == 40u8 && name[name.len() - 1]
        == 41u8 {
        Some(PieceView::Meta(name.subrange(2, name.len() - 1)))
    } else {
        None
    }
}

/// The token that starts at position `i` of the pattern `p`, and the
/// position after it.
pub open spec fn token_at(p: Seq<u8>, i: int) -> Result<(Token, int), PatternError> {
    if p[i] == OPEN {
        if i + 1 < p.len() && p[i + 1] == OPEN {
            Ok((Token::Byte(OPEN), i + 2))
        } else {
            let close = first_at(p, CLOSE, i + 1);
            if close >= p.len() {
                Err(PatternError::Unterminated { at: i as usize })
            } else {
                match field_named(p.subrange(i + 1, close)) {
                    Some(f) => Ok((Token::Field(f), close + 1)),
                    None => Err(PatternError::UnknownField { at: i as usize }),
                }
            }
        }
    } else if p[i] == CLOSE {
        if i + 1 < p.len() && p[i + 1] == CLOSE {
            Ok((Token::Byte(CLOSE), i + 2))
        } else {
            Err(PatternError::StrayClose { at: i as usize })
        }
    } else {
        Ok((Token::Byte(p[i]), i + 1))
    }
}

/// The pieces read so far, with one more token: a field becomes a piece of
/// its own, a byte joins the text before it or starts a new text.
pub open spec fn with_token(acc: Seq<PieceView>, t: Token) -> Seq<PieceView> {
    match t {
        Token::Field(f) => acc.push(f),
        Token::Byte(b) => if acc.len() > 0 && acc.last() is Text {
            acc.drop_last().push(PieceView::Text(acc.last()->Text_0.push(b)))
        } else {
            acc.push(PieceView::Text(seq![b]))
        },
    }
}

/// The pieces of the pattern `p` from position `i` on, added to `acc`.
pub open spec fn parse_from(p: Seq<u8>, i: int, acc: Seq<PieceView>) -> Result<
    Seq<PieceView>,
    PatternError,
>
    decreases p.len() - i,
{
    if i < 0 || i >= p.len() {
        Ok(acc)
    } else {
        match token_at(p, i) {
            Err(e) => Err(e),
            Ok((t, next)) => if next > i {
                parse_from(p, next, with_token(acc, t))
            } else {
                Ok(acc)
            },
        }
    }
}

/// The pieces that the pattern `p` stands for, or why it stands for none.
pub open spec fn parse_pattern(p: Seq<u8>) -> Result<Seq<PieceView>, PatternError> {
    parse_from(p, 0, Seq::empty())
}

/// The pieces read so far: the finished ones and the text that is still
/// growing.
pub open spec fn so_far(done: Seq<PieceView>, pending: Seq<u8>) -> Seq<PieceView> {
    if pending.len() > 0 {
        done.push(PieceView::Text(pending))
    } else {
        done
    }
}

/// A byte read after the text that is still growing joins that text.
pub proof fn lemma_byte_joins(done: Seq<PieceView>, pending: Seq<u8>, b: u8)
    requires
        done.len() > 0 ==> !(done.last() is Text),
    ensures
        so_far(done, pending.push(b)) == with_token(so_far(done, pending), Token::Byte(b)),
{
    if pending.len() > 0 {
        let acc = done.push(PieceView::Text(pending));
        assert(acc.drop_last() =~= done);
    } else {
        assert(pending.push(b) =~= seq![b]);
    }
}

/// The field that `name` names, if any.
pub fn field_for(name: &[u8]) -> (piece: Option<Piece>)
    ensures
        match piece {
            Some(f) => field_named(name@) == Some(f@) && !(f is Text),
            None => field_named(name@) is None,
        },
{
    if name.len() == 1 {
        let c: u8 = name[0];
        if c == 100u8 {
            Some(Piece::Time)
        } else if c == 108u8 {
            Some(Piece::Level)
        } else if c == 116u8 {
            Some(Piece::Target)
        } else if c == 109u8 {
            Some(Piece::Message)
        } else if c == 77u8 {
            Some(Piece::Module)
        } else if c == 102u8 {
            Some(Piece::File)
        } else if c == 76u8 {
            Some(Piece::Line)
        } else if c == 110u8 {
            Some(Piece::Newline)
        } else {
            None
        }
    } else if name.len() >= 3 && name[0] == 88u8 && name[1] == 40u8 && name[name.len() - 1]
        == 41u8 {
        let key = copy_range(name, 2, name.len() - 1);
        Some(Piece::Meta(key))
    } else {
        None
    }
}

/// Reads a pattern into a layout without a limit.
pub fn parse(pattern: &[u8]) -> (r: Result<Layout, PatternError>)
    ensures
        match r {
            Ok(l) => parse_pattern(pattern@) == Ok::<Seq<PieceView>, PatternError>(
                l.pieces_view(),
            ) && l.limit is None,
            Err(e) => parse_pattern(pattern@) == Err::<Seq<PieceView>, PatternError>(e),
        },
{
    let mut pieces: Vec<Piece> = Vec::new();
    let mut pending: Vec<u8> = Vec::new();
    let ghost mut done: Seq<PieceView> = Seq::empty();
    let mut i: usize = 0;
    while i < pattern.len()
        invariant
            i <= pattern@.len(),
            done.len() == pieces@.len(),
            forall|k: int| 0 <= k < done.len() ==> done[k] == pieces@[k]@,
            done.len() > 0 ==> !(done.last() is Text),
            parse_pattern(pattern@) == parse_from(pattern@, i as int, so_far(done, pending@)),
        decreases pattern@.len() - i,
    {
        let c: u8 = pattern[i];
        let ghost acc = so_far(done, pending@);
        let ghost old_pending = pending@;
        if c == OPEN && i + 1 < pattern.len() && pattern[i + 1] == OPEN {
            pending.push(OPEN);
            proof {
                lemma_byte_joins(done, old_pending, OPEN);
            }
            i += 2;
        } else if c == OPEN {
            let close = find_byte(pattern, CLOSE, i + 1);
            if close >= pattern.len() {
                return Err(PatternError::Unterminated { at: i });
            }
            proof {
                lemma_first_at_is_first(pattern@, CLOSE, i + 1);
            }
            let name = copy_range(pattern, i + 1, close);
            match field_for(name.as_slice()) {
                None => {
                    return Err(PatternError::UnknownField { at: i });
                },
                Some(f) => {
                    if pending.len() > 0 {
                        let mut text: Vec<u8> = Vec::new();
                        std::mem::swap(&mut text, &mut pending);
                        pieces.push(Piece::Text(text));
                        proof {
                            done = done.push(PieceView::Text(text@));
                        }
                    }
                    pieces.push(f);
                    proof {
                        done = done.push(f@);
                        assert(so_far(done, pending@) =~= with_token(acc, Token::Field(f@)));
                    }
                    i = close + 1;
                },
            }
        } else if c == CLOSE {
            if i + 1 < pattern.len() && pattern[i + 1] == CLOSE {
                pending.push(CLOSE);
                proof {
                    lemma_byte_joins(done, old_pending, CLOSE);
                }
                i += 2;
            } else {
                return Err(PatternError::StrayClose { at: i });
            }
        } else {
            pending.push(c);
            proof {
                lemma_byte_joins(done, old_pending, c);
            }
            i += 1;
        }
    }
    if pending.len() > 0 {
        pieces.push(Piece::Text(pending));
        proof {
            done = done.push(PieceView::Text(pending@));
        }
    }
    let l = Layout { pieces, limit: None };
    assert(l.pieces_view() =~= done);
    Ok(l)
}

} // verus!
