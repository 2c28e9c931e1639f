//! Documents: text with numbers in it that are still to be rendered.
//!
//! A number is kept as the literal that was read, and how a literal is
//! rendered in a given style depends on the value that it denotes in binary
//! floating point. So what this library writes is a sequence of pieces, and
//! whoever prints it renders each number in the style that its piece names.
use crate::number::{is_real_literal, Real};
use crate::text::{lemma_prefix_len_is, to_chars, Class};
use vstd::pervasive::unreached;
use vstd::prelude::*;

verus! {

/// One piece of a document.
#[derive(Debug, PartialEq, Eq)]
pub enum Piece {
    /// Text that is printed as it stands.
    Text(Vec<char>),
    /// A number that is printed in the shortest form that denotes it.
    Plain(Real),
    /// A number that is printed with its sign in a field twenty characters
    /// wide, with twelve digits after the point.
    Fixed(Real),
}

/// What a piece shows: its text, or the literal of its number.
pub enum PieceView {
    Text(Seq<char>),
    Plain(Seq<char>),
    Fixed(Seq<char>),
}

impl View for Piece {
    type V = PieceView;

    open spec fn view(&self) -> PieceView {
        match self {
            Piece::Text(text) => PieceView::Text(text@),
            Piece::Plain(number) => PieceView::Plain(number@),
            Piece::Fixed(number) => PieceView::Fixed(number@),
        }
    }
}

/// The end of a line.
pub open spec fn line_end() -> PieceView {
    PieceView::Text("\n"@)
}

/// The literal of the number zero, which stands where the report has a place
/// for a value that is not computed.
pub open spec fn zero() -> Seq<char> {
    "0.0"@
}

/// The numbers of a document, in their order.
pub open spec fn numbers(pieces: Seq<PieceView>) -> Seq<Seq<char>>
    decreases pieces.len(),
{
    if pieces.len() == 0 {
        Seq::empty()
    } else {
        match pieces.last() {
            PieceView::Text(_) => numbers(pieces.drop_last()),
            PieceView::Plain(number) => numbers(pieces.drop_last()).push(number),
            PieceView::Fixed(number) => numbers(pieces.drop_last()).push(number),
        }
    }
}

/// The numbers of two documents, one after the other, are the numbers of
/// the first and then those of the second.
pub proof fn lemma_numbers_add(a: Seq<PieceView>, b: Seq<PieceView>)
    ensures
        numbers(a + b) == numbers(a) + numbers(b),
    decreases b.len(),
{
    if b.len() == 0 {
        assert(a + b =~= a);
        assert(numbers(a) + numbers(b) =~= numbers(a));
    } else {
        lemma_numbers_add(a, b.drop_last());
        assert((a + b).drop_last() =~= a + b.drop_last());
        assert((a + b).last() == b.last());
        match b.last() {
            PieceView::Text(_) => {},
            PieceView::Plain(number) => {
                assert(numbers(a + b) =~= numbers(a) + numbers(b));
            },
            PieceView::Fixed(number) => {
                assert(numbers(a + b) =~= numbers(a) + numbers(b));
            },
        }
    }
}

/// A piece of text.
pub fn text(s: &str) -> (piece: Piece)
    ensures
        piece@ == PieceView::Text(s@),
{
    Piece::Text(to_chars(s))
}

/// The number zero.
pub fn zero_value() -> (number: Real)
    ensures
        number@ == zero(),
{
    proof {
        reveal_strlit("0.0");
        let s = "0.0"@;
        assert(s.len() == 3 && s[0] == '0' && s[1] == '.' && s[2] == '0');
        lemma_prefix_len_is(s, Class::Digit, 1);
        lemma_prefix_len_is(s.skip(2), Class::Digit, 1);
        assert(is_real_literal(s));
    }
    match Real::new("0.0") {
        Some(number) => number,
        None => unreached(),
    }
}

} // verus!
