//! The lexical units of a program: cards with a rank and a suit, plus the
//! line-marker tokens that the tokenizer interleaves between source lines.

use vstd::prelude::*;

verus! {

/// One of the four suits.  A suit selects a register; in arithmetic it names
/// an operator, and in label and jump runs it contributes a numeric weight.
#[derive(Clone, Copy, Debug, PartialEq, Eq, Structural)]
pub enum Suit {
    Diamonds,
    Hearts,
    Spades,
    Clubs,
}

/// The face value of a card.  `Num` carries the literal value of a pip card
/// (the tokenizer only produces 2 through 10); the court cards and the Ace
/// are kept apart because they select behaviors rather than values.
#[derive(Clone, Copy, Debug, PartialEq, Eq, Structural)]
pub enum Rank {
    Num(u8),
    Ace,
    Jack,
    Queen,
    King,
}

/// One token of the instruction stream: either a marker carrying a 1-based
/// source line number, or a card.
#[derive(Clone, Copy, Debug, PartialEq, Eq, Structural)]
pub enum Token {
    Line(usize),
    Card(Rank, Suit),
}

/// The numeric weight of a suit, used to compute label keys.  The weights
/// are the Unicode code points of the four suit glyphs, so they are pairwise
/// distinct.
pub open spec fn suit_weight(s: Suit) -> int {
    match s {
        Suit::Diamonds => 0x2666,
        Suit::Hearts => 0x2665,
        Suit::Spades => 0x2660,
        Suit::Clubs => 0x2663,
    }
}

/// Executable counterpart of [`suit_weight`].
pub fn suit_weight_u32(s: Suit) -> (w: u32)
    ensures
        w as int == suit_weight(s),
{
    match s {
        Suit::Diamonds => 0x2666,
        Suit::Hearts => 0x2665,
        Suit::Spades => 0x2660,
        Suit::Clubs => 0x2663,
    }
}

/// A token at which an operand run stops: a line marker, or a King, Queen or
/// Jack card.
pub open spec fn is_boundary(t: Token) -> bool {
    match t {
        Token::Line(_) => true,
        Token::Card(r, _) => r == Rank::King || r == Rank::Queen || r == Rank::Jack,
    }
}

/// Executable counterpart of [`is_boundary`].
pub fn is_boundary_token(t: &Token) -> (b: bool)
    ensures
        b == is_boundary(*t),
{
    match t {
        Token::Line(_) => true,
        Token::Card(r, _) => match r {
            Rank::King => true,
            Rank::Queen => true,
            Rank::Jack => true,
            _ => false,
        },
    }
}

} // verus!
