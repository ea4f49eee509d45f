//! Piece kinds and colors.

use vstd::prelude::*;

verus! {

#[derive(Debug, Clone, Copy, PartialEq, Eq, Structural)]
pub enum Color {
    White,
    Black,
}

#[derive(Debug, Clone, Copy, PartialEq, Eq, Structural)]
pub enum PieceType {
    Pawn,
    Knight,
    Bishop,
    Rook,
    Queen,
    King,
}

/// A piece: its kind and its color.
#[derive(Debug, Clone, Copy, PartialEq, Eq, Structural)]
pub struct Piece {
    pub piece_type: PieceType,
    pub color: Color,
}

impl Piece {
    pub fn new(piece_type: PieceType, color: Color) -> (r: Self)
        ensures
            r.piece_type == piece_type,
            r.color == color,
    {
        Self { piece_type, color }
    }

    pub fn piece_type(self) -> (r: PieceType)
        ensures
            r == self.piece_type,
    {
        self.piece_type
    }

    pub fn color(self) -> (r: Color)
        ensures
            r == self.color,
    {
        self.color
    }

    pub fn is_white(self) -> (r: bool)
        ensures
            r == (self.color == Color::White),
    {
        matches!(self.color, Color::White)
    }

    pub fn is_black(self) -> (r: bool)
        ensures
            r == (self.color == Color::Black),
    {
        matches!(self.color, Color::Black)
    }
}

} // verus!
