//! Full-game bitboard state: one board per piece kind and color, plus
//! castling rights and the side to move.  No move execution lives here.

use vstd::prelude::*;

use crate::bits::bit64;
use crate::board::Board;
use crate::piece::{Color, Piece, PieceType};

verus! {

pub struct Game {
    pub white_pawns: Board,
    pub white_rooks: Board,
    pub white_knights: Board,
    pub white_bishops: Board,
    pub white_queens: Board,
    pub white_king: Board,
    pub black_pawns: Board,
    pub black_rooks: Board,
    pub black_knights: Board,
    pub black_bishops: Board,
    pub black_queens: Board,
    pub black_king: Board,
    /// Four bits: white king side, white queen side, black king side, black
    /// queen side.
    pub castling_rights: u8,
    /// False for white, true for black.
    pub side_to_move: bool,
}

/// Union of all twelve piece boards.
pub open spec fn all_pieces_spec(g: Game) -> u64 {
    g.white_pawns.0 | g.white_knights.0 | g.white_bishops.0 | g.white_rooks.0 | g.white_queens.0
        | g.white_king.0 | g.black_pawns.0 | g.black_knights.0 | g.black_bishops.0
        | g.black_rooks.0 | g.black_queens.0 | g.black_king.0
}

/// The piece found at `idx`, checking the twelve boards in a fixed order:
/// white pieces first, pawns before knights, bishops, rooks, queens, king.
pub open spec fn piece_at_spec(g: Game, idx: u8) -> Option<Piece> {
    if idx >= 64 || !bit64(all_pieces_spec(g), idx as int) {
        Option::None
    } else if bit64(g.white_pawns.0, idx as int) {
        Option::Some(Piece { piece_type: PieceType::Pawn, color: Color::White })
    } else if bit64(g.white_knights.0, idx as int) {
        Option::Some(Piece { piece_type: PieceType::Knight, color: Color::White })
    } else if bit64(g.white_bishops.0, idx as int) {
        Option::Some(Piece { piece_type: PieceType::Bishop, color: Color::White })
    } else if bit64(g.white_rooks.0, idx as int) {
        Option::Some(Piece { piece_type: PieceType::Rook, color: Color::White })
    } else if bit64(g.white_queens.0, idx as int) {
        Option::Some(Piece { piece_type: PieceType::Queen, color: Color::White })
    } else if bit64(g.white_king.0, idx as int) {
        Option::Some(Piece { piece_type: PieceType::King, color: Color::White })
    } else if bit64(g.black_pawns.0, idx as int) {
        Option::Some(Piece { piece_type: PieceType::Pawn, color: Color::Black })
    } else if bit64(g.black_knights.0, idx as int) {
        Option::Some(Piece { piece_type: PieceType::Knight, color: Color::Black })
    } else if bit64(g.black_bishops.0, idx as int) {
        Option::Some(Piece { piece_type: PieceType::Bishop, color: Color::Black })
    } else if bit64(g.black_rooks.0, idx as int) {
        Option::Some(Piece { piece_type: PieceType::Rook, color: Color::Black })
    } else if bit64(g.black_queens.0, idx as int) {
        Option::Some(Piece { piece_type: PieceType::Queen, color: Color::Black })
    } else if bit64(g.black_king.0, idx as int) {
        Option::Some(Piece { piece_type: PieceType::King, color: Color::Black })
    } else {
        Option::None
    }
}

impl Game {
    /// The standard starting position, with no castling rights recorded yet
    /// and black marked to move.
    pub fn new() -> (g: Self)
        ensures
            g.white_pawns.0 == 0x0000_0000_0000_FF00u64,
            g.white_knights.0 == 0x0000_0000_0000_0042u64,
            g.white_bishops.0 == 0x0000_0000_0000_0024u64,
            g.white_rooks.0 == 0x0000_0000_0000_0081u64,
            g.white_queens.0 == 0x0000_0000_0000_0008u64,
            g.white_king.0 == 0x0000_0000_0000_0010u64,
            g.black_pawns.0 == 0x00FF_0000_0000_0000u64,
            g.black_knights.0 == 0x4200_0000_0000_0000u64,
            g.black_bishops.0 == 0x2400_0000_0000_0000u64,
            g.black_rooks.0 == 0x8100_0000_0000_0000u64,
            g.black_queens.0 == 0x0800_0000_0000_0000u64,
            g.black_king.0 == 0x1000_0000_0000_0000u64,
            g.castling_rights == 0,
            g.side_to_move == true,
    {
        Game {
            white_pawns: Board(0x0000_0000_0000_FF00),
            white_knights: Board(0x0000_0000_0000_0042),
            white_bishops: Board(0x0000_0000_0000_0024),
            white_rooks: Board(0x0000_0000_0000_0081),
            white_queens: Board(0x0000_0000_0000_0008),
            white_king: Board(0x0000_0000_0000_0010),
            black_pawns: Board(0x00FF_0000_0000_0000),
            black_knights: Board(0x4200_0000_0000_0000),
            black_bishops: Board(0x2400_0000_0000_0000),
            black_rooks: Board(0x8100_0000_0000_0000),
            black_queens: Board(0x0800_0000_0000_0000),
            black_king: Board(0x1000_0000_0000_0000),
            castling_rights: 0,
            side_to_move: true,
        }
    }

    /// The board holding every piece of either color.
    pub fn all_pieces(&self) -> (r: Board)
        ensures
            r.0 == all_pieces_spec(*self),
    {
        Board(
            self.white_pawns.0 | self.white_knights.0 | self.white_bishops.0 | self.white_rooks.0
                | self.white_queens.0 | self.white_king.0 | self.black_pawns.0
                | self.black_knights.0 | self.black_bishops.0 | self.black_rooks.0
                | self.black_queens.0 | self.black_king.0,
        )
    }

    /// The piece standing on `idx`, if any; boards are checked in a fixed
    /// order, so on overlapping boards the first hit wins.
    pub fn get_piece_at(&self, idx: u8) -> (r: Option<Piece>)
        ensures
            r == piece_at_spec(*self, idx),
    {
        let all = self.all_pieces();
        proof {
            let i = idx as u64;
            let x = all.0;
            if idx < 64 {
                assert(((x & (1u64 << i)) == 0) == !((x >> i) & 1u64 == 1u64)) by (bit_vector)
                    requires
                        i < 64u64,
                ;
            }
        }
        if idx >= 64 || (all.0 & (1u64 << (idx as u64))) == 0 {
            return Option::None;
        }
        if self.white_pawns.has_bit(idx) {
            return Option::Some(Piece::new(PieceType::Pawn, Color::White));
        }
        if self.white_knights.has_bit(idx) {
            return Option::Some(Piece::new(PieceType::Knight, Color::White));
        }
        if self.white_bishops.has_bit(idx) {
            return Option::Some(Piece::new(PieceType::Bishop, Color::White));
        }
        if self.white_rooks.has_bit(idx) {
            return Option::Some(Piece::new(PieceType::Rook, Color::White));
        }
        if self.white_queens.has_bit(idx) {
            return Option::Some(Piece::new(PieceType::Queen, Color::White));
        }
        if self.white_king.has_bit(idx) {
            return Option::Some(Piece::new(PieceType::King, Color::White));
        }
        if self.black_pawns.has_bit(idx) {
            return Option::Some(Piece::new(PieceType::Pawn, Color::Black));
        }
        if self.black_knights.has_bit(idx) {
            return Option::Some(Piece::new(PieceType::Knight, Color::Black));
        }
        if self.black_bishops.has_bit(idx) {
            return Option::Some(Piece::new(PieceType::Bishop, Color::Black));
        }
        if self.black_rooks.has_bit(idx) {
            return Option::Some(Piece::new(PieceType::Rook, Color::Black));
        }
        if self.black_queens.has_bit(idx) {
            return Option::Some(Piece::new(PieceType::Queen, Color::Black));
        }
        if self.black_king.has_bit(idx) {
            return Option::Some(Piece::new(PieceType::King, Color::Black));
        }
        Option::None
    }
}

} // verus!
