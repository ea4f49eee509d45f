//! Occupancy mask for the bishop: the squares whose occupancy can change the
//! bishop's attacks from a given square.  Board-edge squares never block a
//! further square, so the mask keeps only interior diagonal squares.

use vstd::prelude::*;

use crate::bishop::bishop_attacks::{bishop_attack_bit, bishop_attacks_from};
use crate::bits::{bit64, lemma_and_bits, lemma_square_coords, lemma_square_split,
    lemma_zero_bits, on_board, sq_file, sq_rank};

verus! {

/// Bitboard of the interior squares: rank and file both within 1..=6.
pub const INNER_SQUARES: u64 = 0x007E_7E7E_7E7E_7E00;

/// `s` belongs to the bishop occupancy mask of `sq`: it shares a diagonal with
/// `sq`, is not `sq` itself, and does not touch the board edge.
pub open spec fn bishop_mask_bit(sq: int, s: int) -> bool {
    on_board(sq) && on_board(s) && s != sq && (sq_rank(s) - sq_file(s) == sq_rank(sq) - sq_file(sq)
        || sq_rank(s) + sq_file(s) == sq_rank(sq) + sq_file(sq)) && 1 <= sq_rank(s) <= 6 && 1
        <= sq_file(s) <= 6
}

proof fn lemma_inner_squares()
    ensures
        forall|s: int|
            #[trigger] bit64(INNER_SQUARES, s) == (on_board(s) && 1 <= sq_rank(s) <= 6 && 1
                <= sq_file(s) <= 6),
{
    assert forall|s: int|
        #[trigger] bit64(INNER_SQUARES, s) == (on_board(s) && 1 <= sq_rank(s) <= 6 && 1 <= sq_file(
            s,
        ) <= 6) by {
        if 0 <= s < 64 {
            let su = s as u64;
            assert(((0x007E_7E7E_7E7E_7E00u64 >> su) & 1u64 == 1u64) == (1 <= su / 8 <= 6 && 1 <= su
                % 8 <= 6)) by (bit_vector)
                requires
                    su < 64u64,
            ;
            assert(su / 8 == s / 8 && su % 8 == s % 8);
        }
    }
}

pub fn bishop_occupancy_mask(square: u8) -> (r: u64)
    requires
        square < 64,
    ensures
        forall|s: int| #[trigger] bit64(r, s) == bishop_mask_bit(square as int, s),
{
    let open_board = bishop_attacks_from(square, 0u64);
    let r = open_board & INNER_SQUARES;
    proof {
        lemma_zero_bits();
        lemma_inner_squares();
        lemma_and_bits(open_board, INNER_SQUARES);
        assert forall|s: int| #[trigger] bit64(r, s) == bishop_mask_bit(square as int, s) by {
            assert(bit64(r, s) == (bit64(open_board, s) && bit64(INNER_SQUARES, s)));
            assert(bit64(open_board, s) == bishop_attack_bit(square as int, 0u64, s));
        }
    }
    r
}

/// Number of squares below `n` that belong to the bishop mask of `sq`.
pub open spec fn bishop_mask_count(sq: int, n: int) -> int
    decreases n,
{
    if n <= 0 {
        0
    } else {
        bishop_mask_count(sq, n - 1) + if bishop_mask_bit(sq, n - 1) {
            1int
        } else {
            0
        }
    }
}

/// Distance between two ranks or files.
pub open spec fn abs_diff(a: int, b: int) -> int {
    if a < b {
        b - a
    } else {
        a - b
    }
}

/// How far a diagonal ray reaches inside the interior: `a` and `b` are the
/// distances to the two relevant interior edges.
pub open spec fn diag_reach(a: int, b: int) -> int {
    if a <= 0 || b <= 0 {
        0
    } else if a < b {
        a
    } else {
        b
    }
}

proof fn lemma_bishop_positions_count(sq: int, m: u64, n: int)
    requires
        forall|s: int| #[trigger] bit64(m, s) == bishop_mask_bit(sq, s),
        0 <= n <= 64,
    ensures
        crate::utils::mask_positions(m, n).len() == bishop_mask_count(sq, n),
    decreases n,
{
    if n > 0 {
        lemma_bishop_positions_count(sq, m, n - 1);
    }
}

proof fn lemma_bishop_mask_row(sq: int, r: int)
    requires
        on_board(sq),
        0 <= r < 8,
    ensures
        bishop_mask_count(sq, 8 * r + 8) - bishop_mask_count(sq, 8 * r) == (if r == sq_rank(sq)
            || r < 1 || r > 6 {
            0int
        } else {
            (if 1 <= sq_file(sq) - abs_diff(r, sq_rank(sq)) <= 6 {
                1int
            } else {
                0int
            }) + (if 1 <= sq_file(sq) + abs_diff(r, sq_rank(sq)) <= 6 {
                1int
            } else {
                0int
            })
        }),
{
    lemma_square_split(sq);
    lemma_square_coords(r, 0);
    lemma_square_coords(r, 1);
    lemma_square_coords(r, 2);
    lemma_square_coords(r, 3);
    lemma_square_coords(r, 4);
    lemma_square_coords(r, 5);
    lemma_square_coords(r, 6);
    lemma_square_coords(r, 7);
    assert(bishop_mask_count(sq, 8 * r + 1) == bishop_mask_count(sq, 8 * r + 0) + (
    if bishop_mask_bit(sq, 8 * r + 0) {
        1int
    } else {
        0int
    }));
    assert(bishop_mask_count(sq, 8 * r + 2) == bishop_mask_count(sq, 8 * r + 1) + (
    if bishop_mask_bit(sq, 8 * r + 1) {
        1int
    } else {
        0int
    }));
    assert(bishop_mask_count(sq, 8 * r + 3) == bishop_mask_count(sq, 8 * r + 2) + (
    if bishop_mask_bit(sq, 8 * r + 2) {
        1int
    } else {
        0int
    }));
    assert(bishop_mask_count(sq, 8 * r + 4) == bishop_mask_count(sq, 8 * r + 3) + (
    if bishop_mask_bit(sq, 8 * r + 3) {
        1int
    } else {
        0int
    }));
    assert(bishop_mask_count(sq, 8 * r + 5) == bishop_mask_count(sq, 8 * r + 4) + (
    if bishop_mask_bit(sq, 8 * r + 4) {
        1int
    } else {
        0int
    }));
    assert(bishop_mask_count(sq, 8 * r + 6) == bishop_mask_count(sq, 8 * r + 5) + (
    if bishop_mask_bit(sq, 8 * r + 5) {
        1int
    } else {
        0int
    }));
    assert(bishop_mask_count(sq, 8 * r + 7) == bishop_mask_count(sq, 8 * r + 6) + (
    if bishop_mask_bit(sq, 8 * r + 6) {
        1int
    } else {
        0int
    }));
    assert(bishop_mask_count(sq, 8 * r + 8) == bishop_mask_count(sq, 8 * r + 7) + (
    if bishop_mask_bit(sq, 8 * r + 7) {
        1int
    } else {
        0int
    }));
}

/// The bishop occupancy mask holds exactly the reference number of relevant
/// squares: each of the four diagonal rays contributes its distance to the
/// interior edge (nine on e4).
pub proof fn lemma_bishop_mask_bit_count(sq: int, m: u64)
    requires
        on_board(sq),
        forall|s: int| #[trigger] bit64(m, s) == bishop_mask_bit(sq, s),
    ensures
        crate::utils::relevant_bits(m) == diag_reach(6 - sq_rank(sq), 6 - sq_file(sq))
            + diag_reach(6 - sq_rank(sq), sq_file(sq) - 1) + diag_reach(
            sq_rank(sq) - 1,
            6 - sq_file(sq),
        ) + diag_reach(sq_rank(sq) - 1, sq_file(sq) - 1),
{
    lemma_bishop_positions_count(sq, m, 64);
    lemma_square_split(sq);
    lemma_bishop_mask_row(sq, 0);
    lemma_bishop_mask_row(sq, 1);
    lemma_bishop_mask_row(sq, 2);
    lemma_bishop_mask_row(sq, 3);
    lemma_bishop_mask_row(sq, 4);
    lemma_bishop_mask_row(sq, 5);
    lemma_bishop_mask_row(sq, 6);
    lemma_bishop_mask_row(sq, 7);
}

} // verus!
