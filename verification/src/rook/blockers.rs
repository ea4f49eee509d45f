//! Occupancy mask for the rook: the squares whose occupancy can change the
//! rook's attacks from a given square.  Edge squares along a ray never block a
//! further square, so they are left out, as is the origin square itself.

use vstd::prelude::*;

use crate::bits::{bit64, lemma_or_bit, lemma_square_coords, lemma_square_split, lemma_zero_bits,
    on_board, sq_file, sq_rank, square_at};

verus! {

/// `s` belongs to the rook occupancy mask of `sq`: it shares a rank or a file
/// with `sq`, is not `sq` itself, and is not the edge square of its ray.
pub open spec fn rook_mask_bit(sq: int, s: int) -> bool {
    on_board(sq) && on_board(s) && s != sq && ((sq_file(s) == sq_file(sq) && 1 <= sq_rank(s) <= 6)
        || (sq_rank(s) == sq_rank(sq) && 1 <= sq_file(s) <= 6))
}

pub fn rook_occupancy_mask(square: u8) -> (r: u64)
    requires
        square < 64,
    ensures
        forall|s: int| #[trigger] bit64(r, s) == rook_mask_bit(square as int, s),
{
    let ghost sq = square as int;
    let rank: u8 = square / 8;
    let file: u8 = square % 8;
    let mut mask: u64 = 0;
    proof {
        lemma_zero_bits();
    }
    let mut t: u8 = 1;
    while t < 7
        invariant
            square < 64,
            sq == square as int,
            rank == sq_rank(sq),
            file == sq_file(sq),
            1 <= t <= 7,
            forall|s: int|
                #[trigger] bit64(mask, s) == (on_board(s) && s != sq && sq_file(s) == file as int
                    && 1 <= sq_rank(s) < t as int),
        decreases 7 - t,
    {
        if t != rank {
            let idx: u8 = t * 8 + file;
            let ghost prev = mask;
            mask = mask | (1u64 << (idx as u64));
            proof {
                lemma_square_coords(t as int, file as int);
                lemma_or_bit(prev, idx as u64);
                assert forall|s: int|
                    #[trigger] bit64(mask, s) == (on_board(s) && s != sq && sq_file(s)
                        == file as int && 1 <= sq_rank(s) < t as int + 1) by {
                    if 0 <= s < 64 {
                        lemma_square_split(s);
                        if s == idx as int {
                            assert(sq_rank(s) == t as int && sq_file(s) == file as int);
                            assert(s != sq);
                        }
                        if on_board(s) && s != sq && sq_file(s) == file as int && sq_rank(s)
                            == t as int {
                            assert(s == square_at(t as int, file as int));
                        }
                    }
                }
            }
        } else {
            proof {
                assert forall|s: int|
                    #[trigger] bit64(mask, s) == (on_board(s) && s != sq && sq_file(s)
                        == file as int && 1 <= sq_rank(s) < t as int + 1) by {
                    if 0 <= s < 64 {
                        lemma_square_split(s);
                        lemma_square_split(sq);
                        if on_board(s) && s != sq && sq_file(s) == file as int && sq_rank(s)
                            == t as int {
                            assert(s == square_at(sq_rank(s), sq_file(s)));
                            assert(sq == square_at(sq_rank(sq), sq_file(sq)));
                            assert(false);
                        }
                    }
                }
            }
        }
        t = t + 1;
    }
    let ghost vert = mask;
    let mut u: u8 = 1;
    while u < 7
        invariant
            square < 64,
            sq == square as int,
            rank == sq_rank(sq),
            file == sq_file(sq),
            1 <= u <= 7,
            forall|s: int|
                #[trigger] bit64(vert, s) == (on_board(s) && s != sq && sq_file(s) == file as int
                    && 1 <= sq_rank(s) <= 6),
            forall|s: int|
                #[trigger] bit64(mask, s) == (bit64(vert, s) || (on_board(s) && s != sq
                    && sq_rank(s) == rank as int && 1 <= sq_file(s) < u as int)),
        decreases 7 - u,
    {
        if u != file {
            let idx: u8 = rank * 8 + u;
            let ghost prev = mask;
            mask = mask | (1u64 << (idx as u64));
            proof {
                lemma_square_coords(rank as int, u as int);
                lemma_or_bit(prev, idx as u64);
                assert forall|s: int|
                    #[trigger] bit64(mask, s) == (bit64(vert, s) || (on_board(s) && s != sq
                        && sq_rank(s) == rank as int && 1 <= sq_file(s) < u as int + 1)) by {
                    if 0 <= s < 64 {
                        lemma_square_split(s);
                        if s == idx as int {
                            assert(sq_rank(s) == rank as int && sq_file(s) == u as int);
                            assert(s != sq);
                        }
                        if on_board(s) && s != sq && sq_rank(s) == rank as int && sq_file(s)
                            == u as int {
                            assert(s == square_at(rank as int, u as int));
                        }
                    }
                }
            }
        } else {
            proof {
                assert forall|s: int|
                    #[trigger] bit64(mask, s) == (bit64(vert, s) || (on_board(s) && s != sq
                        && sq_rank(s) == rank as int && 1 <= sq_file(s) < u as int + 1)) by {
                    if 0 <= s < 64 {
                        lemma_square_split(s);
                        lemma_square_split(sq);
                        if on_board(s) && s != sq && sq_rank(s) == rank as int && sq_file(s)
                            == u as int {
                            assert(false);
                        }
                    }
                }
            }
        }
        u = u + 1;
    }
    proof {
        assert forall|s: int| #[trigger] bit64(mask, s) == rook_mask_bit(sq, s) by {
            if 0 <= s < 64 {
                lemma_square_split(s);
                lemma_square_split(sq);
            }
        }
    }
    mask
}

/// Number of squares below `n` that belong to the rook mask of `sq`.
pub open spec fn rook_mask_count(sq: int, n: int) -> int
    decreases n,
{
    if n <= 0 {
        0
    } else {
        rook_mask_count(sq, n - 1) + if rook_mask_bit(sq, n - 1) {
            1int
        } else {
            0
        }
    }
}

proof fn lemma_rook_positions_count(sq: int, m: u64, n: int)
    requires
        forall|s: int| #[trigger] bit64(m, s) == rook_mask_bit(sq, s),
        0 <= n <= 64,
    ensures
        crate::utils::mask_positions(m, n).len() == rook_mask_count(sq, n),
    decreases n,
{
    if n > 0 {
        lemma_rook_positions_count(sq, m, n - 1);
    }
}

proof fn lemma_rook_mask_row(sq: int, r: int)
    requires
        on_board(sq),
        0 <= r < 8,
    ensures
        rook_mask_count(sq, 8 * r + 8) - rook_mask_count(sq, 8 * r) == (if r == sq_rank(sq) {
            if sq_file(sq) == 0 || sq_file(sq) == 7 {
                6int
            } else {
                5int
            }
        } else if 1 <= r <= 6 {
            1int
        } else {
            0int
        }),
{
    lemma_square_split(sq);
    lemma_square_coords(r, 0);
    lemma_square_coords(r, 1);
    lemma_square_coords(r, 2);
    lemma_square_coords(r, 3);
    lemma_square_coords(r, 4);
    lemma_square_coords(r, 5);
    lemma_square_coords(r, 6);
    lemma_square_coords(r, 7);
    assert(rook_mask_count(sq, 8 * r + 1) == rook_mask_count(sq, 8 * r + 0) + (
    if rook_mask_bit(sq, 8 * r + 0) {
        1int
    } else {
        0int
    }));
    assert(rook_mask_count(sq, 8 * r + 2) == rook_mask_count(sq, 8 * r + 1) + (
    if rook_mask_bit(sq, 8 * r + 1) {
        1int
    } else {
        0int
    }));
    assert(rook_mask_count(sq, 8 * r + 3) == rook_mask_count(sq, 8 * r + 2) + (
    if rook_mask_bit(sq, 8 * r + 2) {
        1int
    } else {
        0int
    }));
    assert(rook_mask_count(sq, 8 * r + 4) == rook_mask_count(sq, 8 * r + 3) + (
    if rook_mask_bit(sq, 8 * r + 3) {
        1int
    } else {
        0int
    }));
    assert(rook_mask_count(sq, 8 * r + 5) == rook_mask_count(sq, 8 * r + 4) + (
    if rook_mask_bit(sq, 8 * r + 4) {
        1int
    } else {
        0int
    }));
    assert(rook_mask_count(sq, 8 * r + 6) == rook_mask_count(sq, 8 * r + 5) + (
    if rook_mask_bit(sq, 8 * r + 5) {
        1int
    } else {
        0int
    }));
    assert(rook_mask_count(sq, 8 * r + 7) == rook_mask_count(sq, 8 * r + 6) + (
    if rook_mask_bit(sq, 8 * r + 6) {
        1int
    } else {
        0int
    }));
    assert(rook_mask_count(sq, 8 * r + 8) == rook_mask_count(sq, 8 * r + 7) + (
    if rook_mask_bit(sq, 8 * r + 7) {
        1int
    } else {
        0int
    }));
}

/// The rook occupancy mask holds exactly the reference number of relevant
/// squares: five per ray pair, six when the rook stands on that ray's edge
/// (ten on an interior square such as e4).
pub proof fn lemma_rook_mask_bit_count(sq: int, m: u64)
    requires
        on_board(sq),
        forall|s: int| #[trigger] bit64(m, s) == rook_mask_bit(sq, s),
    ensures
        crate::utils::relevant_bits(m) == (if sq_rank(sq) == 0 || sq_rank(sq) == 7 {
            6int
        } else {
            5int
        }) + (if sq_file(sq) == 0 || sq_file(sq) == 7 {
            6int
        } else {
            5int
        }),
{
    lemma_rook_positions_count(sq, m, 64);
    lemma_square_split(sq);
    lemma_rook_mask_row(sq, 0);
    lemma_rook_mask_row(sq, 1);
    lemma_rook_mask_row(sq, 2);
    lemma_rook_mask_row(sq, 3);
    lemma_rook_mask_row(sq, 4);
    lemma_rook_mask_row(sq, 5);
    lemma_rook_mask_row(sq, 6);
    lemma_rook_mask_row(sq, 7);
}

} // verus!
