//! A generic verified ray walker: starting from a square it visits squares in a
//! fixed direction until it leaves the board or passes the first blocker.  Both
//! sliding-piece attack generators are built on it.

use vstd::prelude::*;

use crate::bits::{bit64, lemma_or_bit, lemma_square_coords, lemma_zero_bits, sq_file, sq_rank,
    square_at};

verus! {

/// Square reached after `d` steps in direction (`dr`, `df`) from `sq`.
pub open spec fn ray_sq(sq: int, dr: int, df: int, d: int) -> int {
    square_at(sq_rank(sq) + d * dr, sq_file(sq) + d * df)
}

/// The coordinates after `d` steps are still on the board.
pub open spec fn ray_in_bounds(sq: int, dr: int, df: int, d: int) -> bool {
    0 <= sq_rank(sq) + d * dr < 8 && 0 <= sq_file(sq) + d * df < 8
}

/// `s` is hit by the ray from `sq` in direction (`dr`, `df`) under `blockers`:
/// it lies some `d >= 1` steps out, on the board, and no square strictly
/// nearer on the ray holds a blocker.  The hit square itself may be occupied.
pub open spec fn ray_hit(sq: int, dr: int, df: int, blockers: u64, s: int) -> bool {
    exists|d: int|
        1 <= d && #[trigger] ray_in_bounds(sq, dr, df, d) && s == ray_sq(sq, dr, df, d) && (forall|
            t: int,
        |
            1 <= t < d ==> !bit64(blockers, ray_sq(sq, dr, df, t)))
}

/// Walk outward from `square`, setting each visited square's bit, stopping
/// after the first blocked square or at the board edge.
pub fn walk_ray(square: u8, dr: i8, df: i8, blockers: u64) -> (r: u64)
    requires
        square < 64,
        -1 <= dr <= 1,
        -1 <= df <= 1,
        dr != 0 || df != 0,
    ensures
        forall|s: int|
            #[trigger] bit64(r, s) == ray_hit(square as int, dr as int, df as int, blockers, s),
{
    let ghost sq = square as int;
    let rank: i16 = (square / 8) as i16;
    let file: i16 = (square % 8) as i16;
    let dri: i16 = dr as i16;
    let dfi: i16 = df as i16;
    let mut attacks: u64 = 0;
    let mut d: i16 = 0;
    let mut r: i16 = rank + dri;
    let mut f: i16 = file + dfi;
    let mut open_ray: bool = true;
    proof {
        lemma_zero_bits();
    }
    while open_ray && 0 <= r && r < 8 && 0 <= f && f < 8
        invariant
            square < 64,
            sq == square as int,
            rank == sq_rank(sq),
            file == sq_file(sq),
            0 <= rank < 8,
            0 <= file < 8,
            -1 <= dri <= 1,
            -1 <= dfi <= 1,
            dri == dr as int,
            dfi == df as int,
            dri != 0 || dfi != 0,
            0 <= d <= 8,
            r == rank + (d + 1) * dri,
            f == file + (d + 1) * dfi,
            forall|t: int| 1 <= t <= d ==> #[trigger] ray_in_bounds(sq, dri as int, dfi as int, t),
            forall|s: int|
                #[trigger] bit64(attacks, s) == exists|t: int|
                    1 <= t <= d && s == #[trigger] ray_sq(sq, dri as int, dfi as int, t),
            open_ray ==> forall|t: int|
                1 <= t <= d ==> !bit64(blockers, #[trigger] ray_sq(sq, dri as int, dfi as int, t)),
            !open_ray ==> 1 <= d && bit64(blockers, ray_sq(sq, dri as int, dfi as int, d as int))
                && (forall|t: int|
                1 <= t < d ==> !bit64(
                    blockers,
                    #[trigger] ray_sq(sq, dri as int, dfi as int, t),
                )),
        decreases 9 - d,
    {
        proof {
            if dri != 0 {
                assert(d <= 6) by (nonlinear_arith)
                    requires
                        0 <= rank < 8,
                        r == rank + (d + 1) * dri,
                        0 <= r < 8,
                        dri == 1 || dri == -1,
                        d >= 0,
                ;
            } else {
                assert(d <= 6) by (nonlinear_arith)
                    requires
                        0 <= file < 8,
                        f == file + (d + 1) * dfi,
                        0 <= f < 8,
                        dfi == 1 || dfi == -1,
                        d >= 0,
                ;
            }
        }
        d = d + 1;
        let s_i: i16 = r * 8 + f;
        proof {
            lemma_square_coords(r as int, f as int);
            assert(s_i as int == ray_sq(sq, dri as int, dfi as int, d as int));
        }
        let s_u: u64 = s_i as u64;
        let ghost prev = attacks;
        attacks = attacks | (1u64 << s_u);
        proof {
            lemma_or_bit(prev, s_u);
            assert forall|s: int|
                #[trigger] bit64(attacks, s) == exists|t: int|
                    1 <= t <= d && s == #[trigger] ray_sq(sq, dri as int, dfi as int, t) by {
                if bit64(attacks, s) {
                    if bit64(prev, s) {
                        let t = choose|t: int|
                            1 <= t <= d - 1 && s == #[trigger] ray_sq(sq, dri as int, dfi as int, t);
                        assert(1 <= t <= d && s == ray_sq(sq, dri as int, dfi as int, t));
                    } else {
                        assert(s == s_u as int);
                        assert(1 <= d as int <= d && s == ray_sq(sq, dri as int, dfi as int, d as int));
                    }
                }
                if exists|t: int|
                    1 <= t <= d && s == #[trigger] ray_sq(sq, dri as int, dfi as int, t) {
                    let t = choose|t: int|
                        1 <= t <= d && s == #[trigger] ray_sq(sq, dri as int, dfi as int, t);
                    if t <= d - 1 {
                        assert(bit64(prev, s));
                    } else {
                        assert(s == ray_sq(sq, dri as int, dfi as int, d as int));
                        assert(s == s_u as int);
                    }
                    assert(bit64(attacks, s));
                }
            }
        }
        if (blockers >> s_u) & 1u64 == 1u64 {
            open_ray = false;
        }
        r = r + dri;
        f = f + dfi;
        proof {
            assert(r == rank + (d + 1) * dri && f == file + (d + 1) * dfi) by (nonlinear_arith)
                requires
                    r == rank + d * dri + dri,
                    f == file + d * dfi + dfi,
            ;
        }
    }
    proof {
        assert forall|s: int|
            #[trigger] bit64(attacks, s) == ray_hit(sq, dri as int, dfi as int, blockers, s) by {
            if bit64(attacks, s) {
                let t = choose|t: int|
                    1 <= t <= d && s == #[trigger] ray_sq(sq, dri as int, dfi as int, t);
                assert(ray_in_bounds(sq, dri as int, dfi as int, t));
                assert(forall|u: int|
                    1 <= u < t ==> !bit64(
                        blockers,
                        #[trigger] ray_sq(sq, dri as int, dfi as int, u),
                    ));
                assert(ray_hit(sq, dri as int, dfi as int, blockers, s));
            }
            if ray_hit(sq, dri as int, dfi as int, blockers, s) {
                let dd = choose|dd: int|
                    1 <= dd && #[trigger] ray_in_bounds(sq, dri as int, dfi as int, dd) && s
                        == ray_sq(sq, dri as int, dfi as int, dd) && (forall|t: int|
                        1 <= t < dd ==> !bit64(blockers, ray_sq(sq, dri as int, dfi as int, t)));
                if dd > d {
                    if !open_ray {
                        assert(1 <= d < dd);
                        assert(!bit64(blockers, ray_sq(sq, dri as int, dfi as int, d as int)));
                        assert(false);
                    } else {
                        // the walk left the board at distance d + 1, so dd cannot be in bounds
                        assert(!(0 <= r < 8) || !(0 <= f < 8));
                        if !(0 <= r && r < 8) {
                            assert(!(0 <= sq_rank(sq) + dd * dri < 8)) by (nonlinear_arith)
                                requires
                                    -1 <= dri <= 1,
                                    dd >= d + 1,
                                    d >= 0,
                                    r == sq_rank(sq) + (d + 1) * dri,
                                    !(0 <= r < 8),
                                    0 <= sq_rank(sq) < 8,
                            ;
                        } else {
                            assert(!(0 <= sq_file(sq) + dd * dfi < 8)) by (nonlinear_arith)
                                requires
                                    -1 <= dfi <= 1,
                                    dd >= d + 1,
                                    d >= 0,
                                    f == sq_file(sq) + (d + 1) * dfi,
                                    !(0 <= f < 8),
                                    0 <= sq_file(sq) < 8,
                            ;
                        }
                        assert(!ray_in_bounds(sq, dri as int, dfi as int, dd));
                        assert(false);
                    }
                }
                assert(1 <= dd <= d && s == ray_sq(sq, dri as int, dfi as int, dd));
                assert(bit64(attacks, s));
            }
        }
    }
    attacks
}

} // verus!
