//! Ray-cast rook attacks: from a square, every square along the four
//! orthogonal rays up to and including the first blocked square.

use vstd::prelude::*;

use crate::bits::{bit64, lemma_or_union, lemma_square_coords, lemma_square_split, on_board,
    sq_file, sq_rank, square_at};
use crate::rays::{ray_hit, ray_in_bounds, ray_sq, walk_ray};

verus! {

/// No blocker sits on the same file strictly between ranks `r1` and `r2`.
pub open spec fn vert_open(b: u64, f: int, r1: int, r2: int) -> bool {
    forall|t: int|
        ((r1 < t < r2) || (r2 < t < r1)) ==> !bit64(b, #[trigger] square_at(t, f))
}

/// No blocker sits on the same rank strictly between files `f1` and `f2`.
pub open spec fn horiz_open(b: u64, r: int, f1: int, f2: int) -> bool {
    forall|t: int|
        ((f1 < t < f2) || (f2 < t < f1)) ==> !bit64(b, #[trigger] square_at(r, t))
}

/// `s` is attacked by a rook on `sq` under `blockers`: it shares a rank or a
/// file with `sq` and every square strictly between the two is free.
pub open spec fn rook_attack_bit(sq: int, b: u64, s: int) -> bool {
    on_board(sq) && on_board(s) && s != sq && ((sq_file(s) == sq_file(sq) && vert_open(
        b,
        sq_file(sq),
        sq_rank(sq),
        sq_rank(s),
    )) || (sq_rank(s) == sq_rank(sq) && horiz_open(b, sq_rank(sq), sq_file(sq), sq_file(s))))
}

proof fn lemma_ray_vert(sq: int, b: u64, s: int, dir: int)
    requires
        on_board(sq),
        dir == 1 || dir == -1,
    ensures
        ray_hit(sq, dir, 0, b, s) == (on_board(s) && sq_file(s) == sq_file(sq) && (sq_rank(s)
            - sq_rank(sq)) * dir > 0 && vert_open(b, sq_file(sq), sq_rank(sq), sq_rank(s))),
{
    let rk = sq_rank(sq);
    let fl = sq_file(sq);
    lemma_square_split(sq);
    if ray_hit(sq, dir, 0, b, s) {
        let d = choose|d: int|
            1 <= d && #[trigger] ray_in_bounds(sq, dir, 0, d) && s == ray_sq(sq, dir, 0, d) && (
            forall|t: int| 1 <= t < d ==> !bit64(b, ray_sq(sq, dir, 0, t)));
        assert(rk + d * dir == if dir == 1 { rk + d } else { rk - d }) by (nonlinear_arith)
            requires
                dir == 1 || dir == -1,
        ;
        lemma_square_coords(rk + d * dir, fl);
        assert(sq_rank(s) == rk + d * dir && sq_file(s) == fl && on_board(s));
        assert((sq_rank(s) - rk) * dir == d) by (nonlinear_arith)
            requires
                dir == 1 || dir == -1,
                sq_rank(s) == rk + d * dir,
        ;
        assert forall|t: int| (rk < t < sq_rank(s)) || (sq_rank(s) < t < rk) implies !bit64(
            b,
            #[trigger] square_at(t, fl),
        ) by {
            let u = (t - rk) * dir;
            assert(u * dir == t - rk && 1 <= u < d) by (nonlinear_arith)
                requires
                    dir == 1 || dir == -1,
                    1 <= d,
                    u == (t - rk) * dir,
                    (rk < t < rk + d * dir) || (rk + d * dir < t < rk),
            ;
            assert(ray_sq(sq, dir, 0, u) == square_at(t, fl));
            assert(!bit64(b, ray_sq(sq, dir, 0, u)));
        }
        assert(vert_open(b, fl, rk, sq_rank(s)));
    }
    if on_board(s) && sq_file(s) == fl && (sq_rank(s) - rk) * dir > 0 && vert_open(
        b,
        fl,
        rk,
        sq_rank(s),
    ) {
        lemma_square_split(s);
        let d = (sq_rank(s) - rk) * dir;
        assert(d >= 1 && rk + d * dir == sq_rank(s)) by (nonlinear_arith)
            requires
                dir == 1 || dir == -1,
                d == (sq_rank(s) - rk) * dir,
                d > 0,
        ;
        assert(ray_in_bounds(sq, dir, 0, d));
        assert(s == ray_sq(sq, dir, 0, d));
        assert forall|t: int| 1 <= t < d implies !bit64(b, ray_sq(sq, dir, 0, t)) by {
            let v = rk + t * dir;
            assert((rk < v < sq_rank(s)) || (sq_rank(s) < v < rk)) by (nonlinear_arith)
                requires
                    dir == 1 || dir == -1,
                    v == rk + t * dir,
                    1 <= t < d,
                    rk + d * dir == sq_rank(s),
            ;
            assert(ray_sq(sq, dir, 0, t) == square_at(v, fl));
            assert(!bit64(b, square_at(v, fl)));
        }
        assert(ray_hit(sq, dir, 0, b, s));
    }
}

proof fn lemma_ray_horiz(sq: int, b: u64, s: int, dir: int)
    requires
        on_board(sq),
        dir == 1 || dir == -1,
    ensures
        ray_hit(sq, 0, dir, b, s) == (on_board(s) && sq_rank(s) == sq_rank(sq) && (sq_file(s)
            - sq_file(sq)) * dir > 0 && horiz_open(b, sq_rank(sq), sq_file(sq), sq_file(s))),
{
    let rk = sq_rank(sq);
    let fl = sq_file(sq);
    lemma_square_split(sq);
    if ray_hit(sq, 0, dir, b, s) {
        let d = choose|d: int|
            1 <= d && #[trigger] ray_in_bounds(sq, 0, dir, d) && s == ray_sq(sq, 0, dir, d) && (
            forall|t: int| 1 <= t < d ==> !bit64(b, ray_sq(sq, 0, dir, t)));
        assert(fl + d * dir == if dir == 1 { fl + d } else { fl - d }) by (nonlinear_arith)
            requires
                dir == 1 || dir == -1,
        ;
        lemma_square_coords(rk, fl + d * dir);
        assert(sq_rank(s) == rk && sq_file(s) == fl + d * dir && on_board(s));
        assert((sq_file(s) - fl) * dir == d) by (nonlinear_arith)
            requires
                dir == 1 || dir == -1,
                sq_file(s) == fl + d * dir,
        ;
        assert forall|t: int| (fl < t < sq_file(s)) || (sq_file(s) < t < fl) implies !bit64(
            b,
            #[trigger] square_at(rk, t),
        ) by {
            let u = (t - fl) * dir;
            assert(u * dir == t - fl && 1 <= u < d) by (nonlinear_arith)
                requires
                    dir == 1 || dir == -1,
                    1 <= d,
                    u == (t - fl) * dir,
                    (fl < t < fl + d * dir) || (fl + d * dir < t < fl),
            ;
            assert(ray_sq(sq, 0, dir, u) == square_at(rk, t));
            assert(!bit64(b, ray_sq(sq, 0, dir, u)));
        }
        assert(horiz_open(b, rk, fl, sq_file(s)));
    }
    if on_board(s) && sq_rank(s) == rk && (sq_file(s) - fl) * dir > 0 && horiz_open(
        b,
        rk,
        fl,
        sq_file(s),
    ) {
        lemma_square_split(s);
        let d = (sq_file(s) - fl) * dir;
        assert(d >= 1 && fl + d * dir == sq_file(s)) by (nonlinear_arith)
            requires
                dir == 1 || dir == -1,
                d == (sq_file(s) - fl) * dir,
                d > 0,
        ;
        assert(ray_in_bounds(sq, 0, dir, d));
        assert(s == ray_sq(sq, 0, dir, d));
        assert forall|t: int| 1 <= t < d implies !bit64(b, ray_sq(sq, 0, dir, t)) by {
            let v = fl + t * dir;
            assert((fl < v < sq_file(s)) || (sq_file(s) < v < fl)) by (nonlinear_arith)
                requires
                    dir == 1 || dir == -1,
                    v == fl + t * dir,
                    1 <= t < d,
                    fl + d * dir == sq_file(s),
            ;
            assert(ray_sq(sq, 0, dir, t) == square_at(rk, v));
            assert(!bit64(b, square_at(rk, v)));
        }
        assert(ray_hit(sq, 0, dir, b, s));
    }
}

proof fn lemma_rook_rays(sq: int, b: u64)
    requires
        on_board(sq),
    ensures
        forall|s: int|
            (ray_hit(sq, 1, 0, b, s) || ray_hit(sq, -1, 0, b, s) || ray_hit(sq, 0, 1, b, s)
                || ray_hit(sq, 0, -1, b, s)) == #[trigger] rook_attack_bit(sq, b, s),
{
    assert forall|s: int|
        (ray_hit(sq, 1, 0, b, s) || ray_hit(sq, -1, 0, b, s) || ray_hit(sq, 0, 1, b, s) || ray_hit(
            sq,
            0,
            -1,
            b,
            s,
        )) == #[trigger] rook_attack_bit(sq, b, s) by {
        lemma_ray_vert(sq, b, s, 1);
        lemma_ray_vert(sq, b, s, -1);
        lemma_ray_horiz(sq, b, s, 1);
        lemma_ray_horiz(sq, b, s, -1);
        lemma_square_split(sq);
        if on_board(s) {
            lemma_square_split(s);
            if s != sq && sq_file(s) == sq_file(sq) && sq_rank(s) == sq_rank(sq) {
                assert(s == square_at(sq_rank(s), sq_file(s)));
                assert(false);
            }
        }
    }
}

pub fn rook_attacks_from(square: u8, blockers: u64) -> (r: u64)
    requires
        square < 64,
    ensures
        forall|s: int| #[trigger] bit64(r, s) == rook_attack_bit(square as int, blockers, s),
{
    let up = walk_ray(square, 1, 0, blockers);
    let down = walk_ray(square, -1, 0, blockers);
    let right = walk_ray(square, 0, 1, blockers);
    let left = walk_ray(square, 0, -1, blockers);
    let vert = up | down;
    let horiz = right | left;
    let r = vert | horiz;
    proof {
        lemma_or_union(up, down);
        lemma_or_union(right, left);
        lemma_or_union(vert, horiz);
        lemma_rook_rays(square as int, blockers);
    }
    r
}

} // verus!
