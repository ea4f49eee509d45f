//! Ray-cast bishop attacks: from a square, every square along the four
//! diagonal rays up to and including the first blocked square.

use vstd::prelude::*;

use crate::bits::{bit64, lemma_or_union, lemma_square_coords, lemma_square_split, on_board,
    sq_file, sq_rank, square_at};
use crate::rays::{ray_hit, ray_in_bounds, ray_sq, walk_ray};

verus! {

/// No blocker sits on the shared falling diagonal (constant rank - file)
/// strictly between `sq` and `s`.
pub open spec fn diag_open(b: u64, sq: int, s: int) -> bool {
    forall|u: int|
        on_board(u) && sq_rank(u) - sq_file(u) == sq_rank(sq) - sq_file(sq) && ((sq_rank(sq)
            < sq_rank(u) < sq_rank(s)) || (sq_rank(s) < sq_rank(u) < sq_rank(sq))) ==> !(
        #[trigger] bit64(b, u))
}

/// No blocker sits on the shared rising diagonal (constant rank + file)
/// strictly between `sq` and `s`.
pub open spec fn anti_open(b: u64, sq: int, s: int) -> bool {
    forall|u: int|
        on_board(u) && sq_rank(u) + sq_file(u) == sq_rank(sq) + sq_file(sq) && ((sq_rank(sq)
            < sq_rank(u) < sq_rank(s)) || (sq_rank(s) < sq_rank(u) < sq_rank(sq))) ==> !(
        #[trigger] bit64(b, u))
}

/// `s` is attacked by a bishop on `sq` under `blockers`: it shares a diagonal
/// with `sq` and every square strictly between the two is free.
pub open spec fn bishop_attack_bit(sq: int, b: u64, s: int) -> bool {
    on_board(sq) && on_board(s) && s != sq && ((sq_rank(s) - sq_file(s) == sq_rank(sq) - sq_file(
        sq,
    ) && diag_open(b, sq, s)) || (sq_rank(s) + sq_file(s) == sq_rank(sq) + sq_file(sq) && anti_open(
        b,
        sq,
        s,
    )))
}

proof fn lemma_ray_diag(sq: int, b: u64, s: int, dir: int)
    requires
        on_board(sq),
        dir == 1 || dir == -1,
    ensures
        ray_hit(sq, dir, dir, b, s) == (on_board(s) && sq_rank(s) - sq_file(s) == sq_rank(sq)
            - sq_file(sq) && (sq_rank(s) - sq_rank(sq)) * dir > 0 && diag_open(b, sq, s)),
{
    let rk = sq_rank(sq);
    let fl = sq_file(sq);
    lemma_square_split(sq);
    if ray_hit(sq, dir, dir, b, s) {
        let d = choose|d: int|
            1 <= d && #[trigger] ray_in_bounds(sq, dir, dir, d) && s == ray_sq(sq, dir, dir, d) && (
            forall|t: int| 1 <= t < d ==> !bit64(b, ray_sq(sq, dir, dir, t)));
        lemma_square_coords(rk + d * dir, fl + d * dir);
        assert(sq_rank(s) == rk + d * dir && sq_file(s) == fl + d * dir && on_board(s));
        assert((sq_rank(s) - rk) * dir == d) by (nonlinear_arith)
            requires
                dir == 1 || dir == -1,
                sq_rank(s) == rk + d * dir,
        ;
        assert forall|u: int|
            on_board(u) && sq_rank(u) - sq_file(u) == rk - fl && ((rk < sq_rank(u) < sq_rank(s))
                || (sq_rank(s) < sq_rank(u) < rk)) implies !(#[trigger] bit64(b, u)) by {
            lemma_square_split(u);
            let t = (sq_rank(u) - rk) * dir;
            assert(t * dir == sq_rank(u) - rk && 1 <= t < d) by (nonlinear_arith)
                requires
                    dir == 1 || dir == -1,
                    1 <= d,
                    t == (sq_rank(u) - rk) * dir,
                    (rk < sq_rank(u) < rk + d * dir) || (rk + d * dir < sq_rank(u) < rk),
            ;
            assert(ray_sq(sq, dir, dir, t) == square_at(sq_rank(u), sq_file(u)));
            assert(!bit64(b, ray_sq(sq, dir, dir, t)));
        }
        assert(diag_open(b, sq, s));
    }
    if on_board(s) && sq_rank(s) - sq_file(s) == rk - fl && (sq_rank(s) - rk) * dir > 0
        && diag_open(b, sq, s) {
        lemma_square_split(s);
        let d = (sq_rank(s) - rk) * dir;
        assert(d >= 1 && rk + d * dir == sq_rank(s) && fl + d * dir == sq_file(s))
            by (nonlinear_arith)
            requires
                dir == 1 || dir == -1,
                d == (sq_rank(s) - rk) * dir,
                d > 0,
                sq_rank(s) - sq_file(s) == rk - fl,
        ;
        assert(ray_in_bounds(sq, dir, dir, d));
        assert(s == ray_sq(sq, dir, dir, d));
        assert forall|t: int| 1 <= t < d implies !bit64(b, ray_sq(sq, dir, dir, t)) by {
            let vr = rk + t * dir;
            let vf = fl + t * dir;
            assert(((rk < vr < sq_rank(s)) || (sq_rank(s) < vr < rk)) && vf - vr == fl - rk)
                by (nonlinear_arith)
                requires
                    dir == 1 || dir == -1,
                    vr == rk + t * dir,
                    vf == fl + t * dir,
                    1 <= t < d,
                    rk + d * dir == sq_rank(s),
            ;
            assert(0 <= vr < 8 && 0 <= vf < 8);
            lemma_square_coords(vr, vf);
            let u = square_at(vr, vf);
            assert(ray_sq(sq, dir, dir, t) == u);
            assert(!bit64(b, u));
        }
        assert(ray_hit(sq, dir, dir, b, s));
    }
}

proof fn lemma_ray_anti(sq: int, b: u64, s: int, dir: int)
    requires
        on_board(sq),
        dir == 1 || dir == -1,
    ensures
        ray_hit(sq, dir, -dir, b, s) == (on_board(s) && sq_rank(s) + sq_file(s) == sq_rank(sq)
            + sq_file(sq) && (sq_rank(s) - sq_rank(sq)) * dir > 0 && anti_open(b, sq, s)),
{
    let rk = sq_rank(sq);
    let fl = sq_file(sq);
    lemma_square_split(sq);
    let nd = -dir;
    if ray_hit(sq, dir, nd, b, s) {
        let d = choose|d: int|
            1 <= d && #[trigger] ray_in_bounds(sq, dir, nd, d) && s == ray_sq(sq, dir, nd, d)
                && (forall|t: int| 1 <= t < d ==> !bit64(b, ray_sq(sq, dir, nd, t)));
        assert(d * (-dir) == -(d * dir)) by (nonlinear_arith);
        lemma_square_coords(rk + d * dir, fl - d * dir);
        assert(sq_rank(s) == rk + d * dir && sq_file(s) == fl - d * dir && on_board(s));
        assert((sq_rank(s) - rk) * dir == d) by (nonlinear_arith)
            requires
                dir == 1 || dir == -1,
                sq_rank(s) == rk + d * dir,
        ;
        assert forall|u: int|
            on_board(u) && sq_rank(u) + sq_file(u) == rk + fl && ((rk < sq_rank(u) < sq_rank(s))
                || (sq_rank(s) < sq_rank(u) < rk)) implies !(#[trigger] bit64(b, u)) by {
            lemma_square_split(u);
            let t = (sq_rank(u) - rk) * dir;
            assert(t * dir == sq_rank(u) - rk && t * (-dir) == rk - sq_rank(u) && 1 <= t < d)
                by (nonlinear_arith)
                requires
                    dir == 1 || dir == -1,
                    1 <= d,
                    t == (sq_rank(u) - rk) * dir,
                    (rk < sq_rank(u) < rk + d * dir) || (rk + d * dir < sq_rank(u) < rk),
            ;
            assert(ray_sq(sq, dir, nd, t) == square_at(sq_rank(u), sq_file(u)));
            assert(!bit64(b, ray_sq(sq, dir, nd, t)));
        }
        assert(anti_open(b, sq, s));
    }
    if on_board(s) && sq_rank(s) + sq_file(s) == rk + fl && (sq_rank(s) - rk) * dir > 0
        && anti_open(b, sq, s) {
        lemma_square_split(s);
        let d = (sq_rank(s) - rk) * dir;
        assert(d >= 1 && rk + d * dir == sq_rank(s) && fl + d * (-dir) == sq_file(s))
            by (nonlinear_arith)
            requires
                dir == 1 || dir == -1,
                d == (sq_rank(s) - rk) * dir,
                d > 0,
                sq_rank(s) + sq_file(s) == rk + fl,
        ;
        assert(ray_in_bounds(sq, dir, nd, d));
        assert(s == ray_sq(sq, dir, nd, d));
        assert forall|t: int| 1 <= t < d implies !bit64(b, ray_sq(sq, dir, nd, t)) by {
            let vr = rk + t * dir;
            let vf = fl + t * (-dir);
            assert(((rk < vr < sq_rank(s)) || (sq_rank(s) < vr < rk)) && vf + vr == fl + rk)
                by (nonlinear_arith)
                requires
                    dir == 1 || dir == -1,
                    vr == rk + t * dir,
                    vf == fl + t * (-dir),
                    1 <= t < d,
                    rk + d * dir == sq_rank(s),
            ;
            assert(0 <= vr < 8 && 0 <= vf < 8);
            lemma_square_coords(vr, vf);
            let u = square_at(vr, vf);
            assert(ray_sq(sq, dir, nd, t) == u);
            assert(!bit64(b, u));
        }
        assert(ray_hit(sq, dir, nd, b, s));
    }
}

proof fn lemma_bishop_rays(sq: int, b: u64)
    requires
        on_board(sq),
    ensures
        forall|s: int|
            (ray_hit(sq, 1, 1, b, s) || ray_hit(sq, -1, -1, b, s) || ray_hit(sq, 1, -1, b, s)
                || ray_hit(sq, -1, 1, b, s)) == #[trigger] bishop_attack_bit(sq, b, s),
{
    assert forall|s: int|
        (ray_hit(sq, 1, 1, b, s) || ray_hit(sq, -1, -1, b, s) || ray_hit(sq, 1, -1, b, s)
            || ray_hit(sq, -1, 1, b, s)) == #[trigger] bishop_attack_bit(sq, b, s) by {
        lemma_ray_diag(sq, b, s, 1);
        lemma_ray_diag(sq, b, s, -1);
        lemma_ray_anti(sq, b, s, 1);
        lemma_ray_anti(sq, b, s, -1);
        lemma_square_split(sq);
        if on_board(s) {
            lemma_square_split(s);
            if s != sq && sq_rank(s) == sq_rank(sq) {
                // on a shared diagonal the ranks differ unless the squares coincide
                if sq_rank(s) - sq_file(s) == sq_rank(sq) - sq_file(sq) || sq_rank(s) + sq_file(s)
                    == sq_rank(sq) + sq_file(sq) {
                    assert(sq_file(s) == sq_file(sq));
                    assert(s == square_at(sq_rank(s), sq_file(s)));
                    assert(false);
                }
            }
        }
    }
}

pub fn bishop_attacks_from(square: u8, blockers: u64) -> (r: u64)
    requires
        square < 64,
    ensures
        forall|s: int| #[trigger] bit64(r, s) == bishop_attack_bit(square as int, blockers, s),
{
    let ne = walk_ray(square, 1, 1, blockers);
    let sw = walk_ray(square, -1, -1, blockers);
    let nw = walk_ray(square, 1, -1, blockers);
    let se = walk_ray(square, -1, 1, blockers);
    let diag = ne | sw;
    let anti = nw | se;
    let r = diag | anti;
    proof {
        lemma_or_union(ne, sw);
        lemma_or_union(nw, se);
        lemma_or_union(diag, anti);
        lemma_bishop_rays(square as int, blockers);
    }
    r
}

} // verus!
