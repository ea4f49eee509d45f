//! Bitboard primitives: squares as indices 0..64 (rank-major), bitboards as
//! `u64` values with one bit per square, and the lemmas that connect the
//! bitwise operations used throughout the crate to the bit-level view.

use vstd::prelude::*;

verus! {

/// True when bit `s` of bitboard `bb` is set; positions off the board carry no bit.
pub open spec fn bit64(bb: u64, s: int) -> bool {
    0 <= s < 64 && (bb >> (s as u64)) & 1u64 == 1u64
}

/// Rank (row, 0-based) of a square index.
pub open spec fn sq_rank(s: int) -> int {
    s / 8
}

/// File (column, 0-based) of a square index.
pub open spec fn sq_file(s: int) -> int {
    s % 8
}

pub open spec fn on_board(s: int) -> bool {
    0 <= s < 64
}

/// Square index of the coordinate pair (rank `r`, file `f`).
pub open spec fn square_at(r: int, f: int) -> int {
    8 * r + f
}

/// Coordinates in range determine a board square, and the square determines them back.
pub proof fn lemma_square_coords(r: int, f: int)
    requires
        0 <= r < 8,
        0 <= f < 8,
    ensures
        on_board(square_at(r, f)),
        sq_rank(square_at(r, f)) == r,
        sq_file(square_at(r, f)) == f,
{
}

/// Every board square splits into its rank and file.
pub proof fn lemma_square_split(s: int)
    requires
        on_board(s),
    ensures
        0 <= sq_rank(s) < 8,
        0 <= sq_file(s) < 8,
        square_at(sq_rank(s), sq_file(s)) == s,
{
}

/// Setting one bit by `|` changes exactly that bit.
pub proof fn lemma_or_bit(bb: u64, i: u64)
    requires
        i < 64,
    ensures
        forall|s: int| #[trigger] bit64(bb | (1u64 << i), s) == (bit64(bb, s) || s == i as int),
{
    assert forall|s: int| #[trigger] bit64(bb | (1u64 << i), s) == (bit64(bb, s) || s == i as int) by {
        if 0 <= s < 64 {
            let su = s as u64;
            assert((((bb | (1u64 << i)) >> su) & 1u64 == 1u64) == (((bb >> su) & 1u64 == 1u64)
                || su == i)) by (bit_vector)
                requires
                    su < 64u64,
                    i < 64u64,
            ;
        }
    }
}

/// `|` unions the bit sets.
pub proof fn lemma_or_union(x: u64, y: u64)
    ensures
        forall|s: int| #[trigger] bit64(x | y, s) == (bit64(x, s) || bit64(y, s)),
{
    assert forall|s: int| #[trigger] bit64(x | y, s) == (bit64(x, s) || bit64(y, s)) by {
        if 0 <= s < 64 {
            let su = s as u64;
            assert((((x | y) >> su) & 1u64 == 1u64) == (((x >> su) & 1u64 == 1u64) || ((y >> su)
                & 1u64 == 1u64))) by (bit_vector)
                requires
                    su < 64u64,
            ;
        }
    }
}

/// `&` intersects the bit sets.
pub proof fn lemma_and_bits(x: u64, y: u64)
    ensures
        forall|s: int| #[trigger] bit64(x & y, s) == (bit64(x, s) && bit64(y, s)),
{
    assert forall|s: int| #[trigger] bit64(x & y, s) == (bit64(x, s) && bit64(y, s)) by {
        if 0 <= s < 64 {
            let su = s as u64;
            assert((((x & y) >> su) & 1u64 == 1u64) == (((x >> su) & 1u64 == 1u64) && ((y >> su)
                & 1u64 == 1u64))) by (bit_vector)
                requires
                    su < 64u64,
            ;
        }
    }
}

/// The empty bitboard has no bits.
pub proof fn lemma_zero_bits()
    ensures
        forall|s: int| !(#[trigger] bit64(0u64, s)),
{
    assert forall|s: int| !(#[trigger] bit64(0u64, s)) by {
        if 0 <= s < 64 {
            let su = s as u64;
            assert(!((0u64 >> su) & 1u64 == 1u64)) by (bit_vector);
        }
    }
}

proof fn lemma_bits_eq_from(x: u64, y: u64, n: u64)
    requires
        n <= 63,
        forall|s: int| n <= s < 64 ==> (bit64(x, s) == bit64(y, s)),
    ensures
        (x >> n) == (y >> n),
    decreases 64 - n,
{
    if n == 63 {
        assert(bit64(x, 63) == bit64(y, 63));
        assert(((x >> 63u64) & 1u64 == 1u64) == ((y >> 63u64) & 1u64 == 1u64) ==> x >> 63u64 == y
            >> 63u64) by (bit_vector);
    } else {
        lemma_bits_eq_from(x, y, (n + 1) as u64);
        assert(bit64(x, n as int) == bit64(y, n as int));
        let m = n;
        assert((x >> vstd::prelude::add(m, 1) == y >> vstd::prelude::add(m, 1) && (((x >> m) & 1u64
            == 1u64) == ((y >> m) & 1u64 == 1u64)) && m < 63) ==> x >> m == y >> m) by (bit_vector);
    }
}

/// Two bitboards with the same bits are the same value.
pub proof fn lemma_u64_eq_bits(x: u64, y: u64)
    requires
        forall|s: int| 0 <= s < 64 ==> (bit64(x, s) == bit64(y, s)),
    ensures
        x == y,
{
    lemma_bits_eq_from(x, y, 0);
    assert(x >> 0u64 == x && y >> 0u64 == y) by (bit_vector);
}

/// A right shift by `64 - k` leaves at most `k` significant bits.
pub proof fn lemma_shr_bound(x: u64, k: u64)
    requires
        1 <= k <= 63,
    ensures
        (x >> ((64 - k) as u64)) < (1u64 << k),
{
    assert(1 <= k <= 63 ==> (x >> (vstd::prelude::sub(64, k) as u64)) < (1u64 << k)) by (bit_vector);
}

/// Masking with the low `k`-bit mask is the identity on values below `2^k`.
pub proof fn lemma_low_mask_noop(x: u64, k: u64)
    requires
        1 <= k <= 63,
        x < (1u64 << k),
    ensures
        x & (vstd::prelude::sub(1u64 << k, 1)) == x,
{
    assert((1 <= k <= 63 && x < (1u64 << k)) ==> x & vstd::prelude::sub(1u64 << k, 1) == x) by (bit_vector);
}

/// Bit `j` of the natural number `i` (little-endian).
pub open spec fn nth_bit(i: nat, j: nat) -> bool
    decreases j,
{
    if j == 0 {
        i % 2 == 1
    } else {
        nth_bit(i / 2, (j - 1) as nat)
    }
}

/// The shift-and-mask test used by executable code agrees with `nth_bit`.
pub proof fn lemma_usize_nth_bit(i: usize, j: usize)
    requires
        j < usize::BITS,
    ensures
        ((i >> j) & 1 == 1) == nth_bit(i as nat, j as nat),
    decreases j,
{
    if j == 0 {
        assert(((i >> 0usize) & 1 == 1) == (i % 2 == 1)) by (bit_vector);
    } else {
        let h: usize = i / 2;
        assert(h == i >> 1usize && ((i >> j) & 1 == 1) == ((h >> vstd::prelude::sub(j, 1)) & 1 == 1))
            by (bit_vector)
            requires
                h == i / 2,
                0 < j < usize::BITS,
        ;
        lemma_usize_nth_bit(h, (j - 1) as usize);
    }
}

/// Naturals below `2^k` that agree on their first `k` bits are equal.
pub proof fn lemma_nat_eq_bits(a: nat, b: nat, k: nat)
    requires
        a < vstd::arithmetic::power2::pow2(k),
        b < vstd::arithmetic::power2::pow2(k),
        forall|j: nat| j < k ==> (nth_bit(a, j) == nth_bit(b, j)),
    ensures
        a == b,
    decreases k,
{
    if k == 0 {
        vstd::arithmetic::power2::lemma2_to64();
    } else {
        vstd::arithmetic::power2::lemma_pow2_unfold(k);
        assert(nth_bit(a, 0) == nth_bit(b, 0));
        assert(forall|j: nat|
            j < (k - 1) as nat ==> (nth_bit(a / 2, j) == #[trigger] nth_bit(b / 2, j))) by {
            assert forall|j: nat|
                j < (k - 1) as nat implies (nth_bit(a / 2, j) == #[trigger] nth_bit(
                b / 2,
                j,
            )) by {
                assert(nth_bit(a, j + 1) == nth_bit(b, j + 1));
            }
        }
        lemma_nat_eq_bits(a / 2, b / 2, (k - 1) as nat);
    }
}

} // verus!
