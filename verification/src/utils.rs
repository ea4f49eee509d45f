//! Blocker-configuration enumeration, square notation, and the binary record
//! formats for magic constants and occupancy masks.

use vstd::prelude::*;
use vstd::arithmetic::power2::{lemma_pow2_unfold, lemma2_to64, pow2};

use crate::bits::{bit64, lemma_and_bits, lemma_nat_eq_bits, lemma_or_bit, lemma_u64_eq_bits,
    lemma_usize_nth_bit, lemma_zero_bits, nth_bit};

verus! {

/// The bit positions of `mask` below `n`, in ascending order.
pub open spec fn mask_positions(mask: u64, n: int) -> Seq<u64>
    decreases n,
{
    if n <= 0 {
        Seq::empty()
    } else if bit64(mask, n - 1) {
        mask_positions(mask, n - 1).push((n - 1) as u64)
    } else {
        mask_positions(mask, n - 1)
    }
}

/// Number of set bits of `mask`: the count of relevant squares.
pub open spec fn relevant_bits(mask: u64) -> nat {
    mask_positions(mask, 64).len()
}

/// The blocker configuration numbered `i` over the given bit positions: bit
/// `j` of `i` decides whether position `j` is occupied.
pub open spec fn config_at(pos: Seq<u64>, i: nat) -> u64
    decreases pos.len(),
{
    if pos.len() == 0 {
        0u64
    } else {
        let rest = config_at(pos.drop_last(), i);
        if nth_bit(i, (pos.len() - 1) as nat) {
            rest | (1u64 << pos.last())
        } else {
            rest
        }
    }
}

/// The configuration number that `config_at` maps back to `b`.
pub open spec fn index_of(pos: Seq<u64>, b: u64) -> nat
    decreases pos.len(),
{
    if pos.len() == 0 {
        0nat
    } else {
        index_of(pos.drop_last(), b) + (if bit64(b, pos.last() as int) {
            pow2((pos.len() - 1) as nat)
        } else {
            0nat
        })
    }
}

pub proof fn lemma_mask_positions_props(mask: u64, n: int)
    requires
        0 <= n <= 64,
    ensures
        mask_positions(mask, n).len() <= n,
        forall|j: int|
            0 <= j < mask_positions(mask, n).len() ==> j <= #[trigger] mask_positions(mask, n)[j]
                < n && bit64(mask, mask_positions(mask, n)[j] as int),
        forall|j1: int, j2: int|
            0 <= j1 < j2 < mask_positions(mask, n).len() ==> mask_positions(mask, n)[j1]
                < mask_positions(mask, n)[j2],
        forall|p: int| 0 <= p < n && bit64(mask, p) ==> mask_positions(mask, n).contains(p as u64),
    decreases n,
{
    if n > 0 {
        lemma_mask_positions_props(mask, n - 1);
        let prev = mask_positions(mask, n - 1);
        let cur = mask_positions(mask, n);
        assert forall|p: int| 0 <= p < n && bit64(mask, p) implies cur.contains(p as u64) by {
            if p < n - 1 {
                assert(prev.contains(p as u64));
                let j = choose|j: int| 0 <= j < prev.len() && prev[j] == p as u64;
                assert(cur[j] == p as u64);
            } else {
                assert(bit64(mask, n - 1));
                assert(cur.last() == (n - 1) as u64);
            }
        }
    }
}

proof fn lemma_config_at_bits(pos: Seq<u64>, i: nat)
    requires
        forall|j: int| 0 <= j < pos.len() ==> #[trigger] pos[j] < 64,
    ensures
        forall|s: int|
            #[trigger] bit64(config_at(pos, i), s) == exists|j: int|
                0 <= j < pos.len() && pos[j] as int == s && nth_bit(i, j as nat),
    decreases pos.len(),
{
    if pos.len() == 0 {
        lemma_zero_bits();
        assert forall|s: int| !(#[trigger] bit64(config_at(pos, i), s)) by {
            assert(!bit64(0u64, s));
        }
    } else {
        let head = pos.drop_last();
        let n = pos.len() - 1;
        lemma_config_at_bits(head, i);
        let rest = config_at(head, i);
        let c = config_at(pos, i);
        if nth_bit(i, n as nat) {
            lemma_or_bit(rest, pos.last());
        }
        assert forall|s: int|
            #[trigger] bit64(c, s) == exists|j: int|
                0 <= j < pos.len() && pos[j] as int == s && nth_bit(i, j as nat) by {
            if bit64(c, s) {
                if bit64(rest, s) {
                    let j = choose|j: int|
                        0 <= j < head.len() && #[trigger] head[j] as int == s && nth_bit(
                            i,
                            j as nat,
                        );
                    assert(pos[j] as int == s && nth_bit(i, j as nat));
                } else {
                    assert(nth_bit(i, n as nat) && s == pos.last() as int);
                    assert(pos[n] as int == s && nth_bit(i, n as nat));
                }
            }
            if exists|j: int| 0 <= j < pos.len() && pos[j] as int == s && nth_bit(i, j as nat) {
                let j = choose|j: int|
                    0 <= j < pos.len() && #[trigger] pos[j] as int == s && nth_bit(i, j as nat);
                if j < n {
                    assert(head[j] as int == s && nth_bit(i, j as nat));
                    assert(bit64(rest, s));
                } else {
                    assert(nth_bit(i, n as nat) && s == pos.last() as int);
                }
                assert(bit64(c, s));
            }
        }
    }
}

/// Adding `c * 2^m` on top of `x < 2^m` leaves the low `m` bits of `x` alone
/// and writes `c` into bit `m`.
proof fn lemma_nth_bit_add_pow2(x: nat, m: nat, j: nat, c: nat)
    requires
        c <= 1,
        x < pow2(m),
        j <= m,
    ensures
        j < m ==> nth_bit(x + c * pow2(m), j) == nth_bit(x, j),
        j == m ==> nth_bit(x + c * pow2(m), j) == (c == 1),
    decreases j,
{
    if m == 0 {
        lemma2_to64();
        assert(pow2(0) == 1);
        assert(x == 0);
        assert(nth_bit(c, 0) == (c % 2 == 1));
    } else {
        let v = x + c * pow2(m);
        lemma_pow2_unfold(m);
        assert(pow2(m) == 2 * pow2((m - 1) as nat));
        assert(v == x + c * (2 * pow2((m - 1) as nat)));
        let h = pow2((m - 1) as nat);
        assert(c * (2 * h) == 2 * (c * h)) by (nonlinear_arith);
        if j == 0 {
            assert((x + 2 * (c * h)) % 2 == x % 2) by (nonlinear_arith);
            assert(nth_bit(v, 0) == (x % 2 == 1));
            assert(nth_bit(x, 0) == (x % 2 == 1));
        } else {
            assert(v / 2 == x / 2 + c * h) by (nonlinear_arith)
                requires
                    v == x + 2 * (c * h),
            ;
            assert(x / 2 < h) by (nonlinear_arith)
                requires
                    x < 2 * h,
            ;
            lemma_nth_bit_add_pow2(x / 2, (m - 1) as nat, (j - 1) as nat, c);
            assert(nth_bit(v, j) == nth_bit(v / 2, (j - 1) as nat));
            assert(nth_bit(x, j) == nth_bit(x / 2, (j - 1) as nat));
        }
    }
}

proof fn lemma_index_of_props(pos: Seq<u64>, b: u64)
    ensures
        index_of(pos, b) < pow2(pos.len() as nat),
        forall|j: int|
            0 <= j < pos.len() ==> #[trigger] nth_bit(index_of(pos, b), j as nat) == bit64(
                b,
                pos[j] as int,
            ),
    decreases pos.len(),
{
    if pos.len() == 0 {
        lemma2_to64();
        assert(pow2(0) == 1);
    } else {
        let head = pos.drop_last();
        let n = pos.len() - 1;
        lemma_index_of_props(head, b);
        let prev = index_of(head, b);
        let c: nat = if bit64(b, pos.last() as int) {
            1nat
        } else {
            0nat
        };
        assert(index_of(pos, b) == prev + c * pow2(n as nat)) by {
            if c == 1 {
                assert(1 * pow2(n as nat) == pow2(n as nat)) by (nonlinear_arith);
            } else {
                assert(0 * pow2(n as nat) == 0) by (nonlinear_arith);
            }
        }
        lemma_pow2_unfold(pos.len() as nat);
        assert(index_of(pos, b) < pow2(pos.len() as nat)) by (nonlinear_arith)
            requires
                index_of(pos, b) == prev + c * pow2(n as nat),
                prev < pow2(n as nat),
                c <= 1,
                pow2(pos.len() as nat) == 2 * pow2(n as nat),
        ;
        assert forall|j: int|
            0 <= j < pos.len() implies #[trigger] nth_bit(index_of(pos, b), j as nat) == bit64(
            b,
            pos[j] as int,
        ) by {
            lemma_nth_bit_add_pow2(prev, n as nat, j as nat, c);
            if j < n {
                assert(nth_bit(prev, j as nat) == bit64(b, head[j] as int));
                assert(head[j] == pos[j]);
            } else {
                assert(nth_bit(index_of(pos, b), n as nat) == (c == 1));
            }
        }
    }
}

/// Distinct configuration numbers give distinct configurations.
proof fn lemma_config_at_injective(pos: Seq<u64>, i1: nat, i2: nat)
    requires
        forall|j: int| 0 <= j < pos.len() ==> #[trigger] pos[j] < 64,
        forall|j1: int, j2: int| 0 <= j1 < j2 < pos.len() ==> pos[j1] != pos[j2],
        i1 < pow2(pos.len() as nat),
        i2 < pow2(pos.len() as nat),
        config_at(pos, i1) == config_at(pos, i2),
    ensures
        i1 == i2,
{
    lemma_config_at_bits(pos, i1);
    lemma_config_at_bits(pos, i2);
    assert forall|j: nat| j < pos.len() as nat implies (nth_bit(i1, j) == nth_bit(i2, j)) by {
        let s = pos[j as int] as int;
        assert(bit64(config_at(pos, i1), s) == bit64(config_at(pos, i2), s));
        if nth_bit(i1, j) {
            assert(bit64(config_at(pos, i1), s));
            let j2 = choose|j2: int|
                0 <= j2 < pos.len() && #[trigger] pos[j2] as int == s && nth_bit(i2, j2 as nat);
            assert(j2 == j as int);
        }
        if nth_bit(i2, j) {
            assert(bit64(config_at(pos, i2), s));
            let j1 = choose|j1: int|
                0 <= j1 < pos.len() && #[trigger] pos[j1] as int == s && nth_bit(i1, j1 as nat);
            assert(j1 == j as int);
        }
    }
    lemma_nat_eq_bits(i1, i2, pos.len() as nat);
}

/// Every bitboard drawn from the positions is hit by some configuration number.
proof fn lemma_config_at_complete(pos: Seq<u64>, b: u64)
    requires
        forall|j: int| 0 <= j < pos.len() ==> #[trigger] pos[j] < 64,
        forall|s: int| bit64(b, s) ==> pos.contains(s as u64),
    ensures
        index_of(pos, b) < pow2(pos.len() as nat),
        config_at(pos, index_of(pos, b)) == b,
{
    lemma_config_at_bits(pos, index_of(pos, b));
    lemma_index_of_props(pos, b);
    let i = index_of(pos, b);
    let c = config_at(pos, i);
    assert forall|s: int| 0 <= s < 64 implies (bit64(c, s) == bit64(b, s)) by {
        if bit64(b, s) {
            assert(pos.contains(s as u64));
            let j = choose|j: int| 0 <= j < pos.len() && pos[j] == s as u64;
            assert(nth_bit(i, j as nat) == bit64(b, pos[j] as int));
            assert(pos[j] as int == s && nth_bit(i, j as nat));
            assert(bit64(c, s));
        }
        if bit64(c, s) {
            let j = choose|j: int|
                0 <= j < pos.len() && #[trigger] pos[j] as int == s && nth_bit(i, j as nat);
            assert(nth_bit(i, j as nat) == bit64(b, pos[j] as int));
            assert(bit64(b, s));
        }
    }
    lemma_u64_eq_bits(c, b);
}

/// Collect the relevant bit positions of `mask`, lowest first.
pub fn mask_bit_positions(mask: u64) -> (r: Vec<u64>)
    ensures
        r@ == mask_positions(mask, 64),
        r@.len() == relevant_bits(mask),
{
    let mut positions: Vec<u64> = Vec::new();
    let mut n: u64 = 0;
    while n < 64
        invariant
            n <= 64,
            positions@ == mask_positions(mask, n as int),
        decreases 64 - n,
    {
        if (mask >> n) & 1u64 == 1u64 {
            positions.push(n);
        }
        proof {
            assert(bit64(mask, n as int) == ((mask >> n) & 1u64 == 1u64));
        }
        n = n + 1;
    }
    positions
}

/// All `2^k` blocker configurations over the `k` relevant bits of `mask`, with
/// no duplicates and no omissions: every sub-bitboard of `mask` appears once.
pub fn enumerate_blocker_configs(mask: u64) -> (r: Vec<u64>)
    requires
        relevant_bits(mask) < usize::BITS,
        pow2(relevant_bits(mask)) <= usize::MAX,
    ensures
        r@.len() == pow2(relevant_bits(mask)),
        forall|i: int|
            0 <= i < r@.len() ==> #[trigger] r@[i] == config_at(mask_positions(mask, 64), i as nat),
        forall|i: int| 0 <= i < r@.len() ==> (#[trigger] r@[i]) & mask == r@[i],
        forall|i1: int, i2: int| 0 <= i1 < i2 < r@.len() ==> r@[i1] != r@[i2],
        forall|b: u64| b & mask == b ==> exists|i: int| 0 <= i < r@.len() && r@[i] == b,
{
    let positions = mask_bit_positions(mask);
    let ghost pos = positions@;
    proof {
        lemma_mask_positions_props(mask, 64);
    }
    let k: usize = positions.len();
    let num_configs: usize = 1usize << k;
    proof {
        vstd::bits::lemma_usize_shl_is_mul(1usize, k);
        assert(num_configs == pow2(k as nat));
    }
    let mut configs: Vec<u64> = Vec::new();
    let mut i: usize = 0;
    while i < num_configs
        invariant
            i <= num_configs,
            num_configs == pow2(k as nat),
            k < usize::BITS,
            k == pos.len(),
            pos == positions@,
            pos == mask_positions(mask, 64),
            configs@.len() == i,
            forall|j2: int| 0 <= j2 < pos.len() ==> #[trigger] pos[j2] < 64,
            forall|i2: int| 0 <= i2 < i ==> #[trigger] configs@[i2] == config_at(pos, i2 as nat),
        decreases num_configs - i,
    {
        let mut blocker: u64 = 0;
        let mut j: usize = 0;
        proof {
            assert(pos.take(0) =~= Seq::<u64>::empty());
        }
        while j < k
            invariant
                j <= k,
                k < usize::BITS,
                k == pos.len(),
                pos == positions@,
                forall|j2: int| 0 <= j2 < pos.len() ==> #[trigger] pos[j2] < 64,
                blocker == config_at(pos.take(j as int), i as nat),
            decreases k - j,
        {
            proof {
                lemma_usize_nth_bit(i, j);
                assert(pos.take(j as int + 1).drop_last() =~= pos.take(j as int));
                assert(pos.take(j as int + 1).last() == pos[j as int]);
            }
            if (i >> j) & 1 == 1 {
                blocker = blocker | (1u64 << positions[j]);
            }
            j = j + 1;
        }
        proof {
            assert(pos.take(k as int) =~= pos);
        }
        configs.push(blocker);
        i = i + 1;
    }
    proof {
        assert forall|i1: int, i2: int| 0 <= i1 < i2 < configs@.len() implies configs@[i1]
            != configs@[i2] by {
            if configs@[i1] == configs@[i2] {
                lemma_config_at_injective(pos, i1 as nat, i2 as nat);
            }
        }
        assert forall|i1: int| 0 <= i1 < configs@.len() implies (#[trigger] configs@[i1]) & mask
            == configs@[i1] by {
            let c = configs@[i1];
            lemma_config_at_bits(pos, i1 as nat);
            lemma_and_bits(c, mask);
            assert forall|s: int| 0 <= s < 64 implies (bit64(c & mask, s) == bit64(c, s)) by {
                if bit64(c, s) {
                    let j = choose|j: int|
                        0 <= j < pos.len() && #[trigger] pos[j] as int == s && nth_bit(
                            i1 as nat,
                            j as nat,
                        );
                    assert(bit64(mask, pos[j] as int));
                }
            }
            lemma_u64_eq_bits(c & mask, c);
        }
        assert forall|b: u64| b & mask == b implies exists|i1: int|
            0 <= i1 < configs@.len() && configs@[i1] == b by {
            lemma_and_bits(b, mask);
            assert forall|s: int| bit64(b, s) implies pos.contains(s as u64) by {
                assert(bit64(b & mask, s) == (bit64(b, s) && bit64(mask, s)));
                assert(bit64(mask, s));
            }
            lemma_config_at_complete(pos, b);
            let i1 = index_of(pos, b);
            assert(configs@[i1 as int] == b);
        }
    }
    configs
}

/// Byte `j` (little-endian) of `x`.
pub open spec fn le_byte(x: u64, j: int) -> u8 {
    (((x >> ((8 * j) as u64)) & 0xffu64) as u8)
}

/// The `u64` read little-endian from the first eight bytes of `b`.
pub open spec fn u64_from_le(b: Seq<u8>) -> u64 {
    (b[0] as u64) | ((b[1] as u64) << 8u64) | ((b[2] as u64) << 16u64) | ((b[3] as u64) << 24u64)
        | ((b[4] as u64) << 32u64) | ((b[5] as u64) << 40u64) | ((b[6] as u64) << 48u64) | ((
    b[7] as u64) << 56u64)
}

/// The magics file image: one 9-byte record per entry, 8 bytes of magic
/// little-endian, then the shift byte.
pub open spec fn magics_bytes(entries: Seq<(u64, u8)>) -> Seq<u8> {
    Seq::new(
        entries.len() * 9,
        |p: int|
            if p % 9 < 8 {
                le_byte(entries[p / 9].0, p % 9)
            } else {
                entries[p / 9].1
            },
    )
}

/// The records read back from a magics file image; a trailing partial record
/// is dropped.
pub open spec fn magics_records(bytes: Seq<u8>) -> Seq<(u64, u8)> {
    Seq::new(
        bytes.len() / 9,
        |i: int| (u64_from_le(bytes.subrange(9 * i, 9 * i + 8)), bytes[9 * i + 8]),
    )
}

/// The occupancies file image: one 8-byte little-endian record per mask.
pub open spec fn occupancies_bytes(entries: Seq<u64>) -> Seq<u8> {
    Seq::new(entries.len() * 8, |p: int| le_byte(entries[p / 8], p % 8))
}

/// The masks read back from an occupancies file image; a trailing partial
/// record is dropped.
pub open spec fn occupancies_records(bytes: Seq<u8>) -> Seq<u64> {
    Seq::new(bytes.len() / 8, |i: int| u64_from_le(bytes.subrange(8 * i, 8 * i + 8)))
}

proof fn lemma_le_round_trip(x: u64)
    ensures
        u64_from_le(Seq::new(8, |j: int| le_byte(x, j))) == x,
{
    let b = Seq::new(8, |j: int| le_byte(x, j));
    assert((((((x >> 0u64) & 0xffu64) as u8) as u64) | (((((x >> 8u64) & 0xffu64) as u8) as u64)
        << 8u64) | (((((x >> 16u64) & 0xffu64) as u8) as u64) << 16u64) | (((((x >> 24u64)
        & 0xffu64) as u8) as u64) << 24u64) | (((((x >> 32u64) & 0xffu64) as u8) as u64) << 32u64)
        | (((((x >> 40u64) & 0xffu64) as u8) as u64) << 40u64) | (((((x >> 48u64) & 0xffu64) as u8)
        as u64) << 48u64) | (((((x >> 56u64) & 0xffu64) as u8) as u64) << 56u64)) == x)
        by (bit_vector);
    assert(b[0] == le_byte(x, 0) && b[1] == le_byte(x, 1) && b[2] == le_byte(x, 2) && b[3]
        == le_byte(x, 3) && b[4] == le_byte(x, 4) && b[5] == le_byte(x, 5) && b[6] == le_byte(x, 6)
        && b[7] == le_byte(x, 7));
}

/// Reloading a written magics image gives back exactly the entries written.
pub proof fn lemma_magics_round_trip(entries: Seq<(u64, u8)>)
    ensures
        magics_records(magics_bytes(entries)) == entries,
{
    let bytes = magics_bytes(entries);
    let n = entries.len() as int;
    assert(bytes.len() == n * 9);
    assert((n * 9) / 9 == n) by (nonlinear_arith);
    assert forall|i: int| 0 <= i < n implies magics_records(bytes)[i] == entries[i] by {
        lemma_record_bytes(entries, i);
        let sub = bytes.subrange(9 * i, 9 * i + 8);
        assert(sub =~= Seq::new(8, |j: int| le_byte(entries[i].0, j)));
        lemma_le_round_trip(entries[i].0);
        assert(bytes[9 * i + 8] == entries[i].1);
    }
    assert(magics_records(bytes) =~= entries);
}

proof fn lemma_record_bytes(entries: Seq<(u64, u8)>, i: int)
    requires
        0 <= i < entries.len(),
    ensures
        forall|j: int|
            0 <= j < 8 ==> #[trigger] magics_bytes(entries)[9 * i + j] == le_byte(
                entries[i].0,
                j,
            ),
        magics_bytes(entries)[9 * i + 8] == entries[i].1,
{
    let n = entries.len() as int;
    assert forall|j: int| 0 <= j < 8 implies #[trigger] magics_bytes(entries)[9 * i + j] == le_byte(
        entries[i].0,
        j,
    ) by {
        assert(0 <= 9 * i + j < n * 9 && (9 * i + j) / 9 == i && (9 * i + j) % 9 == j)
            by (nonlinear_arith)
            requires
                0 <= i < n,
                0 <= j < 9,
        ;
    }
    assert(0 <= 9 * i + 8 < n * 9 && (9 * i + 8) / 9 == i && (9 * i + 8) % 9 == 8)
        by (nonlinear_arith)
        requires
            0 <= i < n,
    ;
}

/// Reloading a written occupancies image gives back exactly the masks written.
pub proof fn lemma_occupancies_round_trip(entries: Seq<u64>)
    ensures
        occupancies_records(occupancies_bytes(entries)) == entries,
{
    let bytes = occupancies_bytes(entries);
    let n = entries.len() as int;
    assert(bytes.len() == n * 8);
    assert((n * 8) / 8 == n) by (nonlinear_arith);
    assert forall|i: int| 0 <= i < n implies occupancies_records(bytes)[i] == entries[i] by {
        assert forall|j: int| 0 <= j < 8 implies #[trigger] bytes[8 * i + j] == le_byte(
            entries[i],
            j,
        ) by {
            assert(0 <= 8 * i + j < n * 8 && (8 * i + j) / 8 == i && (8 * i + j) % 8 == j)
                by (nonlinear_arith)
                requires
                    0 <= i < n,
                    0 <= j < 8,
            ;
        }
        let sub = bytes.subrange(8 * i, 8 * i + 8);
        assert(sub =~= Seq::new(8, |j: int| le_byte(entries[i], j)));
        lemma_le_round_trip(entries[i]);
    }
    assert(occupancies_records(bytes) =~= entries);
}

/// Byte `j` of `x`, little-endian.
fn u64_le_byte(x: u64, j: u64) -> (r: u8)
    requires
        j < 8,
    ensures
        r == le_byte(x, j as int),
{
    proof {
        let jj = j;
        assert((x >> vstd::prelude::mul(8, jj)) & 0xffu64 < 256) by (bit_vector);
        assert(8 * (jj as int) == vstd::prelude::mul(8, jj)) by (bit_vector)
            requires
                jj < 8,
        ;
    }
    ((x >> (8 * j)) & 0xffu64) as u8
}

/// Serialise magic/shift records to the 9-byte-per-entry format.
pub fn encode_magics(entries: &Vec<(u64, u8)>) -> (r: Vec<u8>)
    ensures
        r@ == magics_bytes(entries@),
{
    let mut out: Vec<u8> = Vec::new();
    let mut i: usize = 0;
    proof {
        assert(out@ =~= magics_bytes(entries@.take(0)));
    }
    while i < entries.len()
        invariant
            i <= entries@.len(),
            out@ == magics_bytes(entries@.take(i as int)),
            out@.len() == 9 * i,
        decreases entries@.len() - i,
    {
        let (magic, shift) = entries[i];
        let mut j: u64 = 0;
        while j < 8
            invariant
                j <= 8,
                i < entries@.len(),
                magic == entries@[i as int].0,
                out@.len() == 9 * i + j,
                out@ == magics_bytes(entries@.take(i as int)) + Seq::new(
                    j as nat,
                    |jj: int| le_byte(magic, jj),
                ),
            decreases 8 - j,
        {
            out.push(u64_le_byte(magic, j));
            proof {
                assert(out@ =~= magics_bytes(entries@.take(i as int)) + Seq::new(
                    (j + 1) as nat,
                    |jj: int| le_byte(magic, jj),
                ));
            }
            j = j + 1;
        }
        out.push(shift);
        proof {
            lemma_record_bytes(entries@.take(i as int + 1), i as int);
            assert forall|p: int| 0 <= p < 9 * (i + 1) implies out@[p] == magics_bytes(
                entries@.take(i as int + 1),
            )[p] by {
                let part = entries@.take(i as int + 1);
                if p < 9 * i {
                    assert(0 <= p / 9 < i && p % 9 < 9) by (nonlinear_arith)
                        requires
                            0 <= p < 9 * i,
                    ;
                    assert(part[p / 9] == entries@.take(i as int)[p / 9]);
                } else {
                    let j = p - 9 * i;
                    assert(p == 9 * i + j && 0 <= j < 9);
                    if j < 8 {
                        assert(magics_bytes(part)[9 * i + j] == le_byte(part[i as int].0, j));
                        assert(out@[p] == le_byte(magic, j));
                    } else {
                        assert(magics_bytes(part)[9 * i + 8] == part[i as int].1);
                    }
                }
            }
            assert(out@ =~= magics_bytes(entries@.take(i as int + 1)));
        }
        i = i + 1;
    }
    proof {
        assert(entries@.take(entries@.len() as int) =~= entries@);
    }
    out
}

/// Read magic/shift records back from the 9-byte-per-entry format; a trailing
/// partial record is dropped.
pub fn parse_magics(bytes: &Vec<u8>) -> (r: Vec<(u64, u8)>)
    ensures
        r@ == magics_records(bytes@),
{
    let n: usize = bytes.len() / 9;
    proof {
        assert(9 * (bytes@.len() as int / 9) <= bytes@.len() as int) by (nonlinear_arith);
    }
    let mut out: Vec<(u64, u8)> = Vec::new();
    let mut i: usize = 0;
    while i < n
        invariant
            i <= n,
            n == bytes@.len() as int / 9,
            9 * (n as int) <= bytes@.len(),
            bytes@.len() <= usize::MAX,
            out@.len() == i,
            forall|i2: int| 0 <= i2 < i ==> #[trigger] out@[i2] == magics_records(bytes@)[i2],
        decreases n - i,
    {
        proof {
            assert(9 * (i as int) + 8 < 9 * (n as int)) by (nonlinear_arith)
                requires
                    i < n,
            ;
        }
        let o: usize = 9 * i;
        let m: u64 = (bytes[o] as u64) | ((bytes[o + 1] as u64) << 8) | ((bytes[o + 2] as u64)
            << 16) | ((bytes[o + 3] as u64) << 24) | ((bytes[o + 4] as u64) << 32) | ((bytes[o
            + 5] as u64) << 40) | ((bytes[o + 6] as u64) << 48) | ((bytes[o + 7] as u64) << 56);
        let shift: u8 = bytes[o + 8];
        proof {
            let sub = bytes@.subrange(9 * (i as int), 9 * (i as int) + 8);
            assert(sub[0] == bytes@[o as int] && sub[1] == bytes@[o as int + 1] && sub[2]
                == bytes@[o as int + 2] && sub[3] == bytes@[o as int + 3] && sub[4] == bytes@[
                o as int + 4] && sub[5] == bytes@[o as int + 5] && sub[6] == bytes@[o as int + 6]
                && sub[7] == bytes@[o as int + 7]);
            assert(m == u64_from_le(sub));
        }
        out.push((m, shift));
        i = i + 1;
    }
    proof {
        assert(out@ =~= magics_records(bytes@));
    }
    out
}

/// Serialise occupancy masks to the 8-byte-per-entry format.
pub fn encode_occupancies(entries: &Vec<u64>) -> (r: Vec<u8>)
    ensures
        r@ == occupancies_bytes(entries@),
{
    let mut out: Vec<u8> = Vec::new();
    let mut i: usize = 0;
    proof {
        assert(out@ =~= occupancies_bytes(entries@.take(0)));
    }
    while i < entries.len()
        invariant
            i <= entries@.len(),
            out@ == occupancies_bytes(entries@.take(i as int)),
            out@.len() == 8 * i,
        decreases entries@.len() - i,
    {
        let mask = entries[i];
        let mut j: u64 = 0;
        while j < 8
            invariant
                j <= 8,
                i < entries@.len(),
                mask == entries@[i as int],
                out@.len() == 8 * i + j,
                out@ == occupancies_bytes(entries@.take(i as int)) + Seq::new(
                    j as nat,
                    |jj: int| le_byte(mask, jj),
                ),
            decreases 8 - j,
        {
            out.push(u64_le_byte(mask, j));
            proof {
                assert(out@ =~= occupancies_bytes(entries@.take(i as int)) + Seq::new(
                    (j + 1) as nat,
                    |jj: int| le_byte(mask, jj),
                ));
            }
            j = j + 1;
        }
        proof {
            assert forall|p: int| 0 <= p < 8 * (i + 1) implies out@[p] == occupancies_bytes(
                entries@.take(i as int + 1),
            )[p] by {
                let part = entries@.take(i as int + 1);
                if p < 8 * i {
                    assert(0 <= p / 8 < i && p % 8 < 8) by (nonlinear_arith)
                        requires
                            0 <= p < 8 * i,
                    ;
                    assert(part[p / 8] == entries@.take(i as int)[p / 8]);
                } else {
                    let j = p - 8 * i;
                    assert(p == 8 * i + j && 0 <= j < 8);
                    assert((8 * (i as int) + j) / 8 == i as int && (8 * (i as int) + j) % 8 == j)
                        by (nonlinear_arith)
                        requires
                            0 <= j < 8,
                            0 <= i,
                    ;
                    assert(out@[p] == le_byte(mask, j));
                }
            }
            assert(out@ =~= occupancies_bytes(entries@.take(i as int + 1)));
        }
        i = i + 1;
    }
    proof {
        assert(entries@.take(entries@.len() as int) =~= entries@);
    }
    out
}

/// Read occupancy masks back from the 8-byte-per-entry format; a trailing
/// partial record is dropped.
pub fn parse_occupancies(bytes: &Vec<u8>) -> (r: Vec<u64>)
    ensures
        r@ == occupancies_records(bytes@),
{
    let n: usize = bytes.len() / 8;
    proof {
        assert(8 * (bytes@.len() as int / 8) <= bytes@.len() as int) by (nonlinear_arith);
    }
    let mut out: Vec<u64> = Vec::new();
    let mut i: usize = 0;
    while i < n
        invariant
            i <= n,
            n == bytes@.len() as int / 8,
            8 * (n as int) <= bytes@.len(),
            bytes@.len() <= usize::MAX,
            out@.len() == i,
            forall|i2: int| 0 <= i2 < i ==> #[trigger] out@[i2] == occupancies_records(bytes@)[i2],
        decreases n - i,
    {
        proof {
            assert(8 * (i as int) + 7 < 8 * (n as int)) by (nonlinear_arith)
                requires
                    i < n,
            ;
        }
        let o: usize = 8 * i;
        let m: u64 = (bytes[o] as u64) | ((bytes[o + 1] as u64) << 8) | ((bytes[o + 2] as u64)
            << 16) | ((bytes[o + 3] as u64) << 24) | ((bytes[o + 4] as u64) << 32) | ((bytes[o
            + 5] as u64) << 40) | ((bytes[o + 6] as u64) << 48) | ((bytes[o + 7] as u64) << 56);
        proof {
            let sub = bytes@.subrange(8 * (i as int), 8 * (i as int) + 8);
            assert(sub[0] == bytes@[o as int] && sub[1] == bytes@[o as int + 1] && sub[2]
                == bytes@[o as int + 2] && sub[3] == bytes@[o as int + 3] && sub[4] == bytes@[
                o as int + 4] && sub[5] == bytes@[o as int + 5] && sub[6] == bytes@[o as int + 6]
                && sub[7] == bytes@[o as int + 7]);
            assert(m == u64_from_le(sub));
        }
        out.push(m);
        i = i + 1;
    }
    proof {
        assert(out@ =~= occupancies_records(bytes@));
    }
    out
}

/// Square index named by coordinate notation such as `e4`.
pub open spec fn notation_square(s: Seq<char>) -> int {
    8 * (s[1] as int - '1' as int) + (s[0] as int - 'a' as int)
}

/// Turn coordinate notation (file letter, rank digit) into a square index.
pub fn notation_to_index(notation: &str) -> (r: u8)
    requires
        notation@.len() >= 2,
        'a' as int <= notation@[0] as int <= 'h' as int,
        '1' as int <= notation@[1] as int <= '8' as int,
    ensures
        r as int == notation_square(notation@),
        r < 64,
{
    let file_c = notation.get_char(0);
    let rank_c = notation.get_char(1);
    let file: u32 = (file_c as u32) - ('a' as u32);
    let rank: u32 = (rank_c as u32) - ('1' as u32);
    (rank * 8 + file) as u8
}

/// The bitboard with exactly the named squares set.
pub fn blockers_from_squares(squares: &[&str]) -> (r: u64)
    requires
        forall|i: int|
            0 <= i < squares@.len() ==> (#[trigger] squares@[i])@.len() >= 2 && 'a' as int
                <= squares@[i]@[0] as int <= 'h' as int && '1' as int <= squares@[i]@[1] as int
                <= '8' as int,
    ensures
        forall|s: int|
            #[trigger] bit64(r, s) == exists|i: int|
                0 <= i < squares@.len() && s == notation_square(#[trigger] squares@[i]@),
{
    let mut acc: u64 = 0;
    let mut i: usize = 0;
    proof {
        lemma_zero_bits();
    }
    while i < squares.len()
        invariant
            i <= squares@.len(),
            forall|i2: int|
                0 <= i2 < squares@.len() ==> (#[trigger] squares@[i2])@.len() >= 2 && 'a' as int
                    <= squares@[i2]@[0] as int <= 'h' as int && '1' as int
                    <= squares@[i2]@[1] as int <= '8' as int,
            forall|s: int|
                #[trigger] bit64(acc, s) == exists|i2: int|
                    0 <= i2 < i && s == notation_square(#[trigger] squares@[i2]@),
        decreases squares@.len() - i,
    {
        let idx = notation_to_index(squares[i]);
        let ghost prev = acc;
        acc = acc | (1u64 << (idx as u64));
        proof {
            lemma_or_bit(prev, idx as u64);
            assert forall|s: int|
                #[trigger] bit64(acc, s) == exists|i2: int|
                    0 <= i2 < i + 1 && s == notation_square(#[trigger] squares@[i2]@) by {
                if bit64(acc, s) {
                    if bit64(prev, s) {
                        let i2 = choose|i2: int|
                            0 <= i2 < i && s == notation_square(#[trigger] squares@[i2]@);
                        assert(0 <= i2 < i + 1 && s == notation_square(squares@[i2]@));
                    } else {
                        assert(s == idx as int);
                        assert(s == notation_square(squares@[i as int]@));
                    }
                }
                if exists|i2: int|
                    0 <= i2 < i + 1 && s == notation_square(#[trigger] squares@[i2]@) {
                    let i2 = choose|i2: int|
                        0 <= i2 < i + 1 && s == notation_square(#[trigger] squares@[i2]@);
                    if i2 < i {
                        assert(bit64(prev, s));
                    } else {
                        assert(s == idx as int);
                    }
                    assert(bit64(acc, s));
                }
            }
        }
        i = i + 1;
    }
    acc
}


} // verus!
