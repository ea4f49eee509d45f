//! Randomized search for magic constants: multiplicative hashes that map
//! every blocker configuration of an occupancy mask to a distinct table slot.

use vstd::prelude::*;
use vstd::arithmetic::power2::pow2;

use crate::bits::{bit64, lemma_low_mask_noop, lemma_or_bit, lemma_shr_bound, lemma_zero_bits};
use crate::utils::{enumerate_blocker_configs, mask_bit_positions, mask_positions, relevant_bits};

verus! {

/// Failure of the magic search.
#[derive(Clone, Copy, Debug, PartialEq, Eq, Structural)]
pub enum MagicError {
    /// No collision-free constant was found within the retry budget.
    SearchExhausted,
}

/// The right shift paired with `mask`: table indices keep one bit per
/// relevant square.
pub open spec fn shift_for(mask: u64) -> u64 {
    (64 - relevant_bits(mask)) as u64
}

/// The table slot that `magic` assigns to the blocker configuration `b`.
pub open spec fn magic_index(b: u64, magic: u64, shift: u64) -> u64 {
    vstd::wrapping::u64_specs::wrapping_mul(b, magic) >> shift
}

/// `magic` is a perfect hash for `mask`: distinct blocker configurations
/// under `mask` never share a table slot.
pub open spec fn magic_ok(mask: u64, magic: u64) -> bool {
    forall|b1: u64, b2: u64|
        b1 & mask == b1 && b2 & mask == b2 && b1 != b2 ==> #[trigger] magic_index(
            b1,
            magic,
            shift_for(mask),
        ) != #[trigger] magic_index(b2, magic, shift_for(mask))
}

proof fn lemma_positions_of_zero(n: int)
    requires
        0 <= n <= 64,
    ensures
        mask_positions(0u64, n).len() == 0,
    decreases n,
{
    lemma_zero_bits();
    if n > 0 {
        lemma_positions_of_zero(n - 1);
    }
}

proof fn lemma_relevant_bits_or(x: u64, p: u64, n: int)
    requires
        p < 64,
        !bit64(x, p as int),
        0 <= n <= 64,
    ensures
        mask_positions(x | (1u64 << p), n).len() == mask_positions(x, n).len() + if (p as int) < n {
            1int
        } else {
            0int
        },
    decreases n,
{
    lemma_or_bit(x, p);
    if n > 0 {
        lemma_relevant_bits_or(x, p, n - 1);
    }
}

/// Draw a random 64-bit constant with between `min_bits` and `max_bits` set
/// bits: sparse multipliers collide less often for these mask sizes.
pub fn generate_sparse_u64(min_bits: u64, max_bits: u64) -> (r: u64)
    requires
        1 <= min_bits <= max_bits <= 64,
    ensures
        min_bits <= relevant_bits(r) <= max_bits,
{
    let num_bits = random_u64_in(min_bits, max_bits);
    let mut avail: Vec<u64> = Vec::new();
    let mut n: u64 = 0;
    while n < 64
        invariant
            n <= 64,
            avail@.len() == n,
            forall|q: int| 0 <= q < n ==> #[trigger] avail@[q] == q,
        decreases 64 - n,
    {
        avail.push(n);
        n = n + 1;
    }
    let mut candidate: u64 = 0;
    let mut set_bits: u64 = 0;
    proof {
        lemma_zero_bits();
        lemma_positions_of_zero(64);
    }
    while set_bits < num_bits
        invariant
            num_bits <= 64,
            set_bits <= num_bits,
            avail@.len() == 64 - set_bits,
            forall|q: int| 0 <= q < avail@.len() ==> #[trigger] avail@[q] < 64,
            forall|q1: int, q2: int|
                0 <= q1 < q2 < avail@.len() ==> avail@[q1] != avail@[q2],
            forall|q: int|
                0 <= q < avail@.len() ==> !bit64(candidate, #[trigger] avail@[q] as int),
            relevant_bits(candidate) == set_bits,
        decreases num_bits - set_bits,
    {
        let pick = random_u64_in(0, (avail.len() - 1) as u64);
        let idx: usize = pick as usize;
        let p: u64 = avail[idx];
        avail.swap_remove(idx);
        let ghost prev = candidate;
        candidate = candidate | (1u64 << p);
        set_bits = set_bits + 1;
        proof {
            lemma_or_bit(prev, p);
            lemma_relevant_bits_or(prev, p, 64);
        }
    }
    candidate
}

/// Check `magic` against the enumerated blocker configurations of `mask`:
/// true exactly when no two configurations collide on a table slot.
fn collision_free(mask: u64, magic: u64, k: usize, configs: &Vec<u64>) -> (r: bool)
    requires
        k == relevant_bits(mask),
        1 <= k <= 63,
        k < usize::BITS,
        pow2(k as nat) <= usize::MAX,
        configs@.len() == pow2(k as nat),
        forall|i1: int| 0 <= i1 < configs@.len() ==> (#[trigger] configs@[i1]) & mask == configs@[i1],
        forall|i1: int, i2: int| 0 <= i1 < i2 < configs@.len() ==> configs@[i1] != configs@[i2],
        forall|b: u64|
            b & mask == b ==> exists|i1: int| 0 <= i1 < configs@.len() && configs@[i1] == b,
    ensures
        r == magic_ok(mask, magic),
{
    let shift: u64 = 64 - (k as u64);
    let table_size: usize = 1usize << k;
    proof {
        vstd::bits::lemma_usize_shl_is_mul(1usize, k);
        vstd::bits::lemma_u64_pow2_no_overflow(k as nat);
        vstd::bits::lemma_u64_shl_is_mul(1u64, k as u64);
        vstd::arithmetic::power2::lemma_pow2_pos(k as nat);
        assert(table_size == pow2(k as nat));
        assert(table_size as u64 == 1u64 << (k as u64));
    }
    let index_mask: u64 = (table_size as u64) - 1;
    let mut used: Vec<bool> = Vec::new();
    let mut t: usize = 0;
    while t < table_size
        invariant
            t <= table_size,
            used@.len() == t,
            forall|t2: int| 0 <= t2 < t ==> !(#[trigger] used@[t2]),
        decreases table_size - t,
    {
        used.push(false);
        t = t + 1;
    }
    let ghost sh = shift_for(mask);
    let mut ok: bool = true;
    let mut i: usize = 0;
    while ok && i < configs.len()
        invariant
            k == relevant_bits(mask),
            1 <= k <= 63,
            shift == sh,
            sh == shift_for(mask),
            table_size == pow2(k as nat),
            table_size as u64 == 1u64 << (k as u64),
            index_mask == (1u64 << (k as u64)) - 1,
            used@.len() == table_size,
            configs@.len() == pow2(k as nat),
            forall|i1: int| 0 <= i1 < configs@.len() ==> (#[trigger] configs@[i1]) & mask == configs@[i1],
            forall|i1: int, i2: int| 0 <= i1 < i2 < configs@.len() ==> configs@[i1] != configs@[i2],
            forall|b: u64| b & mask == b ==> exists|i1: int|
                0 <= i1 < configs@.len() && configs@[i1] == b,
            i <= configs@.len(),
            ok ==> forall|i1: int, i2: int|
                0 <= i1 < i2 < i ==> #[trigger] magic_index(configs@[i1], magic, sh)
                    != #[trigger] magic_index(configs@[i2], magic, sh),
            ok ==> forall|t2: int|
                0 <= t2 < table_size ==> ((#[trigger] used@[t2]) == exists|i1: int|
                    0 <= i1 < i && magic_index(configs@[i1], magic, sh) == t2),
            !ok ==> exists|i1: int, i2: int|
                0 <= i1 < i2 < configs@.len() && #[trigger] magic_index(configs@[i1], magic, sh)
                    == #[trigger] magic_index(configs@[i2], magic, sh),
        decreases configs@.len() - i,
    {
        let b = configs[i];
        let raw: u64 = b.wrapping_mul(magic) >> shift;
        proof {
            lemma_shr_bound(vstd::wrapping::u64_specs::wrapping_mul(b, magic), k as u64);
            lemma_low_mask_noop(raw, k as u64);
            assert(raw == magic_index(b, magic, sh));
        }
        let slot: usize = (raw & index_mask) as usize;
        if used[slot] {
            proof {
                let i1 = choose|i1: int|
                    0 <= i1 < i && magic_index(configs@[i1], magic, sh) == slot as int;
                assert(magic_index(configs@[i1], magic, sh) == magic_index(
                    configs@[i as int],
                    magic,
                    sh,
                ));
            }
            ok = false;
        } else {
            used.set(slot, true);
            proof {
                assert forall|i1: int, i2: int| 0 <= i1 < i2 < i + 1 implies #[trigger] magic_index(
                    configs@[i1],
                    magic,
                    sh,
                ) != #[trigger] magic_index(configs@[i2], magic, sh) by {
                    if i2 == i as int {
                        if magic_index(configs@[i1], magic, sh) == magic_index(
                            configs@[i2],
                            magic,
                            sh,
                        ) {
                            assert(used@[magic_index(configs@[i1], magic, sh) as int]);
                        }
                    }
                }
            }
        }
        i = i + 1;
    }
    proof {
        if ok {
            assert forall|b1: u64, b2: u64|
                b1 & mask == b1 && b2 & mask == b2 && b1 != b2 implies #[trigger] magic_index(
                b1,
                magic,
                sh,
            ) != #[trigger] magic_index(b2, magic, sh) by {
                let i1 = choose|i1: int| 0 <= i1 < configs@.len() && configs@[i1] == b1;
                let i2 = choose|i2: int| 0 <= i2 < configs@.len() && configs@[i2] == b2;
                assert(i1 != i2);
            }
        } else {
            let (i1, i2) = choose|i1: int, i2: int|
                0 <= i1 < i2 < configs@.len() && #[trigger] magic_index(configs@[i1], magic, sh)
                    == #[trigger] magic_index(configs@[i2], magic, sh);
            assert(configs@[i1] != configs@[i2]);
            assert(!magic_ok(mask, magic));
        }
    }
    ok
}

/// Check `magic` against every blocker configuration of `mask`: true exactly
/// when no two configurations collide on a table slot.
pub fn magic_has_no_collisions(mask: u64, magic: u64) -> (r: bool)
    requires
        1 <= relevant_bits(mask),
        relevant_bits(mask) < usize::BITS,
        pow2(relevant_bits(mask)) <= usize::MAX,
    ensures
        r == magic_ok(mask, magic),
{
    let positions = mask_bit_positions(mask);
    let k: usize = positions.len();
    let configs = enumerate_blocker_configs(mask);
    collision_free(mask, magic, k, &configs)
}

/// Search for a magic constant for `mask`, drawing random sparse candidates
/// and validating each against every blocker configuration; gives up after
/// `attempts` candidates.
pub fn find_magics_number(mask: u64, attempts: u64) -> (r: Result<u64, MagicError>)
    requires
        1 <= relevant_bits(mask),
        relevant_bits(mask) < usize::BITS,
        pow2(relevant_bits(mask)) <= usize::MAX,
    ensures
        match r {
            Ok(m) => magic_ok(mask, m),
            Err(e) => e == MagicError::SearchExhausted,
        },
{
    let positions = mask_bit_positions(mask);
    let k: usize = positions.len();
    let configs = enumerate_blocker_configs(mask);
    let mut tries: u64 = 0;
    while tries < attempts
        invariant
            k == relevant_bits(mask),
            1 <= k <= 63,
            k < usize::BITS,
            pow2(k as nat) <= usize::MAX,
            configs@.len() == pow2(k as nat),
            forall|i1: int| 0 <= i1 < configs@.len() ==> (#[trigger] configs@[i1]) & mask == configs@[i1],
            forall|i1: int, i2: int| 0 <= i1 < i2 < configs@.len() ==> configs@[i1] != configs@[i2],
            forall|b: u64| b & mask == b ==> exists|i1: int|
                0 <= i1 < configs@.len() && configs@[i1] == b,
        decreases attempts - tries,
    {
        let candidate = generate_sparse_u64(6, 10);
        if collision_free(mask, candidate, k, &configs) {
            return Ok(candidate);
        }
        tries = tries + 1;
    }
    Err(MagicError::SearchExhausted)
}

/// Relies on rand's `RngExt::random_range` over the thread-local generator
/// from `rand::rng()`: the sampled value lies within the given inclusive
/// range, which must not be empty (`random_range` panics on an empty range;
/// `rand::rng()` aborts only if the system generator cannot be seeded).
#[verifier::external_body]
fn random_u64_in(lo: u64, hi: u64) -> (r: u64)
    requires
        lo <= hi,
    ensures
        lo <= r <= hi,
{
    rand::RngExt::random_range(&mut rand::rng(), lo..=hi)
}

} // verus!
