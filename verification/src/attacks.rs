//! Attack table construction: for one square, the table that maps the
//! magic-hash of each blocker configuration to its ray-cast attack set.

use vstd::prelude::*;
use vstd::arithmetic::power2::pow2;

use crate::bishop::bishop_attacks::{bishop_attack_bit, bishop_attacks_from};
use crate::bishop::blockers::bishop_mask_bit;
use crate::bits::bit64;
use crate::magic::{magic_index, magic_ok, shift_for};
use crate::rook::blockers::rook_mask_bit;
use crate::rook::rook_attacks::{rook_attack_bit, rook_attacks_from};
use crate::utils::{enumerate_blocker_configs, mask_bit_positions, relevant_bits};

verus! {

/// The two sliding shapes with tables of their own; queen attacks are always
/// the union of the two.
#[derive(Clone, Copy, Debug, PartialEq, Eq, Structural)]
pub enum PieceShape {
    Rook,
    Bishop,
}

/// Attack predicate of a shape.
pub open spec fn shape_attack_bit(shape: PieceShape, sq: int, b: u64, s: int) -> bool {
    match shape {
        PieceShape::Rook => rook_attack_bit(sq, b, s),
        PieceShape::Bishop => bishop_attack_bit(sq, b, s),
    }
}

/// Occupancy-mask predicate of a shape.
pub open spec fn shape_mask_bit(shape: PieceShape, sq: int, s: int) -> bool {
    match shape {
        PieceShape::Rook => rook_mask_bit(sq, s),
        PieceShape::Bishop => bishop_mask_bit(sq, s),
    }
}

/// The table slot assigned to configuration `b` holds its ray-cast attacks.
pub open spec fn slot_matches(
    table: Seq<u64>,
    shape: PieceShape,
    sq: int,
    mask: u64,
    magic: u64,
    b: u64,
) -> bool {
    forall|s: int|
        #[trigger] bit64(table[magic_index(b, magic, shift_for(mask)) as int], s)
            == shape_attack_bit(shape, sq, b, s)
}

/// Ray-cast attacks of `shape` from `square` under `blockers`.
pub fn shape_attacks_from(shape: PieceShape, square: u8, blockers: u64) -> (r: u64)
    requires
        square < 64,
    ensures
        forall|s: int| #[trigger] bit64(r, s) == shape_attack_bit(shape, square as int, blockers, s),
{
    match shape {
        PieceShape::Rook => rook_attacks_from(square, blockers),
        PieceShape::Bishop => bishop_attacks_from(square, blockers),
    }
}

/// Occupancy mask of a shape.
pub fn shape_occupancy_mask(shape: PieceShape, square: u8) -> (r: u64)
    requires
        square < 64,
    ensures
        forall|s: int| #[trigger] bit64(r, s) == shape_mask_bit(shape, square as int, s),
{
    match shape {
        PieceShape::Rook => crate::rook::blockers::rook_occupancy_mask(square),
        PieceShape::Bishop => crate::bishop::blockers::bishop_occupancy_mask(square),
    }
}

/// Build the attack table for one square: every blocker configuration of
/// `mask` lands, through `magic`, on the slot holding its ray-cast attacks.
/// The magic must be collision-free; a colliding one would silently leave
/// overwritten slots.
pub fn build_attack_table_for_square(square: u8, mask: u64, magic: u64, shape: PieceShape) -> (r:
    Vec<u64>)
    requires
        square < 64,
        1 <= relevant_bits(mask),
        relevant_bits(mask) < usize::BITS,
        pow2(relevant_bits(mask)) <= usize::MAX,
        magic_ok(mask, magic),
    ensures
        r@.len() == pow2(relevant_bits(mask)),
        forall|b: u64|
            b & mask == b ==> #[trigger] slot_matches(r@, shape, square as int, mask, magic, b),
{
    let positions = mask_bit_positions(mask);
    let k: usize = positions.len();
    let shift: u64 = 64 - (k as u64);
    let table_size: usize = 1usize << k;
    proof {
        vstd::bits::lemma_usize_shl_is_mul(1usize, k);
        vstd::bits::lemma_u64_pow2_no_overflow(k as nat);
        vstd::bits::lemma_u64_shl_is_mul(1u64, k as u64);
        assert(table_size == pow2(k as nat));
        assert(table_size as u64 == 1u64 << (k as u64));
    }
    let mut table: Vec<u64> = Vec::new();
    let mut t: usize = 0;
    while t < table_size
        invariant
            t <= table_size,
            table@.len() == t,
        decreases table_size - t,
    {
        table.push(0);
        t = t + 1;
    }
    let configs = enumerate_blocker_configs(mask);
    let ghost sh = shift_for(mask);
    let ghost sq = square as int;
    let mut i: usize = 0;
    while i < configs.len()
        invariant
            square < 64,
            sq == square as int,
            k == relevant_bits(mask),
            1 <= k <= 63,
            shift == sh,
            sh == shift_for(mask),
            magic_ok(mask, magic),
            table@.len() == table_size,
            table_size == pow2(k as nat),
            table_size as u64 == 1u64 << (k as u64),
            configs@.len() == pow2(k as nat),
            forall|i1: int|
                0 <= i1 < configs@.len() ==> (#[trigger] configs@[i1]) & mask == configs@[i1],
            forall|i1: int, i2: int|
                0 <= i1 < i2 < configs@.len() ==> configs@[i1] != configs@[i2],
            forall|b: u64|
                b & mask == b ==> exists|i1: int| 0 <= i1 < configs@.len() && configs@[i1] == b,
            i <= configs@.len(),
            forall|i1: int|
                0 <= i1 < i ==> #[trigger] slot_matches(
                    table@,
                    shape,
                    sq,
                    mask,
                    magic,
                    configs@[i1],
                ),
        decreases configs@.len() - i,
    {
        let b = configs[i];
        let attack = shape_attacks_from(shape, square, b);
        let raw: u64 = b.wrapping_mul(magic) >> shift;
        proof {
            crate::bits::lemma_shr_bound(
                vstd::wrapping::u64_specs::wrapping_mul(b, magic),
                k as u64,
            );
            assert(raw == magic_index(b, magic, sh));
        }
        let slot: usize = raw as usize;
        let ghost old_table = table@;
        table.set(slot, attack);
        proof {
            assert forall|i1: int| 0 <= i1 < i + 1 implies #[trigger] slot_matches(
                table@,
                shape,
                sq,
                mask,
                magic,
                configs@[i1],
            ) by {
                if i1 < i {
                    let c = configs@[i1];
                    assert(slot_matches(old_table, shape, sq, mask, magic, c));
                    assert(c != b);
                    crate::bits::lemma_shr_bound(
                        vstd::wrapping::u64_specs::wrapping_mul(c, magic),
                        k as u64,
                    );
                    assert(magic_index(c, magic, sh) < table_size as u64);
                    assert(magic_index(c, magic, sh) != magic_index(b, magic, sh));
                    assert(table@[magic_index(c, magic, sh) as int] == old_table[magic_index(
                        c,
                        magic,
                        sh,
                    ) as int]);
                } else {
                    assert(table@[magic_index(b, magic, sh) as int] == attack);
                }
            }
        }
        i = i + 1;
    }
    proof {
        assert forall|b: u64| b & mask == b implies #[trigger] slot_matches(
            table@,
            shape,
            sq,
            mask,
            magic,
            b,
        ) by {
            let i1 = choose|i1: int| 0 <= i1 < configs@.len() && configs@[i1] == b;
            assert(slot_matches(table@, shape, sq, mask, magic, configs@[i1]));
        }
    }
    table
}

} // verus!
