//! Magic-bitboard move generation for sliding chess pieces: occupancy masks,
//! blocker enumeration, ray-cast attacks, a randomized search for perfect
//! magic hashes, and an immutable attack service built from persisted data.

use vstd::prelude::*;
use vstd::arithmetic::power2::pow2;

pub mod attacks;
pub mod bishop;
pub mod bits;
pub mod board;
pub mod game;
pub mod magic;
pub mod piece;
pub mod rays;
pub mod rook;
pub mod utils;

use crate::attacks::{build_attack_table_for_square, shape_attack_bit, shape_mask_bit,
    shape_occupancy_mask, slot_matches, PieceShape};
use crate::bishop::bishop_attacks::bishop_attack_bit;
use crate::bits::{bit64, lemma_and_bits, lemma_square_coords, lemma_square_split,
    lemma_u64_eq_bits, on_board, sq_file, sq_rank, square_at};
use crate::magic::{magic_has_no_collisions, magic_index, magic_ok, shift_for};
use crate::rook::rook_attacks::rook_attack_bit;
use crate::utils::{mask_bit_positions, relevant_bits};

verus! {

/// The attack service refuses to start on data that would serve wrong
/// answers: every record must match this crate's masks and hash perfectly.
#[derive(Clone, Copy, Debug, PartialEq, Eq, Structural)]
pub enum InitError {
    InvalidData,
}

/// Read-only per-square attack state for one sliding shape.
pub struct ShapeAttacks {
    magics: Vec<(u64, u8)>,
    occupancies: Vec<u64>,
    tables: Vec<Vec<u64>>,
}

/// Read-only attack state for both sliding shapes, built once at startup.
pub struct AttackService {
    rook: ShapeAttacks,
    bishop: ShapeAttacks,
}

/// One (magic, shift) record agrees with its occupancy mask: the mask is the
/// canonical one for the square, the shift keeps one index bit per relevant
/// square, and the magic hashes all blocker configurations without collision.
pub open spec fn record_valid(
    magics: Seq<(u64, u8)>,
    occs: Seq<u64>,
    shape: PieceShape,
    sq: int,
) -> bool {
    (forall|s: int| #[trigger] bit64(occs[sq], s) == shape_mask_bit(shape, sq, s)) && 1
        <= relevant_bits(occs[sq]) <= 16 && magics[sq].1 as nat == 64 - relevant_bits(occs[sq])
        && magic_ok(occs[sq], magics[sq].0)
}

/// The loaded records for one shape are complete and self-consistent.
pub open spec fn shape_inputs_valid(
    magics: Seq<(u64, u8)>,
    occs: Seq<u64>,
    shape: PieceShape,
) -> bool {
    magics.len() == 64 && occs.len() == 64 && (forall|sq: int|
        0 <= sq < 64 ==> #[trigger] record_valid(magics, occs, shape, sq))
}

impl ShapeAttacks {
    /// Well-formed state for `shape`: valid records and, for every square, a
    /// full attack table whose slots hold the ray-cast attack sets.
    pub closed spec fn wf(self, shape: PieceShape) -> bool {
        shape_inputs_valid(self.magics@, self.occupancies@, shape) && self.tables@.len() == 64 && (
        forall|sq: int|
            0 <= sq < 64 ==> (#[trigger] self.tables@[sq])@.len() == pow2(
                relevant_bits(self.occupancies@[sq]),
            ) && (forall|b: u64|
                b & self.occupancies@[sq] == b ==> #[trigger] slot_matches(
                    self.tables@[sq]@,
                    shape,
                    sq,
                    self.occupancies@[sq],
                    self.magics@[sq].0,
                    b,
                )))
    }
}

impl AttackService {
    /// Both shapes are ready to serve queries.
    pub closed spec fn wf(self) -> bool {
        self.rook.wf(PieceShape::Rook) && self.bishop.wf(PieceShape::Bishop)
    }
}

proof fn lemma_pow2_16_fits(k: nat)
    requires
        k <= 16,
    ensures
        k < usize::BITS,
        pow2(k) <= usize::MAX,
{
    vstd::arithmetic::power2::lemma2_to64();
    if k < 16 {
        vstd::arithmetic::power2::lemma_pow2_strictly_increases(k, 16);
    }
}

/// Build the per-square attack state of one shape from loaded magic and
/// occupancy records, validating every record first: data that does not
/// match this crate's masks or does not hash perfectly is refused.
fn init_shape_attacks(shape: PieceShape, magics: Vec<(u64, u8)>, occupancies: Vec<u64>) -> (r:
    Result<ShapeAttacks, InitError>)
    ensures
        r is Ok <==> shape_inputs_valid(magics@, occupancies@, shape),
        r matches Ok(t) ==> t.wf(shape),
{
    if magics.len() != 64 || occupancies.len() != 64 {
        return Err(InitError::InvalidData);
    }
    let mut sq: usize = 0;
    while sq < 64
        invariant
            sq <= 64,
            magics@.len() == 64,
            occupancies@.len() == 64,
            forall|sq2: int|
                0 <= sq2 < sq ==> #[trigger] record_valid(magics@, occupancies@, shape, sq2),
        decreases 64 - sq,
    {
        let mask = occupancies[sq];
        let canonical = shape_occupancy_mask(shape, sq as u8);
        if mask != canonical {
            proof {
                if record_valid(magics@, occupancies@, shape, sq as int) {
                    lemma_u64_eq_bits(mask, canonical);
                }
            }
            return Err(InitError::InvalidData);
        }
        let positions = mask_bit_positions(mask);
        let k = positions.len();
        if k < 1 || k > 16 {
            proof {
                assert(!record_valid(magics@, occupancies@, shape, sq as int));
            }
            return Err(InitError::InvalidData);
        }
        let entry = magics[sq];
        if (entry.1 as u64) != 64 - (k as u64) {
            proof {
                assert(!record_valid(magics@, occupancies@, shape, sq as int));
            }
            return Err(InitError::InvalidData);
        }
        proof {
            lemma_pow2_16_fits(k as nat);
        }
        if !magic_has_no_collisions(mask, entry.0) {
            proof {
                assert(!record_valid(magics@, occupancies@, shape, sq as int));
            }
            return Err(InitError::InvalidData);
        }
        proof {
            assert(record_valid(magics@, occupancies@, shape, sq as int));
        }
        sq = sq + 1;
    }
    let mut tables: Vec<Vec<u64>> = Vec::new();
    let mut sq: usize = 0;
    while sq < 64
        invariant
            sq <= 64,
            magics@.len() == 64,
            occupancies@.len() == 64,
            forall|sq2: int|
                0 <= sq2 < 64 ==> #[trigger] record_valid(magics@, occupancies@, shape, sq2),
            tables@.len() == sq,
            forall|sq2: int|
                0 <= sq2 < sq ==> (#[trigger] tables@[sq2])@.len() == pow2(
                    relevant_bits(occupancies@[sq2]),
                ) && (forall|b: u64|
                    b & occupancies@[sq2] == b ==> #[trigger] slot_matches(
                        tables@[sq2]@,
                        shape,
                        sq2,
                        occupancies@[sq2],
                        magics@[sq2].0,
                        b,
                    )),
        decreases 64 - sq,
    {
        let mask = occupancies[sq];
        let magic = magics[sq].0;
        proof {
            assert(record_valid(magics@, occupancies@, shape, sq as int));
            lemma_pow2_16_fits(relevant_bits(mask));
        }
        let table = build_attack_table_for_square(sq as u8, mask, magic, shape);
        tables.push(table);
        sq = sq + 1;
    }
    Ok(ShapeAttacks { magics, occupancies, tables })
}

/// Build the rook attack state from loaded records.
pub fn init_rook_attacks(magics: Vec<(u64, u8)>, occupancies: Vec<u64>) -> (r: Result<
    ShapeAttacks,
    InitError,
>)
    ensures
        r is Ok <==> shape_inputs_valid(magics@, occupancies@, PieceShape::Rook),
        r matches Ok(t) ==> t.wf(PieceShape::Rook),
{
    init_shape_attacks(PieceShape::Rook, magics, occupancies)
}

/// Build the bishop attack state from loaded records.
pub fn init_bishop_attacks(magics: Vec<(u64, u8)>, occupancies: Vec<u64>) -> (r: Result<
    ShapeAttacks,
    InitError,
>)
    ensures
        r is Ok <==> shape_inputs_valid(magics@, occupancies@, PieceShape::Bishop),
        r matches Ok(t) ==> t.wf(PieceShape::Bishop),
{
    init_shape_attacks(PieceShape::Bishop, magics, occupancies)
}

/// Build the whole attack service from loaded rook and bishop records: the
/// one-way transition from uninitialized to ready.
pub fn init_magician(
    rook_magics: Vec<(u64, u8)>,
    rook_occupancies: Vec<u64>,
    bishop_magics: Vec<(u64, u8)>,
    bishop_occupancies: Vec<u64>,
) -> (r: Result<AttackService, InitError>)
    ensures
        r is Ok <==> (shape_inputs_valid(rook_magics@, rook_occupancies@, PieceShape::Rook)
            && shape_inputs_valid(bishop_magics@, bishop_occupancies@, PieceShape::Bishop)),
        r matches Ok(s) ==> s.wf(),
{
    let rook = match init_rook_attacks(rook_magics, rook_occupancies) {
        Ok(t) => t,
        Err(e) => {
            return Err(e);
        },
    };
    let bishop = match init_bishop_attacks(bishop_magics, bishop_occupancies) {
        Ok(t) => t,
        Err(e) => {
            return Err(e);
        },
    };
    Ok(AttackService { rook, bishop })
}

proof fn lemma_rook_masked_blockers(sq: int, blockers: u64, mask: u64)
    requires
        on_board(sq),
        forall|s: int| #[trigger] bit64(mask, s) == crate::rook::blockers::rook_mask_bit(sq, s),
    ensures
        forall|s: int|
            rook_attack_bit(sq, blockers & mask, s) == #[trigger] rook_attack_bit(sq, blockers, s),
{
    lemma_and_bits(blockers, mask);
    let bm = blockers & mask;
    let rk = sq_rank(sq);
    let fl = sq_file(sq);
    lemma_square_split(sq);
    assert forall|s: int|
        rook_attack_bit(sq, bm, s) == #[trigger] rook_attack_bit(sq, blockers, s) by {
        if on_board(s) {
            lemma_square_split(s);
            assert forall|t: int|
                ((rk < t < sq_rank(s)) || (sq_rank(s) < t < rk)) && !bit64(
                    bm,
                    #[trigger] square_at(t, fl),
                ) implies !bit64(blockers, square_at(t, fl)) by {
                lemma_square_coords(t, fl);
                assert(square_at(t, fl) != sq);
                assert(crate::rook::blockers::rook_mask_bit(sq, square_at(t, fl)));
                assert(bit64(mask, square_at(t, fl)));
            }
            assert forall|t: int|
                ((fl < t < sq_file(s)) || (sq_file(s) < t < fl)) && !bit64(
                    bm,
                    #[trigger] square_at(rk, t),
                ) implies !bit64(blockers, square_at(rk, t)) by {
                lemma_square_coords(rk, t);
                assert(square_at(rk, t) != sq);
                assert(crate::rook::blockers::rook_mask_bit(sq, square_at(rk, t)));
                assert(bit64(mask, square_at(rk, t)));
            }
        }
    }
}

proof fn lemma_bishop_masked_blockers(sq: int, blockers: u64, mask: u64)
    requires
        on_board(sq),
        forall|s: int|
            #[trigger] bit64(mask, s) == crate::bishop::blockers::bishop_mask_bit(sq, s),
    ensures
        forall|s: int|
            bishop_attack_bit(sq, blockers & mask, s) == #[trigger] bishop_attack_bit(
                sq,
                blockers,
                s,
            ),
{
    lemma_and_bits(blockers, mask);
    let bm = blockers & mask;
    let rk = sq_rank(sq);
    let fl = sq_file(sq);
    lemma_square_split(sq);
    assert forall|s: int|
        bishop_attack_bit(sq, bm, s) == #[trigger] bishop_attack_bit(sq, blockers, s) by {
        if on_board(s) {
            lemma_square_split(s);
            if sq_rank(s) - sq_file(s) == rk - fl {
                assert forall|u: int|
                    on_board(u) && sq_rank(u) - sq_file(u) == rk - fl && ((rk < sq_rank(u)
                        < sq_rank(s)) || (sq_rank(s) < sq_rank(u) < rk)) && !bit64(
                        bm,
                        u,
                    ) implies !(#[trigger] bit64(blockers, u)) by {
                    lemma_square_split(u);
                    assert(u != sq);
                    assert(crate::bishop::blockers::bishop_mask_bit(sq, u));
                    assert(bit64(mask, u));
                }
            }
            if sq_rank(s) + sq_file(s) == rk + fl {
                assert forall|u: int|
                    on_board(u) && sq_rank(u) + sq_file(u) == rk + fl && ((rk < sq_rank(u)
                        < sq_rank(s)) || (sq_rank(s) < sq_rank(u) < rk)) && !bit64(
                        bm,
                        u,
                    ) implies !(#[trigger] bit64(blockers, u)) by {
                    lemma_square_split(u);
                    assert(u != sq);
                    assert(crate::bishop::blockers::bishop_mask_bit(sq, u));
                    assert(bit64(mask, u));
                }
            }
        }
    }
}

fn shape_lookup(state: &ShapeAttacks, shape: PieceShape, square: u8, blockers: u64) -> (r: u64)
    requires
        state.wf(shape),
        square < 64,
    ensures
        forall|s: int|
            #[trigger] bit64(r, s) == shape_attack_bit(shape, square as int, blockers, s),
{
    let entry = state.magics[square as usize];
    let magic = entry.0;
    let shift = entry.1;
    let mask = state.occupancies[square as usize];
    let ghost sq = square as int;
    proof {
        assert(record_valid(state.magics@, state.occupancies@, shape, sq));
        lemma_pow2_16_fits(relevant_bits(mask));
        vstd::bits::lemma_u64_pow2_no_overflow(relevant_bits(mask));
        vstd::bits::lemma_u64_shl_is_mul(1u64, relevant_bits(mask) as u64);
    }
    let masked = blockers & mask;
    let raw: u64 = masked.wrapping_mul(magic) >> (shift as u64);
    proof {
        let k = relevant_bits(mask) as u64;
        crate::bits::lemma_shr_bound(vstd::wrapping::u64_specs::wrapping_mul(masked, magic), k);
        assert(raw == magic_index(masked, magic, shift_for(mask)));
        assert(raw < (1u64 << k));
        assert((1u64 << k) == pow2(k as nat));
        let bl = blockers;
        let mk = mask;
        assert((bl & mk) & mk == bl & mk) by (bit_vector);
        assert(slot_matches(state.tables@[sq]@, shape, sq, mask, magic, masked));
    }
    let index: usize = raw as usize;
    let r = state.tables[square as usize][index];
    proof {
        match shape {
            PieceShape::Rook => {
                lemma_rook_masked_blockers(sq, blockers, mask);
            },
            PieceShape::Bishop => {
                lemma_bishop_masked_blockers(sq, blockers, mask);
            },
        }
    }
    r
}

/// O(1) rook attack lookup; blockers outside the rook's occupancy mask never
/// change the answer, so the result is the exact ray-cast attack set.
pub fn get_rook_attacks(rook: &ShapeAttacks, square: u8, blockers: u64) -> (r: u64)
    requires
        rook.wf(PieceShape::Rook),
        square < 64,
    ensures
        forall|s: int| #[trigger] bit64(r, s) == rook_attack_bit(square as int, blockers, s),
{
    shape_lookup(rook, PieceShape::Rook, square, blockers)
}

/// O(1) bishop attack lookup.
pub fn get_bishop_attacks(bishop: &ShapeAttacks, square: u8, blockers: u64) -> (r: u64)
    requires
        bishop.wf(PieceShape::Bishop),
        square < 64,
    ensures
        forall|s: int| #[trigger] bit64(r, s) == bishop_attack_bit(square as int, blockers, s),
{
    shape_lookup(bishop, PieceShape::Bishop, square, blockers)
}

/// Queen attacks: the bitwise union of the rook and bishop attacks from the
/// same square under the same blockers.
pub fn get_queen_attacks(service: &AttackService, square: u8, blockers: u64) -> (r: u64)
    requires
        service.wf(),
        square < 64,
    ensures
        forall|s: int|
            #[trigger] bit64(r, s) == (rook_attack_bit(square as int, blockers, s)
                || bishop_attack_bit(square as int, blockers, s)),
{
    let rook_attacks = get_rook_attacks(&service.rook, square, blockers);
    let bishop_attacks = get_bishop_attacks(&service.bishop, square, blockers);
    proof {
        crate::bits::lemma_or_union(rook_attacks, bishop_attacks);
    }
    rook_attacks | bishop_attacks
}

} // verus!
