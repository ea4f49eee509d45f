use magician::attacks::{build_attack_table_for_square, PieceShape};
use magician::bishop::bishop_attacks::bishop_attacks_from;
use magician::bishop::blockers::bishop_occupancy_mask;
use magician::magic::{find_magics_number, generate_sparse_u64, magic_has_no_collisions, MagicError};
use magician::rook::blockers::rook_occupancy_mask;
use magician::rook::rook_attacks::rook_attacks_from;
use magician::utils::{blockers_from_squares, enumerate_blocker_configs, notation_to_index};

#[test]
fn test_build_rook_attack_table_and_lookup() {
    let square = notation_to_index("e4");
    let mask = rook_occupancy_mask(square);
    let magic = find_magics_number(mask, 1_000_000).expect("Failed to find a rook magic");
    let shift = 64 - mask.count_ones();

    // Build the attack table for this square
    let attack_table = build_attack_table_for_square(square, mask, magic, PieceShape::Rook);

    let blockers = blockers_from_squares(&["e8", "c4", "e3"]);
    let index = (((blockers & mask).wrapping_mul(magic)) >> shift) as usize;

    let attack = attack_table[index];
    println!("{:#018x}", attack);
    assert_eq!(attack, rook_attacks_from(square, blockers));
}

#[test]
fn test_build_bishop_attack_table_and_lookup() {
    let square = notation_to_index("e4");
    let mask = bishop_occupancy_mask(square);
    let magic = find_magics_number(mask, 1_000_000).expect("Failed to find a bishop magic");
    let shift = 64 - mask.count_ones();

    // Build the attack table for this square
    let attack_table = build_attack_table_for_square(square, mask, magic, PieceShape::Bishop);

    let blockers = blockers_from_squares(&["c6", "g6", "c2"]);
    let index = (((blockers & mask).wrapping_mul(magic)) >> shift) as usize;

    let attack = attack_table[index];
    println!("{:#018x}", attack);
    assert_eq!(attack, bishop_attacks_from(square, blockers));
}

// Any accepted magic hashes the full configuration space without a single
// collision: checked here exhaustively, not by sampling.
#[test]
fn test_found_magic_is_collision_free() {
    let square = notation_to_index("e4");
    let mask = bishop_occupancy_mask(square);
    let magic = find_magics_number(mask, 1_000_000).expect("Failed to find a bishop magic");
    assert!(magic_has_no_collisions(mask, magic));

    let shift = 64 - mask.count_ones();
    let configs = enumerate_blocker_configs(mask);
    let mut seen = vec![false; configs.len()];
    for &b in &configs {
        let index = (b.wrapping_mul(magic) >> shift) as usize;
        assert!(!seen[index], "two configurations share slot {}", index);
        seen[index] = true;
    }
}

#[test]
fn test_search_exhausted_on_zero_budget() {
    let mask = rook_occupancy_mask(notation_to_index("a1"));
    let result = find_magics_number(mask, 0);
    assert_eq!(result, Err(MagicError::SearchExhausted));
}

#[test]
fn test_sparse_candidates() {
    let first = generate_sparse_u64(6, 10);
    let mut all_equal = true;
    for _ in 0..100 {
        let c = generate_sparse_u64(6, 10);
        let bits = c.count_ones();
        assert!((6..=10).contains(&bits), "candidate with {} bits", bits);
        if c != first {
            all_equal = false;
        }
    }
    assert!(!all_equal, "the candidate generator returned one constant only");
}
