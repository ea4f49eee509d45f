use magician::bishop::blockers::bishop_occupancy_mask;
use magician::rook::blockers::rook_occupancy_mask;
use magician::utils::{blockers_from_squares, enumerate_blocker_configs, notation_to_index};

#[test]
fn test_rook_occupancy() {
    let possible_occupancies = rook_occupancy_mask(notation_to_index("e4"));
    println!("{:#018x}", possible_occupancies);
}

#[test]
fn test_enumerate_blocker_configs() {
    let possible_occupancy = rook_occupancy_mask(notation_to_index("e4"));
    println!("For: ");
    println!("{:#018x}", possible_occupancy);
    let blocker_variations = enumerate_blocker_configs(possible_occupancy);
    assert_eq!(
        blocker_variations.len(),
        1024,
        "There should be 1024 total blocker variations for a rook on e4, excluding edges there are total 10 squares, so its just 2^10"
    );
}

#[test]
fn test_bishop_occupancy() {
    println!("For E4:");
    let square = notation_to_index("e4");
    let mask = bishop_occupancy_mask(square);
    println!("{:#018x}", mask);

    println!("For a1:");
    let square = notation_to_index("a1");
    let mask = bishop_occupancy_mask(square);
    println!("{:#018x}", mask);
}

#[test]
fn test_enumerate_bishop_blockers() {
    let square = notation_to_index("e4");
    let mask = bishop_occupancy_mask(square);
    println!("Occupancy mask for bishop @ e4:");
    println!("{:#018x}", mask);

    let blockers = enumerate_blocker_configs(mask);

    let expected = 2u64.pow(mask.count_ones());
    assert_eq!(
        blockers.len() as u64,
        expected,
        "Expected {} blocker variations, got {}",
        expected,
        blockers.len()
    );
}

// Every mask's bit count matches the rank/file reference formula: each of the
// two rook rays contributes 5 interior squares, or 6 when the piece stands on
// that ray's edge; bishop counts come from walking the four diagonals.
#[test]
fn test_mask_popcounts_match_reference() {
    for square in 0u8..64 {
        let rank = (square / 8) as i32;
        let file = (square % 8) as i32;

        let vertical = if rank == 0 || rank == 7 { 6 } else { 5 };
        let horizontal = if file == 0 || file == 7 { 6 } else { 5 };
        assert_eq!(
            rook_occupancy_mask(square).count_ones(),
            (vertical + horizontal) as u32,
            "rook mask bit count for square {}",
            square
        );

        let mut diag = 0u32;
        for (dr, df) in [(1, 1), (1, -1), (-1, 1), (-1, -1)] {
            let mut r = rank + dr;
            let mut f = file + df;
            while (1..=6).contains(&r) && (1..=6).contains(&f) {
                diag += 1;
                r += dr;
                f += df;
            }
        }
        assert_eq!(
            bishop_occupancy_mask(square).count_ones(),
            diag,
            "bishop mask bit count for square {}",
            square
        );
    }
    // the reference example: a rook on e4 sees 10 relevant squares
    assert_eq!(rook_occupancy_mask(notation_to_index("e4")).count_ones(), 10);
}

// Enumeration is exhaustive and duplicate-free for every mask of both shapes.
#[test]
fn test_enumerate_all_squares_no_duplicates() {
    for square in 0u8..64 {
        for mask in [rook_occupancy_mask(square), bishop_occupancy_mask(square)] {
            let mut configs = enumerate_blocker_configs(mask);
            let expected = 1usize << mask.count_ones();
            assert_eq!(configs.len(), expected);
            for &c in &configs {
                assert_eq!(c & mask, c, "configuration outside the mask");
            }
            configs.sort();
            for w in configs.windows(2) {
                assert_ne!(w[0], w[1], "duplicate configuration for square {}", square);
            }
        }
    }
}

#[test]
fn test_notation_and_blockers() {
    assert_eq!(notation_to_index("a1"), 0);
    assert_eq!(notation_to_index("h1"), 7);
    assert_eq!(notation_to_index("e4"), 28);
    assert_eq!(notation_to_index("a8"), 56);
    assert_eq!(notation_to_index("h8"), 63);
    assert_eq!(blockers_from_squares(&[]), 0);
    assert_eq!(
        blockers_from_squares(&["a1", "e4", "h8"]),
        1u64 | (1u64 << 28) | (1u64 << 63)
    );
}
