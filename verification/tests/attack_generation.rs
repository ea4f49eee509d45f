use magician::bishop::bishop_attacks::bishop_attacks_from;
use magician::bishop::blockers::bishop_occupancy_mask;
use magician::rook::blockers::rook_occupancy_mask;
use magician::rook::rook_attacks::rook_attacks_from;
use magician::utils::{blockers_from_squares, enumerate_blocker_configs, notation_to_index};

#[test]
fn test_attack_generation() {
    let possible_occupancy = rook_occupancy_mask(notation_to_index("e4"));
    let blocker_variations = enumerate_blocker_configs(possible_occupancy);
    for blockers in blocker_variations {
        let attacks = rook_attacks_from(notation_to_index("e4"), blockers);
        // the rook always sees its four neighbours
        assert_ne!(attacks & blockers_from_squares(&["e3", "e5", "d4", "f4"]), 0);
    }
}

#[test]
fn test_bishop_attack_generation_single() {
    let blockers = blockers_from_squares(&["c4"]);
    println!("The Blocker:");
    println!("{:#018x}", blockers);
    let attacks = bishop_attacks_from(notation_to_index("d4"), blockers);
    println!("The Attacks:");
    println!("{:#018x}", attacks);
}

#[test]
fn test_bishop_attack_generation() {
    let possible_occupancy = bishop_occupancy_mask(notation_to_index("e4"));
    let blocker_variations = enumerate_blocker_configs(possible_occupancy);
    for blockers in blocker_variations {
        let attacks = bishop_attacks_from(notation_to_index("e4"), blockers);
        // the four diagonal neighbours are always attacked
        assert_ne!(attacks & blockers_from_squares(&["d3", "d5", "f3", "f5"]), 0);
    }
}

// Scenario: rook on e4 with blockers on e8, c4 and e3 attacks exactly the
// squares up to and including the first blocker of each ray.
#[test]
fn test_rook_e4_blocked_scenario() {
    let square = notation_to_index("e4");
    let blockers = blockers_from_squares(&["e8", "c4", "e3"]);
    let attacks = rook_attacks_from(square, blockers);
    let expected = blockers_from_squares(&[
        "e5", "e6", "e7", "e8", // up to the blocker on e8
        "e3", // stopped straight away below
        "f4", "g4", "h4", // open to the right edge
        "d4", "c4", // stopped on c4
    ]);
    assert_eq!(attacks, expected);
}

// Scenario: rook on a1 with no blockers sweeps the full a-file and first
// rank, 14 squares in total.
#[test]
fn test_rook_a1_open_board() {
    let square = notation_to_index("a1");
    let attacks = rook_attacks_from(square, 0);
    let expected = blockers_from_squares(&[
        "a2", "a3", "a4", "a5", "a6", "a7", "a8", "b1", "c1", "d1", "e1", "f1", "g1", "h1",
    ]);
    assert_eq!(attacks, expected);
    assert_eq!(attacks.count_ones(), 14);
}

// Scenario: bishop on e4 with no blockers reaches every diagonal square up
// to the board edge in all four directions.
#[test]
fn test_bishop_e4_open_board() {
    let square = notation_to_index("e4");
    let attacks = bishop_attacks_from(square, 0);
    let expected = blockers_from_squares(&[
        "f5", "g6", "h7", // north-east
        "d5", "c6", "b7", "a8", // north-west
        "f3", "g2", "h1", // south-east
        "d3", "c2", "b1", // south-west
    ]);
    assert_eq!(attacks, expected);
}
