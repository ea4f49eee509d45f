use std::time::Instant;

use rand::RngExt;

use magician::attacks::{shape_occupancy_mask, PieceShape};
use magician::bishop::bishop_attacks::bishop_attacks_from;
use magician::bishop::blockers::bishop_occupancy_mask;
use magician::magic::find_magics_number;
use magician::rook::blockers::rook_occupancy_mask;
use magician::rook::rook_attacks::rook_attacks_from;
use magician::utils::{blockers_from_squares, enumerate_blocker_configs, notation_to_index};
use magician::{
    get_bishop_attacks, get_queen_attacks, get_rook_attacks, init_bishop_attacks,
    init_magician, init_rook_attacks, AttackService, ShapeAttacks,
};

fn shape_records(shape: PieceShape) -> (Vec<(u64, u8)>, Vec<u64>) {
    let mut magics: Vec<(u64, u8)> = Vec::with_capacity(64);
    let mut occupancies: Vec<u64> = Vec::with_capacity(64);
    for square in 0u8..64 {
        let mask = shape_occupancy_mask(shape, square);
        let shift = (64 - mask.count_ones()) as u8;
        let magic = find_magics_number(mask, 1_000_000).expect("no magic found for square");
        magics.push((magic, shift));
        occupancies.push(mask);
    }
    (magics, occupancies)
}

fn rook_service() -> ShapeAttacks {
    let (magics, occupancies) = shape_records(PieceShape::Rook);
    init_rook_attacks(magics, occupancies).expect("rook records were refused")
}

fn bishop_service() -> ShapeAttacks {
    let (magics, occupancies) = shape_records(PieceShape::Bishop);
    init_bishop_attacks(magics, occupancies).expect("bishop records were refused")
}

fn full_service() -> AttackService {
    let (rm, ro) = shape_records(PieceShape::Rook);
    let (bm, bo) = shape_records(PieceShape::Bishop);
    init_magician(rm, ro, bm, bo).expect("service records were refused")
}

#[test]
fn test_get_rook_attacks() {
    let rook = rook_service();

    let square = notation_to_index("d4");
    let blockers = blockers_from_squares(&["c4", "e4"]);
    let attacks = get_rook_attacks(&rook, square, blockers);
    assert_eq!(attacks, rook_attacks_from(square, blockers));

    let square = notation_to_index("a1");
    let blockers = 0u64;
    let attacks = get_rook_attacks(&rook, square, blockers);
    assert_eq!(attacks, rook_attacks_from(square, blockers));

    let square = notation_to_index("a1");
    let blockers = blockers_from_squares(&["g1", "a6"]);
    let attacks = get_rook_attacks(&rook, square, blockers);
    assert_eq!(attacks, rook_attacks_from(square, blockers));
}

#[test]
fn test_rook_speed() {
    let rook = rook_service();

    let square = notation_to_index("e4");
    let mask = rook_occupancy_mask(square);
    let blocker_configs = enumerate_blocker_configs(mask);
    let mut rng = rand::rng();

    // Test 1: Lookup for all blocker configurations
    let start = Instant::now();
    for &blockers in &blocker_configs {
        let _attack = get_rook_attacks(&rook, square, blockers);
    }
    let elapsed = start.elapsed();
    println!(
        "Rook attack lookup on square e4 for {} blocker configs took {:?}",
        blocker_configs.len(),
        elapsed
    );

    // Test 2: Lookup for 1,000,000 random blockers
    let n = 1_000_000;
    let start = Instant::now();
    for _ in 0..n {
        let blockers = blocker_configs[rng.random_range(0..blocker_configs.len())];
        let _attack = get_rook_attacks(&rook, square, blockers);
    }
    let elapsed_rand = start.elapsed();
    println!(
        "Rook attack lookup {} random blockers took {:?}",
        n, elapsed_rand
    );
}

#[test]
fn test_get_bishop_attacks() {
    let bishop = bishop_service();

    let square = notation_to_index("e4");
    let blockers = blockers_from_squares(&[]);
    let attacks = get_bishop_attacks(&bishop, square, blockers);
    assert_eq!(attacks, bishop_attacks_from(square, blockers));

    let square = notation_to_index("c3");
    let blockers = 0u64;
    let attacks = get_bishop_attacks(&bishop, square, blockers);
    assert_eq!(attacks, bishop_attacks_from(square, blockers));

    let square = notation_to_index("f6");
    let blockers = blockers_from_squares(&["d4", "h8"]);
    let attacks = get_bishop_attacks(&bishop, square, blockers);
    assert_eq!(attacks, bishop_attacks_from(square, blockers));
}

#[test]
fn test_bishop_speed() {
    let bishop = bishop_service();

    let square = notation_to_index("e4");
    let mask = bishop_occupancy_mask(square);
    let blocker_configs = enumerate_blocker_configs(mask);
    let mut rng = rand::rng();

    // Test 1: Lookup for all blocker configurations
    let start = Instant::now();
    for &blockers in &blocker_configs {
        let _attack = get_bishop_attacks(&bishop, square, blockers);
    }
    let elapsed = start.elapsed();
    println!(
        "Bishop attack lookup on square e4 for {} blocker configs took {:?}",
        blocker_configs.len(),
        elapsed
    );

    let n = 1_000_000;
    let start = Instant::now();
    for _ in 0..n {
        let blockers = blocker_configs[rng.random_range(0..blocker_configs.len())];
        let _attack = get_bishop_attacks(&bishop, square, blockers);
    }
    let elapsed_rand = start.elapsed();
    println!(
        "Bishop attack lookup {} random blockers took {:?}",
        n, elapsed_rand
    );
}

#[test]
fn test_get_queen_attacks() {
    let service = full_service();

    let square = notation_to_index("e4");
    let blockers = 0u64;
    let attacks = get_queen_attacks(&service, square, blockers);
    println!("Queen Attacks, No Blockers:");
    println!("{:#018x}", attacks);
    assert_eq!(
        attacks,
        rook_attacks_from(square, blockers) | bishop_attacks_from(square, blockers)
    );

    let square = notation_to_index("a1");
    let blockers = blockers_from_squares(&["b2"]);
    let attacks = get_queen_attacks(&service, square, blockers);
    assert_eq!(
        attacks,
        rook_attacks_from(square, blockers) | bishop_attacks_from(square, blockers)
    );

    let square = notation_to_index("d4");
    let blockers = blockers_from_squares(&["c4", "e4"]);
    let attacks = get_queen_attacks(&service, square, blockers);
    assert_eq!(
        attacks,
        rook_attacks_from(square, blockers) | bishop_attacks_from(square, blockers)
    );
}

#[test]
fn test_queen_speed() {
    let service = full_service();

    let square = notation_to_index("e4");
    let mask = rook_occupancy_mask(square) | bishop_occupancy_mask(square);
    let blocker_configs = enumerate_blocker_configs(mask);
    let mut rng = rand::rng();

    // Test 1: Lookup for all blocker configurations
    let start = Instant::now();
    for &blockers in &blocker_configs {
        let _attack = get_queen_attacks(&service, square, blockers);
    }
    let elapsed = start.elapsed();
    println!(
        "Queen attack lookup on square e4 for {} blocker configs took {:?}",
        blocker_configs.len(),
        elapsed
    );

    // Test 2: Lookup for 1,000,000 random blockers
    let n = 1_000_000;
    let start = Instant::now();
    for _ in 0..n {
        let blockers = blocker_configs[rng.random_range(0..blocker_configs.len())];
        let _attack = get_queen_attacks(&service, square, blockers);
    }
    let elapsed_rand = start.elapsed();
    println!(
        "Queen attack lookup {} random blockers took {:?}",
        n, elapsed_rand
    );
}

// The queen is always exactly rook union bishop, over random blocker sets.
#[test]
fn test_queen_is_rook_union_bishop() {
    let service = full_service();
    let mut rng = rand::rng();
    for square in 0u8..64 {
        for _ in 0..32 {
            let blockers: u64 = rng.random_range(0..=u64::MAX);
            let queen = get_queen_attacks(&service, square, blockers);
            let rook = rook_attacks_from(square, blockers);
            let bishop = bishop_attacks_from(square, blockers);
            assert_eq!(queen, rook | bishop, "square {}", square);
        }
    }
}

// Lookups agree with the direct ray cast for arbitrary blockers, including
// blockers outside the occupancy mask.
#[test]
fn test_lookup_matches_ray_cast() {
    let rook = rook_service();
    let mut rng = rand::rng();
    for square in 0u8..64 {
        for _ in 0..32 {
            let blockers: u64 = rng.random_range(0..=u64::MAX);
            assert_eq!(
                get_rook_attacks(&rook, square, blockers),
                rook_attacks_from(square, blockers),
                "square {}",
                square
            );
        }
    }
}

#[test]
fn test_init_rejects_bad_data() {
    // too few records
    assert!(init_rook_attacks(Vec::new(), Vec::new()).is_err());

    let (magics, occupancies) = shape_records(PieceShape::Rook);

    // a mask that is not the canonical occupancy mask
    let mut bad_occupancies = occupancies.clone();
    bad_occupancies[10] ^= 1 << 20;
    assert!(init_rook_attacks(magics.clone(), bad_occupancies).is_err());

    // a shift that disagrees with the mask's bit count
    let mut bad_magics = magics.clone();
    bad_magics[3].1 += 1;
    assert!(init_rook_attacks(bad_magics, occupancies.clone()).is_err());

    // a multiplier that collides (zero maps everything to slot zero)
    let mut bad_magics = magics.clone();
    bad_magics[60].0 = 0;
    assert!(init_rook_attacks(bad_magics, occupancies.clone()).is_err());

    // the untouched records are accepted
    assert!(init_rook_attacks(magics, occupancies).is_ok());
}
