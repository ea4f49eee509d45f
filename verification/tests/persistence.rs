use magician::utils::{encode_magics, encode_occupancies, parse_magics, parse_occupancies};

#[test]
fn test_magics_record_layout() {
    let entries = vec![(0x0123_4567_89AB_CDEFu64, 52u8)];
    let bytes = encode_magics(&entries);
    assert_eq!(
        bytes,
        vec![0xEF, 0xCD, 0xAB, 0x89, 0x67, 0x45, 0x23, 0x01, 52]
    );
}

#[test]
fn test_magics_round_trip_empty() {
    let entries: Vec<(u64, u8)> = Vec::new();
    let bytes = encode_magics(&entries);
    assert!(bytes.is_empty());
    assert_eq!(parse_magics(&bytes), entries);
}

#[test]
fn test_magics_round_trip_single() {
    let entries = vec![(0xDEAD_BEEF_0BAD_F00Du64, 9u8)];
    let bytes = encode_magics(&entries);
    assert_eq!(bytes.len(), 9);
    assert_eq!(parse_magics(&bytes), entries);
}

#[test]
fn test_magics_round_trip_full_board() {
    let mut entries: Vec<(u64, u8)> = Vec::new();
    for sq in 0u64..64 {
        entries.push((sq.wrapping_mul(0x9E37_79B9_7F4A_7C15), (64 - 10 + (sq % 5)) as u8));
    }
    let bytes = encode_magics(&entries);
    assert_eq!(bytes.len(), 64 * 9);
    assert_eq!(parse_magics(&bytes), entries);
}

#[test]
fn test_magics_parse_drops_partial_record() {
    let entries = vec![(77u64, 50u8), (0xFFFF_FFFF_FFFF_FFFFu64, 53u8)];
    let mut bytes = encode_magics(&entries);
    bytes.extend_from_slice(&[1, 2, 3, 4]);
    assert_eq!(parse_magics(&bytes), entries);
}

#[test]
fn test_occupancies_round_trip() {
    for n in [0usize, 1, 7, 64] {
        let mut entries: Vec<u64> = Vec::new();
        for sq in 0..n as u64 {
            entries.push(sq.wrapping_mul(0x0101_0101_0101_0101) ^ 0x00FF_00FF_00FF_00FF);
        }
        let bytes = encode_occupancies(&entries);
        assert_eq!(bytes.len(), n * 8);
        assert_eq!(parse_occupancies(&bytes), entries);
    }
}

#[test]
fn test_occupancies_parse_drops_partial_record() {
    let entries = vec![0x1234_5678_9ABC_DEF0u64];
    let mut bytes = encode_occupancies(&entries);
    bytes.push(0xAA);
    assert_eq!(parse_occupancies(&bytes), entries);
}
