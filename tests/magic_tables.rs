use chess_core::bitboard::Bitboard;
use chess_core::magic::{get_bishop_attacks, get_queen_attacks, get_rook_attacks, init};
use chess_core::magic_simple;

#[test]
fn test_magic_init() {
    init();
}

#[test]
fn magic_test_rook_attacks() {
    let tables = init();

    let attacks = get_rook_attacks(&tables, 0, Bitboard::empty());
    assert!(attacks.has_square(1));
    assert!(attacks.has_square(8));
    assert!(!attacks.has_square(9));

    let mut occupancy = Bitboard::empty();
    occupancy.set_square(1);
    let attacks = get_rook_attacks(&tables, 0, occupancy);
    assert!(!attacks.has_square(2));
    assert!(attacks.has_square(1));
}

#[test]
fn magic_test_bishop_attacks() {
    let tables = init();

    let attacks = get_bishop_attacks(&tables, 0, Bitboard::empty());
    assert!(attacks.has_square(9));
    assert!(!attacks.has_square(1));

    let mut occupancy = Bitboard::empty();
    occupancy.set_square(9);
    let attacks = get_bishop_attacks(&tables, 0, occupancy);
    assert!(!attacks.has_square(18));
    assert!(attacks.has_square(9));
}

#[test]
fn magic_lookups_agree_with_ray_walks() {
    let tables = init();
    let mut seed: u64 = 0x9E37_79B9_7F4A_7C15;
    for _ in 0..200 {
        seed ^= seed << 13;
        seed ^= seed >> 7;
        seed ^= seed << 17;
        let occupancy = Bitboard(seed & (seed >> 3));
        for square in 0..64u8 {
            assert_eq!(
                get_rook_attacks(&tables, square, occupancy),
                magic_simple::get_rook_attacks(square, occupancy)
            );
            assert_eq!(
                get_bishop_attacks(&tables, square, occupancy),
                magic_simple::get_bishop_attacks(square, occupancy)
            );
            assert_eq!(
                get_queen_attacks(&tables, square, occupancy),
                magic_simple::get_queen_attacks(square, occupancy)
            );
        }
    }
}
