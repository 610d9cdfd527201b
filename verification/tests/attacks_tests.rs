use lib::attacks::{batt, east, king_attacks, knight_attacks, pawn_attacks, ratt, west, Mask};

#[test]
fn knight_attacks_match_table_entries() {
    assert_eq!(knight_attacks(0), 132096);
    assert_eq!(knight_attacks(27), 22136263676928);
    assert_eq!(knight_attacks(63), 9077567998918656);
    assert_eq!(knight_attacks(7), 4202496);
}

#[test]
fn king_attacks_match_table_entries() {
    assert_eq!(king_attacks(0), 770);
    assert_eq!(king_attacks(27), 120596463616);
    assert_eq!(king_attacks(63), 4665729213955833856);
    assert_eq!(king_attacks(8), 197123);
}

#[test]
fn pawn_attacks_match_table_entries() {
    assert_eq!(pawn_attacks(0, 0), 512);
    assert_eq!(pawn_attacks(0, 55), 4611686018427387904);
    assert_eq!(pawn_attacks(0, 56), 0);
    assert_eq!(pawn_attacks(1, 7), 0);
    assert_eq!(pawn_attacks(1, 8), 2);
    assert_eq!(pawn_attacks(1, 63), 18014398509481984);
}

#[test]
fn pawn_attacks_are_mirrored_between_sides() {
    for sq in 0..64usize {
        for t in 0..64usize {
            let white_hits = pawn_attacks(0, sq) >> t & 1 == 1;
            let black_back = pawn_attacks(1, t) >> sq & 1 == 1;
            assert_eq!(white_hits, black_back);
        }
    }
}

#[test]
fn masks_of_corner_and_centre() {
    let m = Mask::of(0);
    assert_eq!(m.bit, 1);
    assert_eq!(m.diag, 0x8040201008040200);
    assert_eq!(m.anti, 0);
    assert_eq!(m.file, 0x0101010101010100);
    let m = Mask::of(27);
    assert_eq!(m.bit, 1 << 27);
    assert_eq!(m.diag, 0x8040201000040201);
    assert_eq!(m.anti, 0x0001020400102040);
    assert_eq!(m.file, 0x0808080800080808);
}

#[test]
fn rank_halves() {
    assert_eq!(west(10), 0x300);
    assert_eq!(east(10), 0xF800);
    assert_eq!(west(0), 0);
    assert_eq!(east(63), 0);
    assert_eq!(east(56), 0xFE00000000000000);
}

#[test]
fn sliders_on_empty_board() {
    assert_eq!(ratt(0, 0), 0x01010101010101FE);
    assert_eq!(batt(0, 0), 0x8040201008040200);
    assert_eq!(batt(27, 0), 9241705379636978241);
    assert_eq!(ratt(27, 0), 578721386714368008);
}

#[test]
fn sliders_stop_at_blockers() {
    let occ: u64 = 43981572932096;
    assert_eq!(ratt(27, occ), 8832432996352);
    assert_eq!(batt(27, occ), 318944272720448);
}

#[test]
fn sliders_in_starting_position() {
    let start: u64 = 0xFFFF | (0xFFFF << 48);
    assert_eq!(ratt(0, start), 258);
    assert_eq!(batt(2, start), 2560);
}

#[test]
fn slider_attacks_are_symmetric() {
    let occ: u64 = 0x0022_4400_1088_2400;
    for a in 0..64usize {
        for b in 0..64usize {
            assert_eq!(ratt(a, occ) >> b & 1, ratt(b, occ) >> a & 1);
            assert_eq!(batt(a, occ) >> b & 1, batt(b, occ) >> a & 1);
        }
    }
}

#[test]
fn swap_bytes_reverses_bytes() {
    assert_eq!(lib::bits::swap_bytes(0x0102030405060708), 0x0807060504030201);
    assert_eq!(lib::bits::swap_bytes(1), 1 << 56);
}
