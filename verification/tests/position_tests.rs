use lib::consts::{B, BL, CAP, DBL, E, ENP, K, KS, N, P, Q, QPROMO_CAP, QUIET, R, WH};
use lib::position::{Move, Pos, State};

fn start_position() -> Pos {
    let mut pos = Pos::default();
    pos.pc[P] = 0x00FF00000000FF00;
    pos.pc[N] = (1 << 1) | (1 << 6) | (1 << 57) | (1 << 62);
    pos.pc[B] = (1 << 2) | (1 << 5) | (1 << 58) | (1 << 61);
    pos.pc[R] = 1 | (1 << 7) | (1 << 56) | (1 << 63);
    pos.pc[Q] = (1 << 3) | (1 << 59);
    pos.pc[K] = (1 << 4) | (1 << 60);
    pos.s[WH] = 0xFFFF;
    pos.s[BL] = 0xFFFF << 48;
    pos.c = WH;
    pos.state = State { enp: 0, hfm: 0, cr: 15 };
    pos
}

#[test]
fn get_pc_names_each_piece() {
    let pos = start_position();
    assert_eq!(pos.get_pc(1 << 4), K);
    assert_eq!(pos.get_pc(1 << 3), Q);
    assert_eq!(pos.get_pc(1), R);
    assert_eq!(pos.get_pc(1 << 1), N);
    assert_eq!(pos.get_pc(1 << 2), B);
    assert_eq!(pos.get_pc(1 << 12), P);
    assert_eq!(pos.get_pc(1 << 60), K);
    assert_eq!(pos.get_pc(1 << 28), E);
}

#[test]
fn toggle_twice_restores() {
    let mut pos = start_position();
    let before = pos;
    pos.toggle(WH, N, 1 << 18);
    assert_eq!(pos.pc[N], before.pc[N] | (1 << 18));
    assert_eq!(pos.s[WH], before.s[WH] | (1 << 18));
    pos.toggle(WH, N, 1 << 18);
    assert_eq!(pos.pc, before.pc);
    assert_eq!(pos.s, before.s);
}

#[test]
fn attacked_squares_in_starting_position() {
    let pos = start_position();
    let occ = pos.s[0] | pos.s[1];
    // e3 is covered by the white pawns on d2 and f2 (attackers of the side other than black)
    assert!(pos.is_sq_att(20, BL, occ));
    // e4 is covered by nothing
    assert!(!pos.is_sq_att(28, BL, occ));
    assert!(!pos.is_sq_att(28, WH, occ));
    // f6 is covered by the black knight on g8
    assert!(pos.is_sq_att(45, WH, occ));
    // the white king is not attacked
    assert!(!pos.in_check());
}

#[test]
fn rook_attack_seen_through_empty_file() {
    let mut pos = Pos::default();
    pos.pc[R] = 1 << 60;
    pos.s[BL] = 1 << 60;
    pos.pc[K] = 1 << 4;
    pos.s[WH] = 1 << 4;
    assert!(pos.is_sq_att(4, WH, pos.s[0] | pos.s[1]));
    assert!(!pos.is_sq_att(4, WH, pos.s[0] | pos.s[1] | (1 << 20)));
    assert!(pos.in_check());
}

#[test]
fn double_push_sets_en_passant_square() {
    let mut pos = start_position();
    let illegal = pos.do_move(Move { from: 12, to: 28, flag: DBL, mpc: P as u8 });
    assert!(!illegal);
    assert_eq!(pos.c, BL);
    assert_eq!(pos.state.enp, 20);
    assert_eq!(pos.state.hfm, 0);
    assert_eq!(pos.pc[P], 0x00FF00001000EF00);
    assert_eq!(pos.s[WH], 0x1000EFFF);
}

#[test]
fn knight_move_counts_half_moves() {
    let mut pos = start_position();
    pos.state.hfm = 3;
    let illegal = pos.do_move(Move { from: 6, to: 21, flag: QUIET, mpc: N as u8 });
    assert!(!illegal);
    assert_eq!(pos.state.hfm, 4);
    assert_eq!(pos.state.enp, 0);
    assert_eq!(pos.pc[N], (1 << 1) | (1 << 21) | (1 << 57) | (1 << 62));
}

#[test]
fn capture_removes_the_captured_piece() {
    let mut pos = Pos::default();
    pos.pc[K] = (1 << 4) | (1 << 60);
    pos.pc[R] = (1 << 0) | (1 << 56);
    pos.s[WH] = (1 << 4) | 1;
    pos.s[BL] = (1 << 60) | (1 << 56);
    pos.state.cr = 15;
    pos.state.hfm = 7;
    let illegal = pos.do_move(Move { from: 0, to: 56, flag: CAP, mpc: R as u8 });
    assert!(!illegal);
    assert_eq!(pos.pc[R], 1 << 56);
    assert_eq!(pos.s[WH], (1 << 4) | (1 << 56));
    assert_eq!(pos.s[BL], 1 << 60);
    assert_eq!(pos.state.hfm, 0);
    // both the white queen-side right (rook left a1) and the black one (rook taken on a8) go
    assert_eq!(pos.state.cr, 15 & 7 & 13);
}

#[test]
fn castling_moves_the_rook() {
    let mut pos = Pos::default();
    pos.pc[K] = (1 << 4) | (1 << 60);
    pos.pc[R] = 1 << 7;
    pos.s[WH] = (1 << 4) | (1 << 7);
    pos.s[BL] = 1 << 60;
    pos.state.cr = 15;
    let illegal = pos.do_move(Move { from: 4, to: 6, flag: KS, mpc: K as u8 });
    assert!(!illegal);
    assert_eq!(pos.pc[K], (1 << 6) | (1 << 60));
    assert_eq!(pos.pc[R], 1 << 5);
    assert_eq!(pos.s[WH], (1 << 6) | (1 << 5));
    assert_eq!(pos.state.cr, 3);
}

#[test]
fn en_passant_takes_the_pawn_behind() {
    let mut pos = Pos::default();
    pos.pc[K] = (1 << 4) | (1 << 60);
    pos.pc[P] = (1 << 36) | (1 << 35);
    pos.s[WH] = (1 << 4) | (1 << 36);
    pos.s[BL] = (1 << 60) | (1 << 35);
    pos.state.enp = 43;
    let illegal = pos.do_move(Move { from: 36, to: 43, flag: ENP, mpc: P as u8 });
    assert!(!illegal);
    assert_eq!(pos.pc[P], 1 << 43);
    assert_eq!(pos.s[BL], 1 << 60);
    assert_eq!(pos.state.enp, 0);
}

#[test]
fn capturing_promotion_places_the_new_piece() {
    let mut pos = Pos::default();
    pos.pc[K] = (1 << 4) | (1 << 60);
    pos.pc[P] = 1 << 49;
    pos.pc[R] = 1 << 56;
    pos.s[WH] = (1 << 4) | (1 << 49);
    pos.s[BL] = (1 << 60) | (1 << 56);
    pos.state.cr = 2;
    let illegal = pos.do_move(Move { from: 49, to: 56, flag: QPROMO_CAP, mpc: P as u8 });
    assert!(!illegal);
    assert_eq!(pos.pc[P], 0);
    assert_eq!(pos.pc[Q], 1 << 56);
    assert_eq!(pos.pc[R], 0);
    assert_eq!(pos.s[WH], (1 << 4) | (1 << 56));
    assert_eq!(pos.state.cr, 0);
}

#[test]
fn move_into_check_is_reported() {
    let mut pos = Pos::default();
    pos.pc[K] = (1 << 4) | (1 << 60);
    pos.pc[R] = 1 << 63;
    pos.s[WH] = 1 << 4;
    pos.s[BL] = (1 << 60) | (1 << 63);
    let illegal = pos.do_move(Move { from: 4, to: 15, flag: QUIET, mpc: K as u8 });
    assert!(illegal);
    assert_eq!(pos.c, BL);
}

#[test]
fn plain_move_keeps_boards_consistent() {
    let mut pos = start_position();
    let illegal = pos.do_move(Move { from: 1, to: 18, flag: QUIET, mpc: N as u8 });
    assert!(!illegal);
    let mut union: u64 = 0;
    for p in P..=K {
        union |= pos.pc[p];
    }
    assert_eq!(union, pos.s[WH] | pos.s[BL]);
    assert_eq!(pos.s[WH] & pos.s[BL], 0);
    assert_eq!(pos.get_pc(1 << 18), N);
    assert_eq!(pos.get_pc(1 << 1), E);
}

fn occupied_count(pos: &Pos) -> u32 {
    (pos.s[0] | pos.s[1]).count_ones()
}

fn kings_of(pos: &Pos, side: usize) -> u32 {
    (pos.pc[K] & pos.s[side]).count_ones()
}

#[test]
fn occupied_count_drops_only_on_captures() {
    // quiet move: count kept
    let mut pos = start_position();
    let before = occupied_count(&pos);
    pos.do_move(Move { from: 12, to: 28, flag: DBL, mpc: P as u8 });
    assert_eq!(occupied_count(&pos), before);
    // capture: one fewer
    let mut pos = Pos::default();
    pos.pc[K] = (1 << 4) | (1 << 60);
    pos.pc[N] = 1 << 27;
    pos.pc[B] = 1 << 44;
    pos.s[WH] = (1 << 4) | (1 << 27);
    pos.s[BL] = (1 << 60) | (1 << 44);
    let before = occupied_count(&pos);
    pos.do_move(Move { from: 27, to: 44, flag: CAP, mpc: N as u8 });
    assert_eq!(occupied_count(&pos), before - 1);
    assert_eq!(kings_of(&pos, WH), 1);
    assert_eq!(kings_of(&pos, BL), 1);
}

#[test]
fn en_passant_and_castling_counts() {
    let mut pos = Pos::default();
    pos.pc[K] = (1 << 4) | (1 << 60);
    pos.pc[P] = (1 << 36) | (1 << 35);
    pos.s[WH] = (1 << 4) | (1 << 36);
    pos.s[BL] = (1 << 60) | (1 << 35);
    pos.state.enp = 43;
    let before = occupied_count(&pos);
    pos.do_move(Move { from: 36, to: 43, flag: ENP, mpc: P as u8 });
    assert_eq!(occupied_count(&pos), before - 1);

    let mut pos = Pos::default();
    pos.pc[K] = (1 << 4) | (1 << 60);
    pos.pc[R] = 1 << 7;
    pos.s[WH] = (1 << 4) | (1 << 7);
    pos.s[BL] = 1 << 60;
    pos.state.cr = 15;
    let before = occupied_count(&pos);
    pos.do_move(Move { from: 4, to: 6, flag: KS, mpc: K as u8 });
    assert_eq!(occupied_count(&pos), before);
    assert_eq!(kings_of(&pos, WH), 1);
}
