use lib::consts::{B, BL, BPROMO_CAP, DBL, ENP, K, KS, N, P, PROMO_CAP, Q, QPROMO, QPROMO_CAP, QS, R, RPROMO_CAP, WH, PROMO, BPROMO, RPROMO};
use lib::movegen::{
    castles, en_passants, encode, gen, idx_shift, pawn_captures, pawn_pushes, pc_moves, shift,
    MoveList,
};
use lib::position::{Pos, State};

fn code(flag: u8, from: u16, to: u16) -> u16 {
    ((flag as u16) << 12) | (from << 6) | to
}

fn listed(moves: &MoveList) -> Vec<u16> {
    moves.list[..moves.len].to_vec()
}

fn start_position() -> Pos {
    let mut pos = Pos::default();
    pos.pc[P] = 0x00FF00000000FF00;
    pos.pc[N] = (1 << 1) | (1 << 6) | (1 << 57) | (1 << 62);
    pos.pc[B] = (1 << 2) | (1 << 5) | (1 << 58) | (1 << 61);
    pos.pc[R] = 1 | (1 << 7) | (1 << 56) | (1 << 63);
    pos.pc[Q] = (1 << 3) | (1 << 59);
    pos.pc[K] = (1 << 4) | (1 << 60);
    pos.s[WH] = 0xFFFF;
    pos.s[BL] = 0xFFFF << 48;
    pos.c = WH;
    pos.state = State { enp: 0, hfm: 0, cr: 15 };
    pos
}

#[test]
fn new_list_is_empty() {
    let moves = MoveList::default();
    assert_eq!(moves.len, 0);
}

#[test]
fn encode_lists_targets_in_ascending_order() {
    let mut moves = MoveList::default();
    encode(&mut moves, 0b1010 | (1 << 40), 5);
    assert_eq!(listed(&moves), vec![code(0, 5, 1), code(0, 5, 3), code(0, 5, 40)]);
}

#[test]
fn shifts_follow_the_side() {
    assert_eq!(shift::<0, 8>(1 << 16), 1 << 8);
    assert_eq!(shift::<1, 8>(1 << 8), 1 << 16);
    assert_eq!(idx_shift::<0, 8>(8), 16);
    assert_eq!(idx_shift::<1, 16>(48), 32);
}

#[test]
fn starting_position_has_twenty_moves() {
    let pos = start_position();
    let mut moves = MoveList::default();
    gen(&pos, &mut moves);
    let mut expected: Vec<u16> = Vec::new();
    for from in 8..16u16 {
        expected.push(code(0, from, from + 8));
    }
    for from in 8..16u16 {
        expected.push(code(DBL, from, from + 16));
    }
    expected.push(code(0, 1, 16));
    expected.push(code(0, 1, 18));
    expected.push(code(0, 6, 21));
    expected.push(code(0, 6, 23));
    assert_eq!(listed(&moves), expected);
}

#[test]
fn black_pawn_pushes() {
    let mut moves = MoveList::default();
    // pawns on e7 and a2 (about to promote); e6 is free, e5 is taken
    pawn_pushes::<1>(&mut moves, (1 << 52) | (1 << 8) | (1 << 36), (1 << 52) | (1 << 8));
    assert_eq!(
        listed(&moves),
        vec![
            code(0, 52, 44),
            code(QPROMO, 8, 0),
            code(PROMO, 8, 0),
            code(BPROMO, 8, 0),
            code(RPROMO, 8, 0),
        ]
    );
}

#[test]
fn pawn_captures_with_promotion() {
    let mut moves = MoveList::default();
    // white pawns on b7 and e4, black pieces on a8, c8, d5 and f5
    let opps: u64 = (1 << 56) | (1 << 58) | (1 << 35) | (1 << 37);
    pawn_captures(&mut moves, WH, (1 << 49) | (1 << 28), opps);
    assert_eq!(
        listed(&moves),
        vec![
            code(0, 28, 35),
            code(0, 28, 37),
            code(QPROMO_CAP, 49, 56),
            code(PROMO_CAP, 49, 56),
            code(BPROMO_CAP, 49, 56),
            code(RPROMO_CAP, 49, 56),
            code(QPROMO_CAP, 49, 58),
            code(PROMO_CAP, 49, 58),
            code(BPROMO_CAP, 49, 58),
            code(RPROMO_CAP, 49, 58),
        ]
    );
}

#[test]
fn en_passant_from_both_sides() {
    let mut moves = MoveList::default();
    en_passants(&mut moves, WH, (1 << 34) | (1 << 36) | (1 << 12), 43);
    assert_eq!(listed(&moves), vec![code(ENP, 34, 43), code(ENP, 36, 43)]);
}

#[test]
fn castles_when_the_way_is_clear() {
    let mut pos = Pos::default();
    pos.pc[K] = (1 << 4) | (1 << 60);
    pos.pc[R] = 1 | (1 << 7);
    pos.s[WH] = (1 << 4) | 1 | (1 << 7);
    pos.s[BL] = 1 << 60;
    pos.state.cr = 15;
    let occ = pos.s[0] | pos.s[1];
    let mut moves = MoveList::default();
    castles(&mut moves, &pos, occ);
    assert_eq!(listed(&moves), vec![code(QS, 4, 2), code(KS, 4, 6)]);
}

#[test]
fn no_castling_through_attack() {
    let mut pos = Pos::default();
    pos.pc[K] = (1 << 4) | (1 << 60);
    pos.pc[R] = 1 | (1 << 7) | (1 << 61);
    pos.s[WH] = (1 << 4) | 1 | (1 << 7);
    pos.s[BL] = (1 << 60) | (1 << 61);
    pos.state.cr = 15;
    let occ = pos.s[0] | pos.s[1];
    let mut moves = MoveList::default();
    castles(&mut moves, &pos, occ);
    assert_eq!(listed(&moves), vec![code(QS, 4, 2)]);
}

#[test]
fn queen_moves_cover_both_slider_kinds() {
    let mut pos = Pos::default();
    pos.pc[Q] = 1;
    pos.pc[K] = 1 << 2;
    pos.s[WH] = 1 | (1 << 2);
    let occ = pos.s[0] | pos.s[1];
    let mut moves = MoveList::default();
    pc_moves::<6>(&mut moves, &pos, occ, pos.s[WH]);
    let mut expected: Vec<u16> = vec![code(0, 0, 1)];
    for t in [8u16, 9, 16, 18, 24, 27, 32, 36, 40, 45, 48, 54, 56, 63] {
        expected.push(code(0, 0, t));
    }
    assert_eq!(listed(&moves), expected);
}

#[test]
fn king_moves_avoid_friends() {
    let mut pos = Pos::default();
    pos.pc[K] = 1 << 4;
    pos.pc[P] = 1 << 12;
    pos.s[WH] = (1 << 4) | (1 << 12);
    let occ = pos.s[WH];
    let mut moves = MoveList::default();
    pc_moves::<7>(&mut moves, &pos, occ, pos.s[WH]);
    assert_eq!(
        listed(&moves),
        vec![code(0, 4, 3), code(0, 4, 5), code(0, 4, 11), code(0, 4, 13)]
    );
}

#[test]
fn gen_appends_to_existing_moves() {
    let pos = start_position();
    let mut moves = MoveList::default();
    moves.push(7);
    gen(&pos, &mut moves);
    assert_eq!(moves.len, 21);
    assert_eq!(moves.list[0], 7);
    assert_eq!(moves.list[1], code(0, 8, 16));
}

#[test]
fn gen_includes_en_passant_after_double_push() {
    let mut pos = Pos::default();
    pos.pc[K] = (1 << 4) | (1 << 60);
    pos.pc[P] = (1 << 36) | (1 << 35);
    pos.s[WH] = (1 << 4) | (1 << 36);
    pos.s[BL] = (1 << 60) | (1 << 35);
    pos.state.enp = 43;
    let mut moves = MoveList::default();
    gen(&pos, &mut moves);
    let all = listed(&moves);
    assert!(all.contains(&code(ENP, 36, 43)));
    assert!(all.contains(&code(0, 36, 44)));
    assert_eq!(all.len(), 1 + 1 + 5);
}

#[test]
fn generated_moves_decode_to_friendly_origins() {
    let pos = start_position();
    let mut moves = MoveList::default();
    gen(&pos, &mut moves);
    for &m in listed(&moves).iter() {
        let from = (m >> 6) & 63;
        let to = m & 63;
        let flag = m >> 12;
        assert!(pos.s[WH] >> from & 1 == 1);
        assert!(pos.s[WH] >> to & 1 == 0);
        assert!(flag == 0 || flag == DBL as u16);
    }
}

fn boards_agree(pos: &Pos) -> bool {
    let mut union: u64 = 0;
    for p in P..=K {
        for q in (p + 1)..=K {
            if pos.pc[p] & pos.pc[q] != 0 {
                return false;
            }
        }
        union |= pos.pc[p];
    }
    union == pos.s[0] | pos.s[1] && pos.s[0] & pos.s[1] == 0 && pos.pc[0] == 0 && pos.pc[1] == 0
}

#[test]
fn every_generated_quiet_move_keeps_boards_consistent() {
    let mut pos = Pos::default();
    // white: king e1, rooks a1 h1, knight d4, pawns b7 (promoting) e5; black: king e8, pawn d5
    // (just moved two squares), rook a8
    pos.pc[K] = (1 << 4) | (1 << 60);
    pos.pc[R] = 1 | (1 << 7) | (1 << 56);
    pos.pc[N] = 1 << 27;
    pos.pc[P] = (1 << 49) | (1 << 36) | (1 << 35);
    pos.s[WH] = (1 << 4) | 1 | (1 << 7) | (1 << 27) | (1 << 49) | (1 << 36);
    pos.s[BL] = (1 << 60) | (1 << 56) | (1 << 35);
    pos.state = State { enp: 43, hfm: 0, cr: 12 };
    assert!(boards_agree(&pos));
    let mut moves = MoveList::default();
    gen(&pos, &mut moves);
    let occ = pos.s[0] | pos.s[1];
    let mut played = 0;
    for &m in listed(&moves).iter() {
        let from = ((m >> 6) & 63) as u8;
        let to = (m & 63) as u8;
        let flag = (m >> 12) as u8;
        if occ >> to & 1 == 1 && flag < PROMO_CAP {
            continue;
        }
        let mut next = pos;
        let mpc = pos.get_pc(1u64 << from) as u8;
        next.do_move(lib::position::Move { from, to, flag, mpc });
        assert!(boards_agree(&next));
        played += 1;
    }
    assert!(played > 20);
    assert!(listed(&moves).contains(&code(QS, 4, 2)));
    assert!(listed(&moves).contains(&code(KS, 4, 6)));
    assert!(listed(&moves).contains(&code(ENP, 36, 43)));
    assert!(listed(&moves).contains(&code(QPROMO_CAP, 49, 56)));
}

#[test]
fn generation_leaves_entries_past_the_length_alone() {
    let pos = start_position();
    let mut moves = MoveList::default();
    for i in 0..252usize {
        moves.list[i] = 0xBEEF;
    }
    gen(&pos, &mut moves);
    assert_eq!(moves.len, 20);
    for i in 20..252usize {
        assert_eq!(moves.list[i], 0xBEEF);
    }
    moves.push(5);
    assert_eq!(moves.list[20], 5);
    assert_eq!(moves.list[21], 0xBEEF);
    assert_eq!(moves.list[251], 0xBEEF);
}
