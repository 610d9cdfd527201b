//! Laws of the generator. Each group of moves is characterised by the geometry of the board:
//! pawn pushes, pawn captures, en-passant captures, castling (right held, squares between empty,
//! passed square not attacked, never while in check) and piece moves; `gen` leaves none of them
//! out; and on a consistent board whose castling rights and en-passant square agree with the
//! pieces, every generated move that does not land on an occupied square without a capture flag
//! is a move the board allows.
use vstd::prelude::*;
use crate::consts::{
    SIDES, WH, BL, P, N, B, R, Q, K, QUIET, DBL, KS, QS, ENP, PROMO, QPROMO, PROMO_CAP, QPROMO_CAP, WQS, WKS,
    BQS, BKS, B1C1D1, F1G1, B8C8D8, F8G8,
};
use crate::bits::{has_bit, bb_set, is_square, squares, squares_from, lemma_squares_members, lemma_bb_ops};
use crate::attacks::{
    pawn_targets, pawn_step, rank_of, lemma_pawn_symmetric, knight_step, king_step, rook_attacks,
    bishop_attacks,
};
use crate::position::{
    Board, Move, holds, occupied, consistent, piece_on, well_formed_move,
    plain_move, promotion, en_passant, castling, ep_victim, king_home,
    castle_rook_from, attacked, after_move, king_square, lemma_do_move_consistent, lemma_piece_on_holds,
};
use crate::movegen::{
    code, code_flag, code_from, code_to, single, promos, plain_from, step_by, promo_by,
    push_sources, promo_sources, dbl_sources, pawn_push_moves, pen_set, capture_from,
    promo_capture_to, promo_capture_from, pawn_capture_moves, ep_from, ep_moves, castle_moves,
    attack_set, piece_moves, gen_castles, gen_ep, gen_moves, in_check_spec, forward, lemma_code_fields,
    lemma_flat_map_contains, lemma_piece_moves_members,
};

verus! {

/// The move `do_move` takes for an encoded move on `b`: the moving piece is the one on the
/// origin square.
pub open spec fn decode(b: Board, m: u16) -> Move {
    Move {
        from: code_from(m) as u8,
        to: code_to(m) as u8,
        flag: code_flag(m) as u8,
        mpc: piece_on(b, code_from(m)) as u8,
    }
}

/// Each castling right still held has its king and rook on their home squares.
pub open spec fn rights_agree(b: Board) -> bool {
    &&& b.cr & WKS != 0 ==> castle_home(b, WH as int, KS)
    &&& b.cr & WQS != 0 ==> castle_home(b, WH as int, QS)
    &&& b.cr & BKS != 0 ==> castle_home(b, BL as int, KS)
    &&& b.cr & BQS != 0 ==> castle_home(b, BL as int, QS)
}

/// The king and a rook of `side` stand where castling of kind `flag` starts.
pub open spec fn castle_home(b: Board, side: int, flag: u8) -> bool {
    &&& holds(b, K as int, king_home(side))
    &&& bb_set(b.s[side]).contains(king_home(side))
    &&& holds(b, R as int, castle_rook_from(side, flag))
    &&& bb_set(b.s[side]).contains(castle_rook_from(side, flag))
}

/// A set en-passant square is empty, with a pawn of the side that just moved in front of it.
pub open spec fn ep_agrees(b: Board) -> bool {
    b.enp > 0 ==> {
        &&& is_square(b.enp as int)
        &&& !occupied(b, b.enp as int)
        &&& is_square(ep_victim(b.c, b.enp as int))
        &&& holds(b, P as int, ep_victim(b.c, b.enp as int))
        &&& bb_set(b.s[1 - b.c]).contains(ep_victim(b.c, b.enp as int))
    }
}

/// An element of a concatenation comes from one of the parts.
proof fn lemma_add_contains<A>(x: Seq<A>, y: Seq<A>, m: A)
    requires
        (x + y).contains(m),
    ensures
        x.contains(m) || y.contains(m),
{
    let k = choose|k: int| 0 <= k < (x + y).len() && (x + y)[k] == m;
    if k < x.len() {
        assert(x[k] == m);
    } else {
        assert(y[k - x.len()] == m);
    }
}

/// An element of a flat map over a list of squares comes from a member of the set.
proof fn lemma_flat_member(s: Set<int>, g: spec_fn(int) -> Seq<u16>, m: u16) -> (sq: int)
    requires
        squares(s).flat_map(g).contains(m),
    ensures
        s.contains(sq),
        is_square(sq),
        g(sq).contains(m),
{
    lemma_flat_map_contains(squares(s), g, m);
    lemma_squares_members(s, 0);
    let i = choose|i: int| 0 <= i < squares(s).len() && #[trigger] g(squares(s)[i]).contains(m);
    assert(s.contains(squares_from(s, 0)[i]));
    squares(s)[i]
}

/// A generated pawn push is a pawn stepping to an empty square.
proof fn lemma_push_member(side: int, occ: Set<int>, pawns: Set<int>, m: u16) -> (r: (int, int, int))
    requires
        pawn_push_moves(side, occ, pawns).contains(m),
    ensures
        m == code(r.2, r.0, r.1),
        pawns.contains(r.0),
        is_square(r.0),
        is_square(r.1),
        !occ.contains(r.1),
        r.2 == QUIET || r.2 == DBL || PROMO <= r.2 <= QPROMO,
{
    reveal(pawn_push_moves);
    let fwd = forward(side);
    let s1 = squares(push_sources(side, occ, pawns)).flat_map(step_by(QUIET as int, fwd));
    let s2 = squares(promo_sources(side, occ, pawns)).flat_map(promo_by(fwd));
    let s3 = squares(dbl_sources(side, occ, pawns)).flat_map(step_by(DBL as int, 2 * fwd));
    lemma_add_contains(s1 + s2, s3, m);
    if (s1 + s2).contains(m) {
        lemma_add_contains(s1, s2, m);
        if s1.contains(m) {
            let p = lemma_flat_member(push_sources(side, occ, pawns), step_by(QUIET as int, fwd), m);
            assert(step_by(QUIET as int, fwd)(p)[0] == m);
            (p, p + fwd, QUIET as int)
        } else {
            let p = lemma_flat_member(promo_sources(side, occ, pawns), promo_by(fwd), m);
            let ps = promos(p, p + fwd, 0);
            assert(promo_by(fwd)(p) == ps);
            let k = choose|k: int| 0 <= k < ps.len() && ps[k] == m;
            let fl = if k == 0 {
                QPROMO as int
            } else if k == 1 {
                PROMO as int
            } else if k == 2 {
                PROMO as int + 1
            } else {
                PROMO as int + 2
            };
            (p, p + fwd, fl)
        }
    } else {
        let p = lemma_flat_member(dbl_sources(side, occ, pawns), step_by(DBL as int, 2 * fwd), m);
        assert(step_by(DBL as int, 2 * fwd)(p)[0] == m);
        (p, p + 2 * fwd, DBL as int)
    }
}

/// A generated pawn capture is a pawn of `pawns` taking on a square of `opps`.
proof fn lemma_capture_member(side: int, pawns: Set<int>, opps: Set<int>, m: u16) -> (r: (
    int,
    int,
    int,
))
    requires
        pawn_capture_moves(side, pawns, opps).contains(m),
    ensures
        m == code(r.2, r.0, r.1),
        pawns.contains(r.0),
        is_square(r.0),
        is_square(r.1),
        opps.contains(r.1),
        r.2 == QUIET || PROMO_CAP <= r.2 <= QPROMO_CAP,
{
    reveal(pawn_capture_moves);
    let s1 = squares(pawns.difference(pen_set(side))).flat_map(capture_from(side, opps));
    let s2 = squares(pawns.intersect(pen_set(side))).flat_map(promo_capture_from(side, opps));
    lemma_add_contains(s1, s2, m);
    if s1.contains(m) {
        let p = lemma_flat_member(pawns.difference(pen_set(side)), capture_from(side, opps), m);
        let tg = pawn_targets(side, p).intersect(opps);
        assert(capture_from(side, opps)(p) == squares(tg).flat_map(plain_from(p)));
        let t = lemma_flat_member(tg, plain_from(p), m);
        assert(plain_from(p)(t)[0] == m);
        (p, t, QUIET as int)
    } else {
        let p = lemma_flat_member(pawns.intersect(pen_set(side)), promo_capture_from(side, opps), m);
        let tg = pawn_targets(side, p).intersect(opps);
        assert(promo_capture_from(side, opps)(p) == squares(tg).flat_map(promo_capture_to(p)));
        let t = lemma_flat_member(tg, promo_capture_to(p), m);
        let ps = promos(p, t, 4);
        assert(promo_capture_to(p)(t) == ps);
        let k = choose|k: int| 0 <= k < ps.len() && ps[k] == m;
        let fl = if k == 0 {
            QPROMO_CAP as int
        } else if k == 1 {
            PROMO_CAP as int
        } else if k == 2 {
            PROMO_CAP as int + 1
        } else {
            PROMO_CAP as int + 2
        };
        (p, t, fl)
    }
}

/// A generated en-passant capture is a pawn of `pawns` taking onto `sq`.
proof fn lemma_ep_member(side: int, pawns: Set<int>, sq: int, m: u16) -> (a: int)
    requires
        ep_moves(side, pawns, sq).contains(m),
    ensures
        m == code(ENP as int, a, sq),
        pawns.contains(a),
        is_square(a),
        pawn_targets(1 - side, sq).contains(a),
{
    reveal(ep_moves);
    let a = lemma_flat_member(pawn_targets(1 - side, sq).intersect(pawns), ep_from(sq), m);
    assert(ep_from(sq)(a)[0] == m);
    a
}

/// The squares between king and rook that castling checks.
proof fn lemma_castle_masks(occ: u64)
    ensures
        (occ & B1C1D1 == 0) == (!bb_set(occ).contains(1) && !bb_set(occ).contains(2)
            && !bb_set(occ).contains(3)),
        (occ & F1G1 == 0) == (!bb_set(occ).contains(5) && !bb_set(occ).contains(6)),
        (occ & B8C8D8 == 0) == (!bb_set(occ).contains(57) && !bb_set(occ).contains(58)
            && !bb_set(occ).contains(59)),
        (occ & F8G8 == 0) == (!bb_set(occ).contains(61) && !bb_set(occ).contains(62)),
{
    assert((occ & 14u64 == 0) == (!has_bit(occ, 1) && !has_bit(occ, 2) && !has_bit(occ, 3)) && (
    occ & 96u64 == 0) == (!has_bit(occ, 5) && !has_bit(occ, 6)) && (occ & 0x0E00000000000000u64
        == 0) == (!has_bit(occ, 57) && !has_bit(occ, 58) && !has_bit(occ, 59)) && (occ
        & 0x6000000000000000u64 == 0) == (!has_bit(occ, 61) && !has_bit(occ, 62)))
        by (bit_vector);
}

/// A generated castling move is one of the four, for the side to move, with its right held and
/// the squares between king and rook empty.
proof fn lemma_castle_member(b: Board, occ: u64, m: u16)
    requires
        castle_moves(b, occ).contains(m),
    ensures
        ({
            let home = king_home(b.c);
            ||| m == code(QS as int, home, home - 2) && (b.c == WH ==> b.cr & WQS != 0) && (b.c
                != WH ==> b.cr & BQS != 0) && !bb_set(occ).contains(home - 1) && !bb_set(
                occ,
            ).contains(home - 2)
            ||| m == code(KS as int, home, home + 2) && (b.c == WH ==> b.cr & WKS != 0) && (b.c
                != WH ==> b.cr & BKS != 0) && !bb_set(occ).contains(home + 1) && !bb_set(
                occ,
            ).contains(home + 2)
        }),
{
    reveal(castle_moves);
    lemma_castle_masks(occ);
    let os = bb_set(occ);
    if b.c == WH {
        let q = if b.cr & WQS != 0 && occ & B1C1D1 == 0 && !attacked(b, 3, WH as int, os) {
            single(QS as int, 4, 2)
        } else {
            Seq::empty()
        };
        let k = if b.cr & WKS != 0 && occ & F1G1 == 0 && !attacked(b, 5, WH as int, os) {
            single(KS as int, 4, 6)
        } else {
            Seq::empty()
        };
        lemma_add_contains(q, k, m);
        if q.contains(m) {
            assert(q[0] == m);
        } else {
            assert(k[0] == m);
        }
    } else {
        let q = if b.cr & BQS != 0 && occ & B8C8D8 == 0 && !attacked(b, 59, BL as int, os) {
            single(QS as int, 60, 58)
        } else {
            Seq::empty()
        };
        let k = if b.cr & BKS != 0 && occ & F8G8 == 0 && !attacked(b, 61, BL as int, os) {
            single(KS as int, 60, 62)
        } else {
            Seq::empty()
        };
        lemma_add_contains(q, k, m);
        if q.contains(m) {
            assert(q[0] == m);
        } else {
            assert(k[0] == m);
        }
    }
}

/// Decoding a move packed from a flag, an origin and a destination.
proof fn lemma_decode(b: Board, flag: int, from: int, to: int, m: u16)
    requires
        0 <= flag < 16,
        is_square(from),
        is_square(to),
        m == code(flag, from, to),
    ensures
        decode(b, m).flag as int == flag,
        decode(b, m).from as int == from,
        decode(b, m).to as int == to,
        decode(b, m).mpc as int == piece_on(b, from),
        code_to(m) == to,
        code_flag(m) == flag,
{
    lemma_code_fields(flag, from, to);
    assert(0 <= piece_on(b, from) <= K);
}

/// The generated moves that `do_move` plays as intended: on a consistent board whose castling
/// rights and en-passant square agree with the pieces, every generated move is a move the board
/// allows, unless it lands on an occupied square without a capture flag (the generator gives
/// plain captures the flag 0).
pub proof fn lemma_gen_sound(b: Board, m: u16)
    requires
        consistent(b),
        b.c == WH || b.c == BL,
        rights_agree(b),
        ep_agrees(b),
        gen_moves(b).contains(m),
        !occupied(b, code_to(m)) || code_flag(m) >= PROMO_CAP,
    ensures
        well_formed_move(b, decode(b, m)),
{
    let c = b.c;
    let occ = bb_set(b.s[0] | b.s[1]);
    let friends = bb_set(b.s[c]);
    let pawns = bb_set(b.pc[P as int] & b.s[c]);
    lemma_bb_ops(b.s[0], b.s[1]);
    lemma_bb_ops(b.pc[P as int], b.s[c]);
    assert forall|a: int| #[trigger] occ.contains(a) == occupied(b, a) by {}
    let a1 = pawn_push_moves(c, occ, pawns);
    let a2 = gen_castles(b);
    let a3 = pawn_capture_moves(c, pawns, bb_set(b.s[1 - c]));
    let a4 = gen_ep(b);
    let a5 = piece_moves(N as int, bb_set(b.pc[N as int]), occ, friends);
    let a6 = piece_moves(B as int, bb_set(b.pc[B as int]), occ, friends);
    let a7 = piece_moves(R as int, bb_set(b.pc[R as int]), occ, friends);
    let a8 = piece_moves(Q as int, bb_set(b.pc[Q as int]), occ, friends);
    let a9 = piece_moves(K as int, bb_set(b.pc[K as int]), occ, friends);
    let p2 = a1 + a2;
    let p3 = p2 + a3;
    let p4 = p3 + a4;
    let p5 = p4 + a5;
    let p6 = p5 + a6;
    let p7 = p6 + a7;
    let p8 = p7 + a8;
    assert(gen_moves(b) == p8 + a9);
    lemma_add_contains(p8, a9, m);
    if p8.contains(m) {
        lemma_add_contains(p7, a8, m);
        if p7.contains(m) {
            lemma_add_contains(p6, a7, m);
            if p6.contains(m) {
                lemma_add_contains(p5, a6, m);
                if p5.contains(m) {
                    lemma_add_contains(p4, a5, m);
                    if p4.contains(m) {
                        lemma_add_contains(p3, a4, m);
                        if p3.contains(m) {
                            lemma_add_contains(p2, a3, m);
                            if p2.contains(m) {
                                lemma_add_contains(a1, a2, m);
                                if a1.contains(m) {
                                    lemma_sound_push(b, m);
                                } else {
                                    lemma_sound_castle(b, m);
                                }
                            } else {
                                lemma_sound_capture(b, m);
                            }
                        } else {
                            lemma_sound_ep(b, m);
                        }
                    } else {
                        lemma_sound_piece(b, N as int, m);
                    }
                } else {
                    lemma_sound_piece(b, B as int, m);
                }
            } else {
                lemma_sound_piece(b, R as int, m);
            }
        } else {
            lemma_sound_piece(b, Q as int, m);
        }
    } else {
        lemma_sound_piece(b, K as int, m);
    }
}

proof fn lemma_sound_push(b: Board, m: u16)
    requires
        consistent(b),
        b.c == WH || b.c == BL,
        pawn_push_moves(b.c, bb_set(b.s[0] | b.s[1]), bb_set(b.pc[P as int] & b.s[b.c])).contains(m),
    ensures
        well_formed_move(b, decode(b, m)),
{
    let c = b.c;
    lemma_bb_ops(b.s[0], b.s[1]);
    lemma_bb_ops(b.pc[P as int], b.s[c]);
    let (from, to, fl) = lemma_push_member(c, bb_set(b.s[0] | b.s[1]), bb_set(b.pc[P as int] & b.s[c]), m);
    lemma_decode(b, fl, from, to, m);
    lemma_piece_on_holds(b, P as int, from);
    if fl == QUIET || fl == DBL {
        assert(plain_move(b, decode(b, m)));
    } else {
        assert(promotion(b, decode(b, m)));
    }
}

proof fn lemma_sound_capture(b: Board, m: u16)
    requires
        consistent(b),
        b.c == WH || b.c == BL,
        pawn_capture_moves(b.c, bb_set(b.pc[P as int] & b.s[b.c]), bb_set(b.s[1 - b.c])).contains(m),
        !occupied(b, code_to(m)) || code_flag(m) >= PROMO_CAP,
    ensures
        well_formed_move(b, decode(b, m)),
{
    let c = b.c;
    lemma_bb_ops(b.pc[P as int], b.s[c]);
    let (from, to, fl) = lemma_capture_member(c, bb_set(b.pc[P as int] & b.s[c]), bb_set(b.s[1 - c]), m);
    lemma_decode(b, fl, from, to, m);
    lemma_piece_on_holds(b, P as int, from);
    assert(occupied(b, to));
    assert(promotion(b, decode(b, m)));
}

proof fn lemma_sound_ep(b: Board, m: u16)
    requires
        consistent(b),
        b.c == WH || b.c == BL,
        ep_agrees(b),
        gen_ep(b).contains(m),
    ensures
        well_formed_move(b, decode(b, m)),
{
    let c = b.c;
    lemma_bb_ops(b.pc[P as int], b.s[c]);
    assert(b.enp > 0);
    let a = lemma_ep_member(c, bb_set(b.pc[P as int] & b.s[c]), b.enp as int, m);
    lemma_decode(b, ENP as int, a, b.enp as int, m);
    lemma_piece_on_holds(b, P as int, a);
    assert(en_passant(b, decode(b, m)));
}

proof fn lemma_sound_castle(b: Board, m: u16)
    requires
        consistent(b),
        b.c == WH || b.c == BL,
        rights_agree(b),
        gen_castles(b).contains(m),
    ensures
        well_formed_move(b, decode(b, m)),
{
    let c = b.c;
    let occ = b.s[0] | b.s[1];
    lemma_bb_ops(b.s[0], b.s[1]);
    assert(castle_moves(b, occ).contains(m));
    lemma_castle_member(b, occ, m);
    let home = king_home(c);
    if m == code(QS as int, home, home - 2) && !bb_set(occ).contains(home - 1) && !bb_set(occ).contains(home - 2) && (c == WH ==> b.cr & WQS != 0) && (c != WH ==> b.cr & BQS != 0) {
        lemma_decode(b, QS as int, home, home - 2, m);
        assert(castle_home(b, c, QS));
        lemma_piece_on_holds(b, K as int, home);
        assert(castling(b, decode(b, m)));
    } else {
        lemma_decode(b, KS as int, home, home + 2, m);
        assert(castle_home(b, c, KS));
        lemma_piece_on_holds(b, K as int, home);
        assert(castling(b, decode(b, m)));
    }
}

proof fn lemma_sound_piece(b: Board, kind: int, m: u16)
    requires
        consistent(b),
        b.c == WH || b.c == BL,
        P < kind <= K,
        piece_moves(kind, bb_set(b.pc[kind]), bb_set(b.s[0] | b.s[1]), bb_set(b.s[b.c])).contains(m),
        !occupied(b, code_to(m)) || code_flag(m) >= PROMO_CAP,
    ensures
        well_formed_move(b, decode(b, m)),
{
    let c = b.c;
    let occ = bb_set(b.s[0] | b.s[1]);
    let friends = bb_set(b.s[c]);
    lemma_piece_moves_members(kind, bb_set(b.pc[kind]), occ, friends, m);
    let (from, to) = choose|from: int, to: int|
        #![trigger code(QUIET as int, from, to)]
        is_square(from) && bb_set(b.pc[kind]).contains(from) && friends.contains(from) && attack_set(
            kind,
            from,
            occ,
        ).contains(to) && !friends.contains(to) && is_square(to) && m == code(QUIET as int, from, to);
    lemma_decode(b, QUIET as int, from, to, m);
    lemma_piece_on_holds(b, kind, from);
    assert(!occupied(b, to));
    assert(plain_move(b, decode(b, m)));
}

/// Playing a generated move, other than a capture the generator gives the flag 0, keeps the
/// bitboards of a consistent board consistent.
pub proof fn lemma_gen_move_keeps_consistent(b: Board, m: u16)
    requires
        consistent(b),
        b.c == WH || b.c == BL,
        rights_agree(b),
        ep_agrees(b),
        gen_moves(b).contains(m),
        !occupied(b, code_to(m)) || code_flag(m) >= PROMO_CAP,
    ensures
        consistent(after_move(b, decode(b, m))),
{
    lemma_gen_sound(b, m);
    lemma_do_move_consistent(b, decode(b, m));
}

/// The en-passant captures onto `sq` are exactly the captures by the pawns of `side` that
/// attack `sq`, one move each.
pub proof fn lemma_ep_moves_exact(side: int, pawns: Set<int>, sq: int, m: u16)
    requires
        side == WH || side == BL,
        is_square(sq),
    ensures
        ep_moves(side, pawns, sq).contains(m) <==> exists|a: int|
            pawns.contains(a) && #[trigger] pawn_step(side, a, sq) && m == code(ENP as int, a, sq),
{
    if ep_moves(side, pawns, sq).contains(m) {
        let a = lemma_ep_member(side, pawns, sq, m);
        lemma_pawn_symmetric(1 - side, sq, a);
        assert(pawn_step(1 - side, sq, a));
        assert(pawn_step(side, a, sq));
        assert(pawns.contains(a) && pawn_step(side, a, sq) && m == code(ENP as int, a, sq));
    }
    if exists|a: int| pawns.contains(a) && #[trigger] pawn_step(side, a, sq) && m == code(
        ENP as int,
        a,
        sq,
    ) {
        let a = choose|a: int|
            pawns.contains(a) && #[trigger] pawn_step(side, a, sq) && m == code(ENP as int, a, sq);
        lemma_pawn_symmetric(1 - side, sq, a);
        let src = pawn_targets(1 - side, sq).intersect(pawns);
        assert(src.contains(a));
        lemma_squares_members(src, 0);
        assert(squares(src).contains(a));
        let i = choose|i: int| 0 <= i < squares(src).len() && squares(src)[i] == a;
        assert(ep_from(sq)(squares(src)[i])[0] == m);
        assert(ep_from(sq)(squares(src)[i]).contains(m));
        lemma_flat_map_contains(squares(src), ep_from(sq), m);
        reveal(ep_moves);
        assert(ep_moves(side, pawns, sq) == squares(src).flat_map(ep_from(sq)));
    }
}

/// A generated pawn push moves a pawn of `pawns` one square forward onto an empty square, or
/// two squares forward from its starting rank over an empty square onto an empty square;
/// exactly the single steps onto the last rank are promotions.
pub proof fn lemma_pawn_push_moves_sound(side: int, occ: Set<int>, pawns: Set<int>, m: u16)
    requires
        side == WH || side == BL,
        pawn_push_moves(side, occ, pawns).contains(m),
    ensures
        ({
            let from = code_from(m);
            let to = code_to(m);
            let fl = code_flag(m);
            let d: int = if side == WH {
                8
            } else {
                -8
            };
            &&& pawns.contains(from)
            &&& is_square(from)
            &&& is_square(to)
            &&& !occ.contains(to)
            &&& fl == QUIET || fl == DBL || PROMO <= fl <= QPROMO
            &&& fl == DBL ==> to == from + 2 * d && !occ.contains(from + d) && rank_of(from) == (
            if side == WH {
                1int
            } else {
                6int
            })
            &&& fl != DBL ==> to == from + d
            &&& (PROMO <= fl <= QPROMO) == (rank_of(to) == (if side == WH {
                7int
            } else {
                0int
            }))
        }),
{
    reveal(pawn_push_moves);
    let fwd = forward(side);
    let s1 = squares(push_sources(side, occ, pawns)).flat_map(step_by(QUIET as int, fwd));
    let s2 = squares(promo_sources(side, occ, pawns)).flat_map(promo_by(fwd));
    let s3 = squares(dbl_sources(side, occ, pawns)).flat_map(step_by(DBL as int, 2 * fwd));
    lemma_add_contains(s1 + s2, s3, m);
    if (s1 + s2).contains(m) {
        lemma_add_contains(s1, s2, m);
        if s1.contains(m) {
            let p = lemma_flat_member(push_sources(side, occ, pawns), step_by(QUIET as int, fwd), m);
            assert(step_by(QUIET as int, fwd)(p)[0] == m);
            lemma_code_fields(QUIET as int, p, p + fwd);
        } else {
            let p = lemma_flat_member(promo_sources(side, occ, pawns), promo_by(fwd), m);
            let ps = promos(p, p + fwd, 0);
            assert(promo_by(fwd)(p) == ps);
            let k = choose|k: int| 0 <= k < ps.len() && ps[k] == m;
            let fl = if k == 0 {
                QPROMO as int
            } else if k == 1 {
                PROMO as int
            } else if k == 2 {
                PROMO as int + 1
            } else {
                PROMO as int + 2
            };
            assert(m == code(fl, p, p + fwd));
            lemma_code_fields(fl, p, p + fwd);
        }
    } else {
        let p = lemma_flat_member(dbl_sources(side, occ, pawns), step_by(DBL as int, 2 * fwd), m);
        assert(step_by(DBL as int, 2 * fwd)(p)[0] == m);
        lemma_code_fields(DBL as int, p, p + 2 * fwd);
    }
}

/// The castling moves are exactly these: queen-side when the right is held, the three squares
/// between king and rook are empty and the square the king passes over is not attacked;
/// king-side when the right is held, the two squares between are empty and the square the king
/// passes over is not attacked.
pub proof fn lemma_castle_moves_exact(b: Board, occ: u64, m: u16)
    requires
        b.c == WH || b.c == BL,
    ensures
        castle_moves(b, occ).contains(m) <==> ({
            let home = king_home(b.c);
            let os = bb_set(occ);
            ||| m == code(QS as int, home, home - 2) && b.cr & (if b.c == WH {
                WQS
            } else {
                BQS
            }) != 0 && !os.contains(home - 1) && !os.contains(home - 2) && !os.contains(home - 3)
                && !attacked(b, home - 1, b.c, os)
            ||| m == code(KS as int, home, home + 2) && b.cr & (if b.c == WH {
                WKS
            } else {
                BKS
            }) != 0 && !os.contains(home + 1) && !os.contains(home + 2) && !attacked(
                b,
                home + 1,
                b.c,
                os,
            )
        }),
{
    reveal(castle_moves);
    lemma_castle_masks(occ);
    let home = king_home(b.c);
    lemma_code_fields(QS as int, home, home - 2);
    lemma_code_fields(KS as int, home, home + 2);
    assert(code(QS as int, home, home - 2) != code(KS as int, home, home + 2));
    let os = bb_set(occ);
    if b.c == WH {
        let q = if b.cr & WQS != 0 && occ & B1C1D1 == 0 && !attacked(b, 3, WH as int, os) {
            single(QS as int, 4, 2)
        } else {
            Seq::empty()
        };
        let k = if b.cr & WKS != 0 && occ & F1G1 == 0 && !attacked(b, 5, WH as int, os) {
            single(KS as int, 4, 6)
        } else {
            Seq::empty()
        };
        assert(castle_moves(b, occ) == q + k);
        if castle_moves(b, occ).contains(m) {
            lemma_add_contains(q, k, m);
        }
        if q.len() > 0 {
            assert((q + k)[0] == q[0]);
        }
        if k.len() > 0 {
            assert((q + k)[q.len() as int] == k[0]);
        }
    } else {
        let q = if b.cr & BQS != 0 && occ & B8C8D8 == 0 && !attacked(b, 59, BL as int, os) {
            single(QS as int, 60, 58)
        } else {
            Seq::empty()
        };
        let k = if b.cr & BKS != 0 && occ & F8G8 == 0 && !attacked(b, 61, BL as int, os) {
            single(KS as int, 60, 62)
        } else {
            Seq::empty()
        };
        assert(castle_moves(b, occ) == q + k);
        if castle_moves(b, occ).contains(m) {
            lemma_add_contains(q, k, m);
        }
        if q.len() > 0 {
            assert((q + k)[0] == q[0]);
        }
        if k.len() > 0 {
            assert((q + k)[q.len() as int] == k[0]);
        }
    }
}

/// The flag of a generated move that is not a castling move.
proof fn lemma_flag_not_castle(fl: int, from: int, to: int, m: u16)
    requires
        0 <= fl < 16,
        fl != KS,
        fl != QS,
        is_square(from),
        is_square(to),
        m == code(fl, from, to),
    ensures
        code_flag(m) != KS && code_flag(m) != QS,
{
    lemma_code_fields(fl, from, to);
}

/// No castling while in check: when the king of the side to move is attacked, `gen` adds no
/// move with the king-side or queen-side castling flag.
pub proof fn lemma_gen_no_castling_in_check(b: Board, m: u16)
    requires
        b.c == WH || b.c == BL,
        b.enp < 64,
        attacked(b, king_square(b, b.c), b.c, bb_set(b.s[0] | b.s[1])),
        gen_moves(b).contains(m),
    ensures
        code_flag(m) != KS && code_flag(m) != QS,
{
    let c = b.c;
    let occ = bb_set(b.s[0] | b.s[1]);
    let friends = bb_set(b.s[c]);
    let pawns = bb_set(b.pc[P as int] & b.s[c]);
    let a1 = pawn_push_moves(c, occ, pawns);
    let a2 = gen_castles(b);
    let a3 = pawn_capture_moves(c, pawns, bb_set(b.s[1 - c]));
    let a4 = gen_ep(b);
    let a5 = piece_moves(N as int, bb_set(b.pc[N as int]), occ, friends);
    let a6 = piece_moves(B as int, bb_set(b.pc[B as int]), occ, friends);
    let a7 = piece_moves(R as int, bb_set(b.pc[R as int]), occ, friends);
    let a8 = piece_moves(Q as int, bb_set(b.pc[Q as int]), occ, friends);
    let a9 = piece_moves(K as int, bb_set(b.pc[K as int]), occ, friends);
    assert(gen_moves(b) == a1 + a2 + a3 + a4 + a5 + a6 + a7 + a8 + a9);
    assert(in_check_spec(b));
    assert(a2 == Seq::<u16>::empty());
    let kind: int = if (a1 + a2 + a3 + a4 + a5 + a6 + a7 + a8).contains(m) {
        lemma_add_contains(a1 + a2 + a3 + a4 + a5 + a6 + a7, a8, m);
        if (a1 + a2 + a3 + a4 + a5 + a6 + a7).contains(m) {
            lemma_add_contains(a1 + a2 + a3 + a4 + a5 + a6, a7, m);
            if (a1 + a2 + a3 + a4 + a5 + a6).contains(m) {
                lemma_add_contains(a1 + a2 + a3 + a4 + a5, a6, m);
                if (a1 + a2 + a3 + a4 + a5).contains(m) {
                    lemma_add_contains(a1 + a2 + a3 + a4, a5, m);
                    if (a1 + a2 + a3 + a4).contains(m) {
                        lemma_add_contains(a1 + a2 + a3, a4, m);
                        if (a1 + a2 + a3).contains(m) {
                            lemma_add_contains(a1 + a2, a3, m);
                            if (a1 + a2).contains(m) {
                                lemma_add_contains(a1, a2, m);
                                let (from, to, fl) = lemma_push_member(c, occ, pawns, m);
                                lemma_flag_not_castle(fl, from, to, m);
                                0
                            } else {
                                let (from, to, fl) = lemma_capture_member(
                                    c,
                                    pawns,
                                    bb_set(b.s[1 - c]),
                                    m,
                                );
                                lemma_flag_not_castle(fl, from, to, m);
                                0
                            }
                        } else {
                            assert(b.enp > 0);
                            let a = lemma_ep_member(c, pawns, b.enp as int, m);
                            lemma_flag_not_castle(ENP as int, a, b.enp as int, m);
                            0
                        }
                    } else {
                        N as int
                    }
                } else {
                    B as int
                }
            } else {
                R as int
            }
        } else {
            Q as int
        }
    } else {
        K as int
    };
    if kind != 0 {
        lemma_piece_moves_members(kind, bb_set(b.pc[kind]), occ, friends, m);
        let (from, to) = choose|from: int, to: int|
            #![trigger code(QUIET as int, from, to)]
            is_square(from) && bb_set(b.pc[kind]).contains(from) && friends.contains(from)
                && attack_set(kind, from, occ).contains(to) && !friends.contains(to) && is_square(
                to,
            ) && m == code(QUIET as int, from, to);
        lemma_flag_not_castle(QUIET as int, from, to, m);
    }
}

/// A member of the set contributes its image to a flat map over the set's squares.
proof fn lemma_flat_member_in(s: Set<int>, g: spec_fn(int) -> Seq<u16>, x: int, m: u16)
    requires
        s.contains(x),
        is_square(x),
        g(x).contains(m),
    ensures
        squares(s).flat_map(g).contains(m),
{
    lemma_squares_members(s, 0);
    assert(squares(s).contains(x));
    let i = choose|i: int| 0 <= i < squares(s).len() && squares(s)[i] == x;
    assert(g(squares(s)[i]).contains(m));
    lemma_flat_map_contains(squares(s), g, m);
}

/// The moves of the pieces of kind `kind` are exactly the plain moves from a square of such a
/// piece among `friends` to a square that a piece of that kind attacks from there and no friend
/// holds: knight and king steps, rook and bishop lines up to the first occupied square, and both
/// for the queen.
pub proof fn lemma_piece_moves_by_kind(
    kind: int,
    pieces: Set<int>,
    occ: Set<int>,
    friends: Set<int>,
    m: u16,
)
    requires
        kind == N || kind == B || kind == R || kind == Q || kind == K,
    ensures
        piece_moves(kind, pieces, occ, friends).contains(m) <==> exists|from: int, to: int|
            #![trigger code(QUIET as int, from, to)]
            pieces.contains(from) && friends.contains(from) && !friends.contains(to) && m == code(
                QUIET as int,
                from,
                to,
            ) && {
                ||| kind == N && knight_step(from, to)
                ||| kind == B && bishop_attacks(from, to, occ)
                ||| kind == R && rook_attacks(from, to, occ)
                ||| kind == Q && (rook_attacks(from, to, occ) || bishop_attacks(from, to, occ))
                ||| kind == K && king_step(from, to)
            },
{
    lemma_piece_moves_members(kind, pieces, occ, friends, m);
}

/// The pawn captures are exactly: a pawn of `pawns` takes a piece of `opps` on a square it
/// attacks, as a plain move, or as the four capturing promotions when it lands on the last rank.
pub proof fn lemma_pawn_capture_moves_exact(side: int, pawns: Set<int>, opps: Set<int>, m: u16)
    requires
        side == WH || side == BL,
    ensures
        pawn_capture_moves(side, pawns, opps).contains(m) <==> exists|from: int, to: int|
            #![trigger pawn_step(side, from, to)]
            pawns.contains(from) && opps.contains(to) && pawn_step(side, from, to) && if rank_of(to)
                == (if side == WH {
                7int
            } else {
                0int
            }) {
                m == code(QPROMO_CAP as int, from, to) || m == code(PROMO_CAP as int, from, to)
                    || m == code(PROMO_CAP as int + 1, from, to) || m == code(
                    PROMO_CAP as int + 2,
                    from,
                    to,
                )
            } else {
                m == code(QUIET as int, from, to)
            },
{
    reveal(pawn_capture_moves);
    let last: int = if side == WH {
        7
    } else {
        0
    };
    let s1 = squares(pawns.difference(pen_set(side))).flat_map(capture_from(side, opps));
    let s2 = squares(pawns.intersect(pen_set(side))).flat_map(promo_capture_from(side, opps));
    if pawn_capture_moves(side, pawns, opps).contains(m) {
        lemma_add_contains(s1, s2, m);
        if s1.contains(m) {
            let p = lemma_flat_member(pawns.difference(pen_set(side)), capture_from(side, opps), m);
            let tg = pawn_targets(side, p).intersect(opps);
            assert(capture_from(side, opps)(p) == squares(tg).flat_map(plain_from(p)));
            let t = lemma_flat_member(tg, plain_from(p), m);
            assert(plain_from(p)(t)[0] == m);
            assert(pawn_step(side, p, t));
            assert(rank_of(t) != last);
        } else {
            let p = lemma_flat_member(pawns.intersect(pen_set(side)), promo_capture_from(side, opps), m);
            let tg = pawn_targets(side, p).intersect(opps);
            assert(promo_capture_from(side, opps)(p) == squares(tg).flat_map(promo_capture_to(p)));
            let t = lemma_flat_member(tg, promo_capture_to(p), m);
            let ps = promos(p, t, 4);
            assert(promo_capture_to(p)(t) == ps);
            let k = choose|k: int| 0 <= k < ps.len() && ps[k] == m;
            assert(pawn_step(side, p, t));
            assert(rank_of(t) == last);
        }
    }
    if exists|from: int, to: int|
        #![trigger pawn_step(side, from, to)]
        pawns.contains(from) && opps.contains(to) && pawn_step(side, from, to) && if rank_of(to)
            == last {
            m == code(QPROMO_CAP as int, from, to) || m == code(PROMO_CAP as int, from, to) || m
                == code(PROMO_CAP as int + 1, from, to) || m == code(PROMO_CAP as int + 2, from, to)
        } else {
            m == code(QUIET as int, from, to)
        } {
        let (p, t) = choose|from: int, to: int|
            #![trigger pawn_step(side, from, to)]
            pawns.contains(from) && opps.contains(to) && pawn_step(side, from, to) && if rank_of(
                to,
            ) == last {
                m == code(QPROMO_CAP as int, from, to) || m == code(PROMO_CAP as int, from, to)
                    || m == code(PROMO_CAP as int + 1, from, to) || m == code(
                    PROMO_CAP as int + 2,
                    from,
                    to,
                )
            } else {
                m == code(QUIET as int, from, to)
            };
        let tg = pawn_targets(side, p).intersect(opps);
        assert(tg.contains(t));
        if rank_of(t) == last {
            assert(pawns.intersect(pen_set(side)).contains(p));
            let ps = promos(p, t, 4);
            assert(promo_capture_to(p)(t) == ps);
            assert(ps[0] == code(QPROMO_CAP as int, p, t));
            assert(ps[1] == code(PROMO_CAP as int, p, t));
            assert(ps[2] == code(PROMO_CAP as int + 1, p, t));
            assert(ps[3] == code(PROMO_CAP as int + 2, p, t));
            assert(ps.contains(m));
            lemma_flat_member_in(tg, promo_capture_to(p), t, m);
            assert(promo_capture_from(side, opps)(p) == squares(tg).flat_map(promo_capture_to(p)));
            lemma_flat_member_in(pawns.intersect(pen_set(side)), promo_capture_from(side, opps), p, m);
            let j = choose|j: int| 0 <= j < s2.len() && s2[j] == m;
            assert((s1 + s2)[s1.len() as int + j] == m);
        } else {
            assert(pawns.difference(pen_set(side)).contains(p));
            assert(plain_from(p)(t)[0] == m);
            assert(plain_from(p)(t).contains(m));
            lemma_flat_member_in(tg, plain_from(p), t, m);
            assert(capture_from(side, opps)(p) == squares(tg).flat_map(plain_from(p)));
            lemma_flat_member_in(pawns.difference(pen_set(side)), capture_from(side, opps), p, m);
            let j = choose|j: int| 0 <= j < s1.len() && s1[j] == m;
            assert((s1 + s2)[j] == m);
        }
    }
}

/// An element of either part is an element of a concatenation.
proof fn lemma_add_contains_either<A>(x: Seq<A>, y: Seq<A>, m: A)
    requires
        x.contains(m) || y.contains(m),
    ensures
        (x + y).contains(m),
{
    if x.contains(m) {
        let j = choose|j: int| 0 <= j < x.len() && x[j] == m;
        assert((x + y)[j] == m);
    } else {
        let j = choose|j: int| 0 <= j < y.len() && y[j] == m;
        assert((x + y)[x.len() + j] == m);
    }
}

/// Every pawn whose square ahead is empty is pushed: plainly, or as the four promotions onto the
/// last rank; from its starting rank it also steps two squares when both squares ahead are empty.
pub proof fn lemma_pawn_push_moves_complete(side: int, occ: Set<int>, pawns: Set<int>, p: int)
    requires
        side == WH || side == BL,
        pawns.contains(p),
        is_square(p),
    ensures
        ({
            let d: int = if side == WH {
                8
            } else {
                -8
            };
            let last: int = if side == WH {
                7
            } else {
                0
            };
            let moves = pawn_push_moves(side, occ, pawns);
            &&& is_square(p + d) && !occ.contains(p + d) && rank_of(p + d) != last ==> moves.contains(
                code(QUIET as int, p, p + d),
            )
            &&& is_square(p + d) && !occ.contains(p + d) && rank_of(p + d) == last ==> moves.contains(
                code(QPROMO as int, p, p + d),
            ) && moves.contains(code(PROMO as int, p, p + d)) && moves.contains(
                code(PROMO as int + 1, p, p + d),
            ) && moves.contains(code(PROMO as int + 2, p, p + d))
            &&& rank_of(p) == (if side == WH {
                1int
            } else {
                6int
            }) && !occ.contains(p + d) && !occ.contains(p + 2 * d) ==> moves.contains(
                code(DBL as int, p, p + 2 * d),
            )
        }),
{
    reveal(pawn_push_moves);
    let fwd = forward(side);
    let s1 = squares(push_sources(side, occ, pawns)).flat_map(step_by(QUIET as int, fwd));
    let s2 = squares(promo_sources(side, occ, pawns)).flat_map(promo_by(fwd));
    let s3 = squares(dbl_sources(side, occ, pawns)).flat_map(step_by(DBL as int, 2 * fwd));
    let last: int = if side == WH {
        7
    } else {
        0
    };
    if is_square(p + fwd) && !occ.contains(p + fwd) {
        if rank_of(p + fwd) != last {
            let m = code(QUIET as int, p, p + fwd);
            assert(push_sources(side, occ, pawns).contains(p));
            assert(step_by(QUIET as int, fwd)(p)[0] == m);
            assert(step_by(QUIET as int, fwd)(p).contains(m));
            lemma_flat_member_in(push_sources(side, occ, pawns), step_by(QUIET as int, fwd), p, m);
            lemma_add_contains_either(s1, s2, m);
            lemma_add_contains_either(s1 + s2, s3, m);
        } else {
            assert(promo_sources(side, occ, pawns).contains(p));
            let ps = promos(p, p + fwd, 0);
            assert(promo_by(fwd)(p) == ps);
            assert forall|k: int| 0 <= k < 4 implies (s1 + s2 + s3).contains(#[trigger] ps[k]) by {
                assert(ps.contains(ps[k]));
                lemma_flat_member_in(promo_sources(side, occ, pawns), promo_by(fwd), p, ps[k]);
                lemma_add_contains_either(s1, s2, ps[k]);
                lemma_add_contains_either(s1 + s2, s3, ps[k]);
            }
            assert(ps[0] == code(QPROMO as int, p, p + fwd));
            assert(ps[1] == code(PROMO as int, p, p + fwd));
            assert(ps[2] == code(PROMO as int + 1, p, p + fwd));
            assert(ps[3] == code(PROMO as int + 2, p, p + fwd));
        }
    }
    if rank_of(p) == (if side == WH {
        1int
    } else {
        6int
    }) && !occ.contains(p + fwd) && !occ.contains(p + 2 * fwd) {
        let m = code(DBL as int, p, p + 2 * fwd);
        assert(dbl_sources(side, occ, pawns).contains(p));
        assert(step_by(DBL as int, 2 * fwd)(p)[0] == m);
        assert(step_by(DBL as int, 2 * fwd)(p).contains(m));
        lemma_flat_member_in(dbl_sources(side, occ, pawns), step_by(DBL as int, 2 * fwd), p, m);
        lemma_add_contains_either(s1 + s2, s3, m);
    }
}

/// `gen` leaves nothing out: every pawn push, pawn capture and piece move of the side to move,
/// every castling move while the side keeps a right and is not in check, and every en-passant
/// capture onto a set en-passant square is among the generated moves.
pub proof fn lemma_gen_complete(b: Board, m: u16)
    requires
        b.c == WH || b.c == BL,
    ensures
        ({
            let c = b.c;
            let occ = bb_set(b.s[0] | b.s[1]);
            let friends = bb_set(b.s[c]);
            let pawns = bb_set(b.pc[P as int] & b.s[c]);
            &&& pawn_push_moves(c, occ, pawns).contains(m) ==> gen_moves(b).contains(m)
            &&& pawn_capture_moves(c, pawns, bb_set(b.s[1 - c])).contains(m) ==> gen_moves(
                b,
            ).contains(m)
            &&& b.cr & SIDES[c] != 0 && !attacked(b, king_square(b, c), c, occ) && castle_moves(
                b,
                b.s[0] | b.s[1],
            ).contains(m) ==> gen_moves(b).contains(m)
            &&& b.enp > 0 && ep_moves(c, pawns, b.enp as int).contains(m) ==> gen_moves(b).contains(
                m,
            )
            &&& forall|kind: int|
                (kind == N || kind == B || kind == R || kind == Q || kind == K) && #[trigger] piece_moves(
                    kind,
                    bb_set(b.pc[kind]),
                    occ,
                    friends,
                ).contains(m) ==> gen_moves(b).contains(m)
        }),
{
    let c = b.c;
    let occ = bb_set(b.s[0] | b.s[1]);
    let friends = bb_set(b.s[c]);
    let pawns = bb_set(b.pc[P as int] & b.s[c]);
    let a1 = pawn_push_moves(c, occ, pawns);
    let a2 = gen_castles(b);
    let a3 = pawn_capture_moves(c, pawns, bb_set(b.s[1 - c]));
    let a4 = gen_ep(b);
    let a5 = piece_moves(N as int, bb_set(b.pc[N as int]), occ, friends);
    let a6 = piece_moves(B as int, bb_set(b.pc[B as int]), occ, friends);
    let a7 = piece_moves(R as int, bb_set(b.pc[R as int]), occ, friends);
    let a8 = piece_moves(Q as int, bb_set(b.pc[Q as int]), occ, friends);
    let a9 = piece_moves(K as int, bb_set(b.pc[K as int]), occ, friends);
    let p2 = a1 + a2;
    let p3 = p2 + a3;
    let p4 = p3 + a4;
    let p5 = p4 + a5;
    let p6 = p5 + a6;
    let p7 = p6 + a7;
    let p8 = p7 + a8;
    assert(gen_moves(b) == p8 + a9);
    if a1.contains(m) || a2.contains(m) {
        lemma_add_contains_either(a1, a2, m);
    }
    if p2.contains(m) || a3.contains(m) {
        lemma_add_contains_either(p2, a3, m);
    }
    if p3.contains(m) || a4.contains(m) {
        lemma_add_contains_either(p3, a4, m);
    }
    if p4.contains(m) || a5.contains(m) {
        lemma_add_contains_either(p4, a5, m);
    }
    if p5.contains(m) || a6.contains(m) {
        lemma_add_contains_either(p5, a6, m);
    }
    if p6.contains(m) || a7.contains(m) {
        lemma_add_contains_either(p6, a7, m);
    }
    if p7.contains(m) || a8.contains(m) {
        lemma_add_contains_either(p7, a8, m);
    }
    if p8.contains(m) || a9.contains(m) {
        lemma_add_contains_either(p8, a9, m);
    }
}

} // verus!
