//! Pseudo-legal move generation into a fixed-size move list.
//!
//! A generated move is a `u16`: destination square in bits 0-5, origin square in bits 6-11 and
//! the move flag in bits 12-15. Within each group, moves come out by ascending origin square and,
//! for one origin, by ascending destination square.
use vstd::prelude::*;
use crate::consts::{
    WH, BL, P, N, B, R, Q, K, QUIET, DBL, KS, QS, CAP, ENP, PROMO, BPROMO, RPROMO, QPROMO, WQS, WKS,
    BQS, BKS, SIDES, B1C1D1, F1G1, B8C8D8, F8G8, PENRANK, DBLRANK,
};
use crate::bits::{has_bit, bb_set, is_square, squares, squares_from, pop_lsb, lemma_squares_of_zero, lemma_squares_members, lemma_bb_ops, lemma_bb_not};
use crate::attacks::{
    rank_of, knight_targets, king_targets, pawn_targets, rook_targets, bishop_targets,
    knight_attacks, king_attacks, pawn_attacks, ratt, batt,
};
use crate::position::{Pos, Board, attacked, king_square, lemma_other_side};

verus! {

/// The encoding of a move.
pub open spec fn code(flag: int, from: int, to: int) -> u16 {
    (flag * 4096 + from * 64 + to) as u16
}

/// The flag of an encoded move.
pub open spec fn code_flag(m: u16) -> int {
    m as int / 4096
}

/// The origin square of an encoded move.
pub open spec fn code_from(m: u16) -> int {
    (m as int / 64) % 64
}

/// The destination square of an encoded move.
pub open spec fn code_to(m: u16) -> int {
    m as int % 64
}

/// One move.
pub open spec fn single(flag: int, from: int, to: int) -> Seq<u16> {
    seq![code(flag, from, to)]
}

/// The four promotions of a pawn move, queen first, then knight, bishop and rook; `cap` is
/// `CAP` for captures and 0 for pushes.
pub open spec fn promos(from: int, to: int, cap: int) -> Seq<u16> {
    seq![
        code(QPROMO + cap, from, to),
        code(PROMO + cap, from, to),
        code(BPROMO + cap, from, to),
        code(RPROMO + cap, from, to),
    ]
}

/// The plain move from `from` to a square.
pub open spec fn plain_from(from: int) -> spec_fn(int) -> Seq<u16> {
    |t: int| single(QUIET as int, from, t)
}

/// Plain moves from `from` to each square of `targets`, by ascending destination.
pub open spec fn plain_moves(from: int, targets: Set<int>) -> Seq<u16> {
    squares(targets).flat_map(plain_from(from))
}

/// A list of moves that fits in `MoveList`.
pub open spec fn fits(base: Seq<u16>, more: Seq<u16>) -> bool {
    base.len() + more.len() <= 252
}

/// A list of at most 252 moves; `list[..len]` holds them.
pub struct MoveList {
    pub list: [u16; 252],
    pub len: usize,
}

impl View for MoveList {
    type V = Seq<u16>;

    open spec fn view(&self) -> Seq<u16> {
        self.list@.subrange(0, self.len as int)
    }
}

impl MoveList {
    /// The length is within the list.
    pub open spec fn wf(&self) -> bool {
        self.len <= 252
    }

    /// The entries past the length are those of `before`: nothing was written there.
    pub open spec fn keeps_tail(self, before: MoveList) -> bool {
        forall|i: int| self.len <= i < 252 ==> #[trigger] self.list@[i] == before.list@[i]
    }

    /// Appends a move.
    pub fn push(&mut self, m: u16)
        requires
            old(self).wf(),
            old(self).len < 252,
        ensures
            final(self).wf(),
            final(self).len == old(self).len + 1,
            final(self)@ == old(self)@.push(m),
            final(self).keeps_tail(*old(self)),
    {
        self.list[self.len] = m;
        self.len = self.len + 1;
        proof {
            assert(self@ =~= old(self)@.push(m));
        }
    }
}

impl Default for MoveList {
    fn default() -> (r: Self)
        ensures
            r.wf(),
            r.len == 0,
            r@ == Seq::<u16>::empty(),
    {
        let r = MoveList { list: [0u16; 252], len: 0 };
        proof {
            assert(r@ =~= Seq::<u16>::empty());
        }
        r
    }
}

/// Flat-mapping a sequence that starts with `x`.
pub proof fn lemma_flat_map_cons<A, C>(x: A, rest: Seq<A>, g: spec_fn(A) -> Seq<C>)
    ensures
        (seq![x] + rest).flat_map(g) == g(x) + rest.flat_map(g),
{
    let s = seq![x] + rest;
    let ms = s.map_values(g);
    assert(ms.len() > 0);
    assert(ms.drop_first() =~= rest.map_values(g));
    assert(ms.first() == g(x));
}

/// Packs a flag, an origin and a destination into a move.
fn pack(flag: u16, from: u16, to: u16) -> (m: u16)
    requires
        flag < 16,
        from < 64,
        to < 64,
    ensures
        m == code(flag as int, from as int, to as int),
{
    assert((flag << 12u16) | (from << 6u16) | to == ((flag * 4096 + from * 64 + to) as u16))
        by (bit_vector)
        requires
            flag < 16,
            from < 64,
            to < 64,
    ;
    (flag << 12u16) | (from << 6u16) | to
}

/// Appends a plain move from `from` to each square of `attacks`.
pub fn encode(moves: &mut MoveList, attacks: u64, from: u16)
    requires
        old(moves).wf(),
        from < 64,
        fits(old(moves)@, plain_moves(from as int, bb_set(attacks))),
    ensures
        final(moves).wf(),
        final(moves).keeps_tail(*old(moves)),
        final(moves)@ == old(moves)@ + plain_moves(from as int, bb_set(attacks)),
{
    let ghost g = plain_from(from as int);
    let ghost all = plain_moves(from as int, bb_set(attacks));
    let mut attacks: u64 = attacks;
    while attacks > 0
        invariant
            moves.wf(),
            moves.keeps_tail(*old(moves)),
            from < 64,
            g == plain_from(from as int),
            moves@ + squares(bb_set(attacks)).flat_map(g) == old(moves)@ + all,
            fits(old(moves)@, all),
        decreases squares(bb_set(attacks)).len(),
    {
        let ghost pushed = moves@;
        let aidx: u16 = pop_lsb(&mut attacks);
        let ghost rest = squares(bb_set(attacks)).flat_map(g);
        proof {
            lemma_flat_map_cons(aidx as int, squares(bb_set(attacks)), g);
            assert(g(aidx as int) == seq![code(QUIET as int, from as int, aidx as int)]);
            assert(pushed + (g(aidx as int) + rest) == old(moves)@ + all);
            assert((pushed + (g(aidx as int) + rest)).len() == pushed.len() + 1 + rest.len());
        }
        let m: u16 = pack(QUIET as u16, from, aidx);
        moves.push(m);
        proof {
            assert(moves@ + rest =~= pushed + (g(aidx as int) + rest));
        }
    }
    proof {
        lemma_squares_of_zero();
        assert(moves@ =~= moves@ + squares(bb_set(attacks)).flat_map(g));
    }
}

/// The direction a pawn of `side` moves in, in square-index steps.
pub open spec fn forward(side: int) -> int {
    if side == WH {
        8
    } else {
        -8
    }
}

/// The rank from which a pawn of `side` promotes with its next step.
pub open spec fn pen_rank(side: int) -> int {
    if side == WH {
        6
    } else {
        1
    }
}

/// The rank a pawn of `side` reaches with a double step.
pub open spec fn dbl_rank(side: int) -> int {
    if side == WH {
        3
    } else {
        4
    }
}

/// The pawns of `side` whose square ahead is free.
pub open spec fn pushers(side: int, occ: Set<int>, pawns: Set<int>) -> Set<int> {
    Set::new(
        |p: int|
            is_square(p) && pawns.contains(p) && is_square(p + forward(side)) && !occ.contains(
                p + forward(side),
            ),
    )
}

/// The pawns that make a plain single step.
pub open spec fn push_sources(side: int, occ: Set<int>, pawns: Set<int>) -> Set<int> {
    Set::new(|p: int| pushers(side, occ, pawns).contains(p) && rank_of(p) != pen_rank(side))
}

/// The pawns that promote with a single step.
pub open spec fn promo_sources(side: int, occ: Set<int>, pawns: Set<int>) -> Set<int> {
    Set::new(|p: int| pushers(side, occ, pawns).contains(p) && rank_of(p) == pen_rank(side))
}

/// The pawns that make a double step: both squares ahead are free and the second is on the
/// double-step rank.
pub open spec fn dbl_sources(side: int, occ: Set<int>, pawns: Set<int>) -> Set<int> {
    Set::new(
        |p: int|
            is_square(p) && pawns.contains(p) && is_square(p + 2 * forward(side)) && rank_of(
                p + 2 * forward(side),
            ) == dbl_rank(side) && !occ.contains(p + forward(side)) && !occ.contains(
                p + 2 * forward(side),
            ),
    )
}

/// The move of flag `flag` from a square to the square `dist` further.
pub open spec fn step_by(flag: int, dist: int) -> spec_fn(int) -> Seq<u16> {
    |p: int| single(flag, p, p + dist)
}

/// The promotions from a square to the square `dist` further.
pub open spec fn promo_by(dist: int) -> spec_fn(int) -> Seq<u16> {
    |p: int| promos(p, p + dist, 0)
}

/// The pawn pushes of `side`: plain single steps, then promoting steps, then double steps.
#[verifier::opaque]
pub open spec fn pawn_push_moves(side: int, occ: Set<int>, pawns: Set<int>) -> Seq<u16> {
    squares(push_sources(side, occ, pawns)).flat_map(step_by(QUIET as int, forward(side)))
        + squares(promo_sources(side, occ, pawns)).flat_map(promo_by(forward(side)))
        + squares(dbl_sources(side, occ, pawns)).flat_map(step_by(DBL as int, 2 * forward(side)))
}

/// The masks of the promotion and double-step ranks.
proof fn lemma_rank_masks()
    ensures
        forall|j: int| #[trigger]
            bb_set(PENRANK[0]).contains(j) == (is_square(j) && rank_of(j) == 6),
        forall|j: int| #[trigger]
            bb_set(PENRANK[1]).contains(j) == (is_square(j) && rank_of(j) == 1),
        forall|j: int| #[trigger]
            bb_set(DBLRANK[0]).contains(j) == (is_square(j) && rank_of(j) == 3),
        forall|j: int| #[trigger]
            bb_set(DBLRANK[1]).contains(j) == (is_square(j) && rank_of(j) == 4),
{
    assert forall|j: int|
        #![trigger bb_set(PENRANK[0]).contains(j)]
        #![trigger bb_set(PENRANK[1]).contains(j)]
        #![trigger bb_set(DBLRANK[0]).contains(j)]
        #![trigger bb_set(DBLRANK[1]).contains(j)]
        is_square(j) ==> (bb_set(PENRANK[0]).contains(j) == (rank_of(j) == 6) && bb_set(
            PENRANK[1],
        ).contains(j) == (rank_of(j) == 1) && bb_set(DBLRANK[0]).contains(j) == (rank_of(j) == 3)
            && bb_set(DBLRANK[1]).contains(j) == (rank_of(j) == 4)) by {
        if is_square(j) {
            let u = j as u64;
            assert(has_bit(0x00FF000000000000u64, u) == (u / 8 == 6) && has_bit(
                0x000000000000FF00u64,
                u,
            ) == (u / 8 == 1) && has_bit(0x00000000FF000000u64, u) == (u / 8 == 3) && has_bit(
                0x000000FF00000000u64,
                u,
            ) == (u / 8 == 4)) by (bit_vector)
                requires
                    u < 64,
            ;
        }
    }
}

/// `bb` shifted `amount` squares against the direction `side`'s pawns move in: a square is in
/// the result when the square `amount` ahead of it is in `bb`.
pub open spec fn shifted_back(side: int, bb: u64, amount: u64) -> u64 {
    if side == WH {
        bb >> amount
    } else {
        bb << amount
    }
}

/// Shifts a bitboard against the direction the pawns of `SIDE` move in.
pub fn shift<const SIDE: usize, const AMOUNT: u8>(bb: u64) -> (r: u64)
    requires
        SIDE == WH || SIDE == BL,
        AMOUNT < 64,
    ensures
        r == shifted_back(SIDE as int, bb, AMOUNT as u64),
{
    if SIDE == WH {
        bb >> AMOUNT
    } else {
        bb << AMOUNT
    }
}

/// Moves a square index `AMOUNT` squares in the direction the pawns of `SIDE` move in.
pub fn idx_shift<const SIDE: usize, const AMOUNT: u16>(idx: u16) -> (r: u16)
    requires
        SIDE == WH || SIDE == BL,
        SIDE == WH ==> idx + AMOUNT <= u16::MAX,
        SIDE == BL ==> idx >= AMOUNT,
    ensures
        r == (if SIDE == WH {
            idx + AMOUNT
        } else {
            idx - AMOUNT
        }),
{
    if SIDE == WH {
        idx + AMOUNT
    } else {
        idx - AMOUNT
    }
}

proof fn lemma_shifted_back(side: int, x: u64)
    requires
        side == WH || side == BL,
    ensures
        forall|j: int| #[trigger]
            bb_set(shifted_back(side, x, 8)).contains(j) == (is_square(j) && is_square(
                j + forward(side),
            ) && bb_set(x).contains(j + forward(side))),
{
    crate::bits::lemma_shift_sets(x, 8);
}

/// Appends the four promotions from `from` to `to` (queen, knight, bishop, rook); `cap` is `CAP`
/// for captures and 0 for pushes.
fn push_promos(moves: &mut MoveList, from: u16, to: u16, cap: u16)
    requires
        old(moves).wf(),
        from < 64,
        to < 64,
        cap == 0 || cap == CAP,
        old(moves).len + 4 <= 252,
    ensures
        final(moves).wf(),
        final(moves).keeps_tail(*old(moves)),
        final(moves)@ == old(moves)@ + promos(from as int, to as int, cap as int),
{
    let m: u16 = pack(QPROMO as u16 + cap, from, to);
    moves.push(m);
    let m: u16 = pack(PROMO as u16 + cap, from, to);
    moves.push(m);
    let m: u16 = pack(BPROMO as u16 + cap, from, to);
    moves.push(m);
    let m: u16 = pack(RPROMO as u16 + cap, from, to);
    moves.push(m);
    proof {
        assert(moves@ =~= old(moves)@ + promos(from as int, to as int, cap as int));
    }
}

/// Appends the pawn pushes of `SIDE` (see `pawn_push_moves`).
pub fn pawn_pushes<const SIDE: usize>(moves: &mut MoveList, occupied: u64, pawns: u64)
    requires
        SIDE == WH || SIDE == BL,
        old(moves).wf(),
        fits(old(moves)@, pawn_push_moves(SIDE as int, bb_set(occupied), bb_set(pawns))),
    ensures
        final(moves).wf(),
        final(moves).keeps_tail(*old(moves)),
        final(moves)@ == old(moves)@ + pawn_push_moves(SIDE as int, bb_set(occupied), bb_set(pawns)),
{
    proof {
        reveal(pawn_push_moves);
    }
    let ghost side = SIDE as int;
    let ghost occ = bb_set(occupied);
    let ghost ps = bb_set(pawns);
    let ghost fwd = forward(side);
    let ghost g1 = step_by(QUIET as int, fwd);
    let ghost g2 = promo_by(fwd);
    let ghost g3 = step_by(DBL as int, 2 * fwd);
    let ghost part1 = squares(push_sources(side, occ, ps)).flat_map(g1);
    let ghost part2 = squares(promo_sources(side, occ, ps)).flat_map(g2);
    let ghost part3 = squares(dbl_sources(side, occ, ps)).flat_map(g3);
    let empty: u64 = !occupied;
    let mut pushable_pawns: u64 = shift::<SIDE, 8>(empty) & pawns;
    let mut dbl_pushable_pawns: u64 = shift::<SIDE, 8>(shift::<SIDE, 8>(empty & DBLRANK[SIDE])
        & empty) & pawns;
    let mut promotable_pawns: u64 = pushable_pawns & PENRANK[SIDE];
    pushable_pawns = pushable_pawns & !PENRANK[SIDE];
    proof {
        let pr = if side == WH { PENRANK[0] } else { PENRANK[1] };
        let dr = if side == WH { DBLRANK[0] } else { DBLRANK[1] };
        assert(PENRANK[SIDE as int] == pr && DBLRANK[SIDE as int] == dr);
        lemma_rank_masks();
        lemma_bb_not(occupied);
        lemma_bb_not(pr);
        let sh = shifted_back(side, empty, 8) & pawns;
        lemma_shifted_back(side, empty);
        lemma_bb_ops(shifted_back(side, empty, 8), pawns);
        lemma_bb_ops(sh, pr);
        lemma_bb_ops(sh, !pr);
        assert(bb_set(pushable_pawns) =~= push_sources(side, occ, ps));
        assert(bb_set(promotable_pawns) =~= promo_sources(side, occ, ps));
        let inner = empty & dr;
        lemma_bb_ops(empty, dr);
        lemma_shifted_back(side, inner);
        let mid = shifted_back(side, inner, 8) & empty;
        lemma_bb_ops(shifted_back(side, inner, 8), empty);
        lemma_shifted_back(side, mid);
        lemma_bb_ops(shifted_back(side, mid, 8), pawns);
        assert(bb_set(dbl_pushable_pawns) =~= dbl_sources(side, occ, ps));
        assert(old(moves)@ + (part1 + part2 + part3) =~= old(moves)@ + pawn_push_moves(side, occ, ps));
    }
    let ghost start1 = moves@;
    while pushable_pawns > 0
        invariant
            moves.wf(),
            moves.keeps_tail(*old(moves)),
            SIDE == WH || SIDE == BL,
            side == SIDE as int,
            fwd == forward(side),
            g1 == step_by(QUIET as int, fwd),
            moves@ + squares(bb_set(pushable_pawns)).flat_map(g1) == start1 + part1,
            fits(start1, part1 + part2 + part3),
            forall|p: int| #[trigger]
                bb_set(pushable_pawns).contains(p) ==> push_sources(side, occ, ps).contains(p),
        decreases squares(bb_set(pushable_pawns)).len(),
    {
        let ghost pushed = moves@;
        let idx: u16 = pop_lsb(&mut pushable_pawns);
        let ghost rest = squares(bb_set(pushable_pawns)).flat_map(g1);
        assert(push_sources(side, occ, ps).contains(idx as int));
        let to: u16 = idx_shift::<SIDE, 8>(idx);
        proof {
            lemma_flat_map_cons(idx as int, squares(bb_set(pushable_pawns)), g1);
            assert(g1(idx as int) == seq![code(QUIET as int, idx as int, to as int)]);
            assert(pushed + (g1(idx as int) + rest) == start1 + part1);
            assert((pushed + (g1(idx as int) + rest)).len() == pushed.len() + 1 + rest.len());
        }
        let m: u16 = pack(QUIET as u16, idx, to);
        moves.push(m);
        proof {
            assert(moves@ + rest =~= pushed + (g1(idx as int) + rest));
        }
    }
    proof {
        lemma_squares_of_zero();
        assert(moves@ =~= start1 + part1);
    }
    let ghost start2 = moves@;
    while promotable_pawns > 0
        invariant
            moves.wf(),
            moves.keeps_tail(*old(moves)),
            SIDE == WH || SIDE == BL,
            side == SIDE as int,
            fwd == forward(side),
            g2 == promo_by(fwd),
            moves@ + squares(bb_set(promotable_pawns)).flat_map(g2) == start2 + part2,
            fits(start2, part2 + part3),
            forall|p: int| #[trigger]
                bb_set(promotable_pawns).contains(p) ==> promo_sources(side, occ, ps).contains(p),
        decreases squares(bb_set(promotable_pawns)).len(),
    {
        let ghost pushed = moves@;
        let idx: u16 = pop_lsb(&mut promotable_pawns);
        let ghost rest = squares(bb_set(promotable_pawns)).flat_map(g2);
        assert(promo_sources(side, occ, ps).contains(idx as int));
        let to: u16 = idx_shift::<SIDE, 8>(idx);
        proof {
            lemma_flat_map_cons(idx as int, squares(bb_set(promotable_pawns)), g2);
            assert(g2(idx as int) == promos(idx as int, to as int, 0));
            assert(pushed + (g2(idx as int) + rest) == start2 + part2);
            assert((pushed + (g2(idx as int) + rest)).len() == pushed.len() + 4 + rest.len());
        }
        push_promos(moves, idx, to, 0);
        proof {
            assert(moves@ + rest =~= pushed + (g2(idx as int) + rest));
        }
    }
    proof {
        assert(moves@ =~= start2 + part2);
    }
    let ghost start3 = moves@;
    while dbl_pushable_pawns > 0
        invariant
            moves.wf(),
            moves.keeps_tail(*old(moves)),
            SIDE == WH || SIDE == BL,
            side == SIDE as int,
            fwd == forward(side),
            g3 == step_by(DBL as int, 2 * fwd),
            moves@ + squares(bb_set(dbl_pushable_pawns)).flat_map(g3) == start3 + part3,
            fits(start3, part3),
            forall|p: int| #[trigger]
                bb_set(dbl_pushable_pawns).contains(p) ==> dbl_sources(side, occ, ps).contains(p),
        decreases squares(bb_set(dbl_pushable_pawns)).len(),
    {
        let ghost pushed = moves@;
        let idx: u16 = pop_lsb(&mut dbl_pushable_pawns);
        let ghost rest = squares(bb_set(dbl_pushable_pawns)).flat_map(g3);
        assert(dbl_sources(side, occ, ps).contains(idx as int));
        let to: u16 = idx_shift::<SIDE, 16>(idx);
        proof {
            lemma_flat_map_cons(idx as int, squares(bb_set(dbl_pushable_pawns)), g3);
            assert(g3(idx as int) == seq![code(DBL as int, idx as int, to as int)]);
            assert(pushed + (g3(idx as int) + rest) == start3 + part3);
            assert((pushed + (g3(idx as int) + rest)).len() == pushed.len() + 1 + rest.len());
        }
        let m: u16 = pack(DBL as u16, idx, to);
        moves.push(m);
        proof {
            assert(moves@ + rest =~= pushed + (g3(idx as int) + rest));
        }
    }
    proof {
        assert(moves@ =~= start3 + part3);
        assert(moves@ =~= old(moves)@ + pawn_push_moves(side, occ, ps));
    }
}

/// The squares of the rank from which a pawn of `side` promotes.
pub open spec fn pen_set(side: int) -> Set<int> {
    Set::new(|p: int| is_square(p) && rank_of(p) == pen_rank(side))
}

/// The plain captures of a pawn of `side` on a square, of the pieces in `opps`.
pub open spec fn capture_from(side: int, opps: Set<int>) -> spec_fn(int) -> Seq<u16> {
    |p: int| plain_moves(p, pawn_targets(side, p).intersect(opps))
}

/// The capturing promotions from `from` to a square.
pub open spec fn promo_capture_to(from: int) -> spec_fn(int) -> Seq<u16> {
    |t: int| promos(from, t, CAP as int)
}

/// The capturing promotions of a pawn of `side` on a square, of the pieces in `opps`.
pub open spec fn promo_capture_from(side: int, opps: Set<int>) -> spec_fn(int) -> Seq<u16> {
    |p: int| squares(pawn_targets(side, p).intersect(opps)).flat_map(promo_capture_to(p))
}

/// The pawn captures of `side`: those of the pawns that do not promote, then the capturing
/// promotions.
#[verifier::opaque]
pub open spec fn pawn_capture_moves(side: int, pawns: Set<int>, opps: Set<int>) -> Seq<u16> {
    squares(pawns.difference(pen_set(side))).flat_map(capture_from(side, opps)) + squares(
        pawns.intersect(pen_set(side)),
    ).flat_map(promo_capture_from(side, opps))
}

/// Appends the pawn captures of `side` by the pawns `attackers` of the pieces `opps`.
pub fn pawn_captures(moves: &mut MoveList, side: usize, attackers: u64, opps: u64)
    requires
        side < 2,
        old(moves).wf(),
        fits(old(moves)@, pawn_capture_moves(side as int, bb_set(attackers), bb_set(opps))),
    ensures
        final(moves).wf(),
        final(moves).keeps_tail(*old(moves)),
        final(moves)@ == old(moves)@ + pawn_capture_moves(
            side as int,
            bb_set(attackers),
            bb_set(opps),
        ),
{
    proof {
        reveal(pawn_capture_moves);
    }
    let ghost sd = side as int;
    let ghost ps = bb_set(attackers);
    let ghost os = bb_set(opps);
    let ghost g1 = capture_from(sd, os);
    let ghost g2 = promo_capture_from(sd, os);
    let ghost part1 = squares(ps.difference(pen_set(sd))).flat_map(g1);
    let ghost part2 = squares(ps.intersect(pen_set(sd))).flat_map(g2);
    let ghost orig = attackers;
    let mut promo_attackers: u64 = attackers & PENRANK[side];
    let mut attackers: u64 = attackers & !PENRANK[side];
    proof {
        let pr = if side == 0 { PENRANK[0] } else { PENRANK[1] };
        assert(PENRANK[side as int] == pr);
        lemma_rank_masks();
        lemma_bb_ops(orig, pr);
        assert(bb_set(attackers) =~= ps.difference(pen_set(sd)));
        assert(bb_set(promo_attackers) =~= ps.intersect(pen_set(sd)));
    }
    let ghost start1 = moves@;
    while attackers > 0
        invariant
            moves.wf(),
            moves.keeps_tail(*old(moves)),
            side < 2,
            sd == side as int,
            g1 == capture_from(sd, os),
            os == bb_set(opps),
            moves@ + squares(bb_set(attackers)).flat_map(g1) == start1 + part1,
            fits(start1, part1 + part2),
        decreases squares(bb_set(attackers)).len(),
    {
        let ghost pushed = moves@;
        let from: u16 = pop_lsb(&mut attackers);
        let ghost rest = squares(bb_set(attackers)).flat_map(g1);
        let pa: u64 = pawn_attacks(side, from as usize);
        let attacks: u64 = pa & opps;
        proof {
            lemma_bb_ops(pa, opps);
            lemma_flat_map_cons(from as int, squares(bb_set(attackers)), g1);
            assert(g1(from as int) == plain_moves(from as int, bb_set(attacks)));
            assert(pushed + (g1(from as int) + rest) == start1 + part1);
            assert((pushed + (g1(from as int) + rest)).len() == pushed.len() + g1(
                from as int,
            ).len() + rest.len());
        }
        encode(moves, attacks, from);
        proof {
            assert(moves@ + rest =~= pushed + (g1(from as int) + rest));
        }
    }
    proof {
        lemma_squares_of_zero();
        assert(moves@ =~= start1 + part1);
    }
    let ghost start2 = moves@;
    while promo_attackers > 0
        invariant
            moves.wf(),
            moves.keeps_tail(*old(moves)),
            side < 2,
            sd == side as int,
            g2 == promo_capture_from(sd, os),
            os == bb_set(opps),
            moves@ + squares(bb_set(promo_attackers)).flat_map(g2) == start2 + part2,
            fits(start2, part2),
        decreases squares(bb_set(promo_attackers)).len(),
    {
        let ghost pushed = moves@;
        let from: u16 = pop_lsb(&mut promo_attackers);
        let ghost rest = squares(bb_set(promo_attackers)).flat_map(g2);
        let pa: u64 = pawn_attacks(side, from as usize);
        let mut attacks: u64 = pa & opps;
        let ghost h = promo_capture_to(from as int);
        let ghost inner = g2(from as int);
        proof {
            lemma_bb_ops(pa, opps);
            lemma_flat_map_cons(from as int, squares(bb_set(promo_attackers)), g2);
            assert(inner == squares(bb_set(attacks)).flat_map(h));
            assert(pushed + (inner + rest) == start2 + part2);
            assert((pushed + (inner + rest)).len() == pushed.len() + inner.len() + rest.len());
        }
        while attacks > 0
            invariant
                moves.wf(),
                moves.keeps_tail(*old(moves)),
                from < 64,
                h == promo_capture_to(from as int),
                moves@ + squares(bb_set(attacks)).flat_map(h) == pushed + inner,
                fits(pushed, inner),
            decreases squares(bb_set(attacks)).len(),
        {
            let ghost before = moves@;
            let cidx: u16 = pop_lsb(&mut attacks);
            let ghost rest2 = squares(bb_set(attacks)).flat_map(h);
            proof {
                lemma_flat_map_cons(cidx as int, squares(bb_set(attacks)), h);
                assert(h(cidx as int) == promos(from as int, cidx as int, CAP as int));
                assert(before + (h(cidx as int) + rest2) == pushed + inner);
                assert((before + (h(cidx as int) + rest2)).len() == before.len() + 4
                    + rest2.len());
            }
            push_promos(moves, from, cidx, CAP as u16);
            proof {
                assert(moves@ + rest2 =~= before + (h(cidx as int) + rest2));
            }
        }
        proof {
            lemma_squares_of_zero();
            assert(moves@ =~= pushed + inner);
            assert(moves@ + rest =~= pushed + (inner + rest));
        }
    }
    proof {
        assert(moves@ =~= start2 + part2);
        assert(moves@ =~= old(moves)@ + pawn_capture_moves(sd, ps, os));
    }
}

/// The en-passant capture of a pawn on a square to `sq`.
pub open spec fn ep_from(sq: int) -> spec_fn(int) -> Seq<u16> {
    |a: int| single(ENP as int, a, sq)
}

/// The en-passant captures onto `sq` by the pawns `pawns` of `side`: those standing where a pawn
/// of the other side on `sq` would attack.
#[verifier::opaque]
pub open spec fn ep_moves(side: int, pawns: Set<int>, sq: int) -> Seq<u16> {
    squares(pawn_targets(1 - side, sq).intersect(pawns)).flat_map(ep_from(sq))
}

/// Appends the en-passant captures onto `sq` by the pawns `pawns` of `side`.
pub fn en_passants(moves: &mut MoveList, side: usize, pawns: u64, sq: u16)
    requires
        side < 2,
        sq < 64,
        old(moves).wf(),
        fits(old(moves)@, ep_moves(side as int, bb_set(pawns), sq as int)),
    ensures
        final(moves).wf(),
        final(moves).keeps_tail(*old(moves)),
        final(moves)@ == old(moves)@ + ep_moves(side as int, bb_set(pawns), sq as int),
{
    proof {
        reveal(ep_moves);
    }
    proof {
        lemma_other_side(side);
    }
    let pa: u64 = pawn_attacks(side ^ 1, sq as usize);
    let mut attackers: u64 = pa & pawns;
    let ghost g = ep_from(sq as int);
    let ghost all = ep_moves(side as int, bb_set(pawns), sq as int);
    proof {
        lemma_bb_ops(pa, pawns);
        assert(squares(bb_set(attackers)).flat_map(g) == all);
    }
    while attackers > 0
        invariant
            moves.wf(),
            moves.keeps_tail(*old(moves)),
            sq < 64,
            g == ep_from(sq as int),
            moves@ + squares(bb_set(attackers)).flat_map(g) == old(moves)@ + all,
            fits(old(moves)@, all),
        decreases squares(bb_set(attackers)).len(),
    {
        let ghost pushed = moves@;
        let cidx: u16 = pop_lsb(&mut attackers);
        let ghost rest = squares(bb_set(attackers)).flat_map(g);
        proof {
            lemma_flat_map_cons(cidx as int, squares(bb_set(attackers)), g);
            assert(g(cidx as int) == seq![code(ENP as int, cidx as int, sq as int)]);
            assert(pushed + (g(cidx as int) + rest) == old(moves)@ + all);
            assert((pushed + (g(cidx as int) + rest)).len() == pushed.len() + 1 + rest.len());
        }
        let m: u16 = pack(ENP as u16, cidx, sq);
        moves.push(m);
        proof {
            assert(moves@ + rest =~= pushed + (g(cidx as int) + rest));
        }
    }
    proof {
        lemma_squares_of_zero();
        assert(moves@ =~= old(moves)@ + all);
    }
}

/// The castling moves of the side to move of `b` with the squares of `occ` occupied: a side
/// castles when it keeps the right, the squares between king and rook are empty, and the square
/// the king passes over is not attacked.
#[verifier::opaque]
pub open spec fn castle_moves(b: Board, occ: u64) -> Seq<u16> {
    let os = bb_set(occ);
    if b.c == WH {
        (if b.cr & WQS != 0 && occ & B1C1D1 == 0 && !attacked(b, 3, WH as int, os) {
            single(QS as int, 4, 2)
        } else {
            Seq::empty()
        }) + (if b.cr & WKS != 0 && occ & F1G1 == 0 && !attacked(b, 5, WH as int, os) {
            single(KS as int, 4, 6)
        } else {
            Seq::empty()
        })
    } else {
        (if b.cr & BQS != 0 && occ & B8C8D8 == 0 && !attacked(b, 59, BL as int, os) {
            single(QS as int, 60, 58)
        } else {
            Seq::empty()
        }) + (if b.cr & BKS != 0 && occ & F8G8 == 0 && !attacked(b, 61, BL as int, os) {
            single(KS as int, 60, 62)
        } else {
            Seq::empty()
        })
    }
}

/// Appends the castling moves of the side to move.
pub fn castles(moves: &mut MoveList, pos: &Pos, occ: u64)
    requires
        pos.wf(),
        old(moves).wf(),
        fits(old(moves)@, castle_moves(pos@, occ)),
    ensures
        final(moves).wf(),
        final(moves).keeps_tail(*old(moves)),
        final(moves)@ == old(moves)@ + castle_moves(pos@, occ),
{
    proof {
        reveal(castle_moves);
    }
    let r: u8 = pos.state.cr;
    if pos.c == WH {
        if r & WQS > 0 && occ & B1C1D1 == 0 && !pos.is_sq_att(3, WH, occ) {
            let m: u16 = pack(QS as u16, 4, 2);
            moves.push(m);
        }
        if r & WKS > 0 && occ & F1G1 == 0 && !pos.is_sq_att(5, WH, occ) {
            let m: u16 = pack(KS as u16, 4, 6);
            moves.push(m);
        }
        proof {
            assert(moves@ =~= old(moves)@ + castle_moves(pos@, occ));
        }
    } else {
        if r & BQS > 0 && occ & B8C8D8 == 0 && !pos.is_sq_att(59, BL, occ) {
            let m: u16 = pack(QS as u16, 60, 58);
            moves.push(m);
        }
        if r & BKS > 0 && occ & F8G8 == 0 && !pos.is_sq_att(61, BL, occ) {
            let m: u16 = pack(KS as u16, 60, 62);
            moves.push(m);
        }
        proof {
            assert(moves@ =~= old(moves)@ + castle_moves(pos@, occ));
        }
    }
}

/// The squares a piece of kind `kind` on `f` attacks with the squares of `occ` occupied.
pub open spec fn attack_set(kind: int, f: int, occ: Set<int>) -> Set<int> {
    if kind == N {
        knight_targets(f)
    } else if kind == B {
        bishop_targets(f, occ)
    } else if kind == R {
        rook_targets(f, occ)
    } else if kind == Q {
        rook_targets(f, occ).union(bishop_targets(f, occ))
    } else {
        king_targets(f)
    }
}

/// The moves of a piece of kind `kind` on a square: to each attacked square not held by a friend.
pub open spec fn piece_from(kind: int, occ: Set<int>, friends: Set<int>) -> spec_fn(int) -> Seq<
    u16,
> {
    |f: int| plain_moves(f, attack_set(kind, f, occ).difference(friends))
}

/// The moves of the pieces `pieces` of kind `kind` among `friends`, by ascending origin.
#[verifier::opaque]
pub open spec fn piece_moves(kind: int, pieces: Set<int>, occ: Set<int>, friends: Set<int>) -> Seq<
    u16,
> {
    squares(pieces.intersect(friends)).flat_map(piece_from(kind, occ, friends))
}

/// A piece kind that moves by its attacks.
pub open spec fn is_officer(kind: int) -> bool {
    kind == N || kind == B || kind == R || kind == Q || kind == K
}

/// Appends the moves of the pieces of kind `PC` among `friends`.
pub fn pc_moves<const PC: usize>(moves: &mut MoveList, pos: &Pos, occ: u64, friends: u64)
    requires
        is_officer(PC as int),
        old(moves).wf(),
        fits(old(moves)@, piece_moves(PC as int, bb_set(pos.pc[PC as int]), bb_set(occ), bb_set(friends))),
    ensures
        final(moves).wf(),
        final(moves).keeps_tail(*old(moves)),
        final(moves)@ == old(moves)@ + piece_moves(
            PC as int,
            bb_set(pos.pc[PC as int]),
            bb_set(occ),
            bb_set(friends),
        ),
{
    proof {
        reveal(piece_moves);
    }
    let ghost g = piece_from(PC as int, bb_set(occ), bb_set(friends));
    let ghost all = piece_moves(PC as int, bb_set(pos.pc[PC as int]), bb_set(occ), bb_set(friends));
    let mut attackers: u64 = pos.pc[PC] & friends;
    proof {
        lemma_bb_ops(pos.pc[PC as int], friends);
    }
    while attackers > 0
        invariant
            moves.wf(),
            moves.keeps_tail(*old(moves)),
            is_officer(PC as int),
            g == piece_from(PC as int, bb_set(occ), bb_set(friends)),
            moves@ + squares(bb_set(attackers)).flat_map(g) == old(moves)@ + all,
            fits(old(moves)@, all),
        decreases squares(bb_set(attackers)).len(),
    {
        let ghost pushed = moves@;
        let from: u16 = pop_lsb(&mut attackers);
        let ghost rest = squares(bb_set(attackers)).flat_map(g);
        let idx: usize = from as usize;
        let attacks: u64 = if PC == N {
            knight_attacks(idx)
        } else if PC == R {
            ratt(idx, occ)
        } else if PC == B {
            batt(idx, occ)
        } else if PC == Q {
            let ra: u64 = ratt(idx, occ);
            let ba: u64 = batt(idx, occ);
            proof {
                lemma_bb_ops(ra, ba);
            }
            ra | ba
        } else {
            king_attacks(idx)
        };
        let targets: u64 = attacks & !friends;
        proof {
            assert(bb_set(attacks) == attack_set(PC as int, from as int, bb_set(occ)));
            lemma_bb_ops(attacks, friends);
            lemma_flat_map_cons(from as int, squares(bb_set(attackers)), g);
            assert(g(from as int) == plain_moves(from as int, bb_set(targets)));
            assert(pushed + (g(from as int) + rest) == old(moves)@ + all);
            assert((pushed + (g(from as int) + rest)).len() == pushed.len() + g(from as int).len()
                + rest.len());
        }
        encode(moves, targets, from);
        proof {
            assert(moves@ + rest =~= pushed + (g(from as int) + rest));
        }
    }
    proof {
        lemma_squares_of_zero();
        assert(moves@ =~= old(moves)@ + all);
    }
}

/// Whether the king of the side to move of `b` is attacked.
pub open spec fn in_check_spec(b: Board) -> bool {
    attacked(b, king_square(b, b.c), b.c, bb_set(b.s[0] | b.s[1]))
}

/// The castling moves `gen` adds: none while the side to move has no castling right left or is
/// in check.
pub open spec fn gen_castles(b: Board) -> Seq<u16> {
    if b.cr & SIDES[b.c] != 0 && !in_check_spec(b) {
        castle_moves(b, b.s[0] | b.s[1])
    } else {
        Seq::empty()
    }
}

/// The en-passant captures `gen` adds: none when no en-passant square is set.
pub open spec fn gen_ep(b: Board) -> Seq<u16> {
    if b.enp > 0 {
        ep_moves(b.c, bb_set(b.pc[P as int] & b.s[b.c]), b.enp as int)
    } else {
        Seq::empty()
    }
}

/// The pseudo-legal moves of the side to move of `b`, in the order `gen` adds them: pawn pushes,
/// castling, pawn captures, en-passant captures, then the moves of knights, bishops, rooks,
/// queens and king.
pub open spec fn gen_moves(b: Board) -> Seq<u16> {
    let occ = bb_set(b.s[0] | b.s[1]);
    let friends = bb_set(b.s[b.c]);
    let pawns = bb_set(b.pc[P as int] & b.s[b.c]);
    pawn_push_moves(b.c, occ, pawns) + gen_castles(b) + pawn_capture_moves(
        b.c,
        pawns,
        bb_set(b.s[1 - b.c]),
    ) + gen_ep(b) + piece_moves(N as int, bb_set(b.pc[N as int]), occ, friends) + piece_moves(
        B as int,
        bb_set(b.pc[B as int]),
        occ,
        friends,
    ) + piece_moves(R as int, bb_set(b.pc[R as int]), occ, friends) + piece_moves(
        Q as int,
        bb_set(b.pc[Q as int]),
        occ,
        friends,
    ) + piece_moves(K as int, bb_set(b.pc[K as int]), occ, friends)
}

/// Appends the pseudo-legal moves of the side to move of `pos` (see `gen_moves`).
pub fn gen(pos: &Pos, moves: &mut MoveList)
    requires
        pos.wf(),
        pos.state.enp < 64,
        pos.state.cr & SIDES[pos.c as int] != 0 ==> pos.pc[K as int] & pos.s[pos.c as int] != 0,
        old(moves).wf(),
        fits(old(moves)@, gen_moves(pos@)),
    ensures
        final(moves).wf(),
        final(moves).keeps_tail(*old(moves)),
        final(moves)@ == old(moves)@ + gen_moves(pos@),
{
    let ghost b = pos@;
    let ghost c = pos.c as int;
    let ghost occs = bb_set(b.s[0] | b.s[1]);
    let ghost fs = bb_set(b.s[c]);
    let ghost pws = bb_set(b.pc[P as int] & b.s[c]);
    let ghost a1 = pawn_push_moves(c, occs, pws);
    let ghost a2 = gen_castles(b);
    let ghost a3 = pawn_capture_moves(c, pws, bb_set(b.s[1 - c]));
    let ghost a4 = gen_ep(b);
    let ghost a5 = piece_moves(N as int, bb_set(b.pc[N as int]), occs, fs);
    let ghost a6 = piece_moves(B as int, bb_set(b.pc[B as int]), occs, fs);
    let ghost a7 = piece_moves(R as int, bb_set(b.pc[R as int]), occs, fs);
    let ghost a8 = piece_moves(Q as int, bb_set(b.pc[Q as int]), occs, fs);
    let ghost a9 = piece_moves(K as int, bb_set(b.pc[K as int]), occs, fs);
    let ghost base = moves@;
    let ghost p2 = a1 + a2;
    let ghost p3 = p2 + a3;
    let ghost p4 = p3 + a4;
    let ghost p5 = p4 + a5;
    let ghost p6 = p5 + a6;
    let ghost p7 = p6 + a7;
    let ghost p8 = p7 + a8;
    assert(gen_moves(b) == p8 + a9);
    let occ: u64 = pos.s[0] | pos.s[1];
    let friends: u64 = pos.s[pos.c];
    let pawns: u64 = pos.pc[P] & friends;
    if pos.c == WH {
        let ghost prev = *moves;
        pawn_pushes::<WH>(moves, occ, pawns);
        proof {
            lemma_keeps_tail_trans(*old(moves), prev, *moves);
        }
    } else {
        let ghost prev = *moves;
        pawn_pushes::<BL>(moves, occ, pawns);
        proof {
            lemma_keeps_tail_trans(*old(moves), prev, *moves);
        }
    }
    if pos.state.cr & SIDES[pos.c] > 0 && !pos.in_check() {
        let ghost prev = *moves;
        castles(moves, pos, occ);
        proof {
            lemma_keeps_tail_trans(*old(moves), prev, *moves);
        }
    } else {
        assert(moves@ =~= moves@ + a2);
    }
    proof {
        lemma_add_assoc(base, a1, a2);
        lemma_other_side(pos.c);
    }
    let ghost prev = *moves;
        pawn_captures(moves, pos.c, pawns, pos.s[pos.c ^ 1]);
        proof {
            lemma_keeps_tail_trans(*old(moves), prev, *moves);
        }
    proof {
        lemma_add_assoc(base, p2, a3);
    }
    if pos.state.enp > 0 {
        let ghost prev = *moves;
        en_passants(moves, pos.c, pawns, pos.state.enp);
        proof {
            lemma_keeps_tail_trans(*old(moves), prev, *moves);
        }
    } else {
        assert(moves@ =~= moves@ + a4);
    }
    proof {
        lemma_add_assoc(base, p3, a4);
    }
    let ghost prev = *moves;
        pc_moves::<N>(moves, pos, occ, friends);
        proof {
            lemma_keeps_tail_trans(*old(moves), prev, *moves);
        }
    proof {
        lemma_add_assoc(base, p4, a5);
    }
    let ghost prev = *moves;
        pc_moves::<B>(moves, pos, occ, friends);
        proof {
            lemma_keeps_tail_trans(*old(moves), prev, *moves);
        }
    proof {
        lemma_add_assoc(base, p5, a6);
    }
    let ghost prev = *moves;
        pc_moves::<R>(moves, pos, occ, friends);
        proof {
            lemma_keeps_tail_trans(*old(moves), prev, *moves);
        }
    proof {
        lemma_add_assoc(base, p6, a7);
    }
    let ghost prev = *moves;
        pc_moves::<Q>(moves, pos, occ, friends);
        proof {
            lemma_keeps_tail_trans(*old(moves), prev, *moves);
        }
    proof {
        lemma_add_assoc(base, p7, a8);
    }
    let ghost prev = *moves;
        pc_moves::<K>(moves, pos, occ, friends);
        proof {
            lemma_keeps_tail_trans(*old(moves), prev, *moves);
        }
    proof {
        lemma_add_assoc(base, p8, a9);
    }
}

/// Keeping the tail is transitive along growing lists.
pub proof fn lemma_keeps_tail_trans(a: MoveList, b: MoveList, c: MoveList)
    requires
        b.keeps_tail(a),
        c.keeps_tail(b),
        b.wf(),
        c.wf(),
        b@.len() <= c@.len(),
    ensures
        c.keeps_tail(a),
{
    assert(b@.len() == b.len && c@.len() == c.len);
}

/// Concatenation is associative.
pub proof fn lemma_add_assoc<A>(x: Seq<A>, y: Seq<A>, z: Seq<A>)
    ensures
        x + y + z == x + (y + z),
{
    assert(x + y + z =~= x + (y + z));
}

/// A move's flag, origin and destination can be read back from its encoding.
pub proof fn lemma_code_fields(flag: int, from: int, to: int)
    requires
        0 <= flag < 16,
        is_square(from),
        is_square(to),
    ensures
        code_flag(code(flag, from, to)) == flag,
        code_from(code(flag, from, to)) == from,
        code_to(code(flag, from, to)) == to,
{
    let v = flag * 4096 + from * 64 + to;
    assert(0 <= v < 65536) by (nonlinear_arith)
        requires
            0 <= flag < 16,
            0 <= from < 64,
            0 <= to < 64,
            v == flag * 4096 + from * 64 + to,
    ;
    assert(code(flag, from, to) as int == v);
    assert(v / 4096 == flag && (v / 64) % 64 == from && v % 64 == to) by (nonlinear_arith)
        requires
            0 <= flag < 16,
            0 <= from < 64,
            0 <= to < 64,
            v == flag * 4096 + from * 64 + to,
    ;
}

/// An element of a flat map comes from the image of one of the elements.
pub proof fn lemma_flat_map_contains<A, C>(s: Seq<A>, g: spec_fn(A) -> Seq<C>, x: C)
    ensures
        s.flat_map(g).contains(x) <==> exists|i: int| 0 <= i < s.len() && #[trigger] g(s[i]).contains(x),
    decreases s.len(),
{
    if s.len() > 0 {
        let init = s.drop_last();
        lemma_flat_map_contains(init, g, x);
        init.lemma_flat_map_push(g, s.last());
        assert(init.push(s.last()) =~= s);
        let fi = init.flat_map(g);
        let fl = g(s.last());
        if s.flat_map(g).contains(x) {
            let k = choose|k: int| 0 <= k < (fi + fl).len() && (fi + fl)[k] == x;
            if k < fi.len() {
                assert(fi[k] == x);
                assert(fi.contains(x));
                let i = choose|i: int| 0 <= i < init.len() && #[trigger] g(init[i]).contains(x);
                assert(s[i] == init[i]);
            } else {
                assert(fl[k - fi.len()] == x);
                assert(g(s[s.len() - 1]).contains(x));
            }
        }
        if exists|i: int| 0 <= i < s.len() && #[trigger] g(s[i]).contains(x) {
            let i = choose|i: int| 0 <= i < s.len() && #[trigger] g(s[i]).contains(x);
            let gi = g(s[i]);
            let k = choose|k: int| 0 <= k < gi.len() && gi[k] == x;
            if i < s.len() - 1 {
                assert(init[i] == s[i]);
                assert(fi.contains(x));
                let j = choose|j: int| 0 <= j < fi.len() && fi[j] == x;
                assert((fi + fl)[j] == x);
            } else {
                assert(gi == fl);
                assert((fi + fl)[fi.len() + k] == x);
            }
        }
    }
}

/// The moves `pc_moves` adds for pieces of kind `kind` are exactly the plain moves of such a
/// piece of the side, from its square, to a square it attacks that no friend holds.
pub proof fn lemma_piece_moves_members(
    kind: int,
    pieces: Set<int>,
    occ: Set<int>,
    friends: Set<int>,
    m: u16,
)
    ensures
        piece_moves(kind, pieces, occ, friends).contains(m) <==> exists|from: int, to: int|
            #![trigger code(QUIET as int, from, to)]
            is_square(from) && pieces.contains(from) && friends.contains(from) && attack_set(
                kind,
                from,
                occ,
            ).contains(to) && !friends.contains(to) && is_square(to) && m == code(
                QUIET as int,
                from,
                to,
            ),
{
    reveal(piece_moves);
    let src = pieces.intersect(friends);
    let g = piece_from(kind, occ, friends);
    lemma_flat_map_contains(squares(src), g, m);
    lemma_squares_members(src, 0);
    if piece_moves(kind, pieces, occ, friends).contains(m) {
        let i = choose|i: int| 0 <= i < squares(src).len() && #[trigger] g(squares(src)[i]).contains(
            m,
        );
        let from = squares(src)[i];
        let tg = attack_set(kind, from, occ).difference(friends);
        lemma_flat_map_contains(squares(tg), plain_from(from), m);
        lemma_squares_members(tg, 0);
        let j = choose|j: int|
            0 <= j < squares(tg).len() && #[trigger] plain_from(from)(squares(tg)[j]).contains(m);
        let to = squares(tg)[j];
        assert(plain_from(from)(to) == seq![code(QUIET as int, from, to)]);
        assert(m == code(QUIET as int, from, to));
        assert(src.contains(squares_from(src, 0)[i]) && 0 <= squares_from(src, 0)[i] < 64);
        assert(src.contains(from) && 0 <= from < 64);
        assert(pieces.contains(from) && friends.contains(from));
        assert(tg.contains(squares_from(tg, 0)[j]) && 0 <= squares_from(tg, 0)[j] < 64);
        assert(tg.contains(to) && 0 <= to < 64);
        assert(attack_set(kind, from, occ).contains(to) && !friends.contains(to));
    }
    if exists|from: int, to: int|
        #![trigger code(QUIET as int, from, to)]
        is_square(from) && pieces.contains(from) && friends.contains(from) && attack_set(
            kind,
            from,
            occ,
        ).contains(to) && !friends.contains(to) && is_square(to) && m == code(QUIET as int, from, to) {
        let (from, to) = choose|from: int, to: int|
            #![trigger code(QUIET as int, from, to)]
            is_square(from) && pieces.contains(from) && friends.contains(from) && attack_set(
                kind,
                from,
                occ,
            ).contains(to) && !friends.contains(to) && is_square(to) && m == code(
                QUIET as int,
                from,
                to,
            );
        let tg = attack_set(kind, from, occ).difference(friends);
        lemma_squares_members(tg, 0);
        assert(tg.contains(to) && 0 <= to < 64);
        assert(squares(tg).contains(to));
        let j = choose|j: int| 0 <= j < squares(tg).len() && squares(tg)[j] == to;
        assert(plain_from(from)(squares(tg)[j]).contains(m)) by {
            assert(plain_from(from)(to)[0] == m);
        }
        lemma_flat_map_contains(squares(tg), plain_from(from), m);
        assert(src.contains(from) && 0 <= from < 64);
        assert(squares(src).contains(from));
        let i = choose|i: int| 0 <= i < squares(src).len() && squares(src)[i] == from;
        assert(g(squares(src)[i]).contains(m));
    }
}

} // verus!
