//! The position: piece and side bitboards, side to move, and the state that moves change.
use vstd::prelude::*;
use vstd::std_specs::bits::u64_trailing_zeros;
use vstd::set_lib::{set_int_range, lemma_int_range, lemma_len_subset};
use crate::consts::{E, WH, BL, P, N, B, R, Q, K, QUIET, CAP, ENP, DBL, KS, QS, PROMO, PROMO_CAP, QPROMO_CAP, CKM, CQM, CR, SIDES, WQS, WKS, BQS, BKS};
use crate::bits::{has_bit, bb_set, is_square, lemma_bb_ops, lemma_zero_iff_empty, lemma_single_bit, lemma_shift_sets};
use crate::attacks::{
    knight_step, king_step, pawn_step, rook_attacks, bishop_attacks, knight_attacks, king_attacks, pawn_attacks, ratt,
    batt, lemma_knight_symmetric, lemma_king_symmetric, lemma_pawn_symmetric,
    lemma_rook_symmetric, lemma_bishop_symmetric,
};

verus! {

/// A position. `pc[p]` holds the squares of the pieces of kind `p` (pawn `P` to king `K`; the
/// entries below `P` are unused), `s[side]` the squares of the pieces of `side`, and `c` is the
/// side to move (`WH` or `BL`).
#[derive(Clone, Copy, Default)]
pub struct Pos {
    pub pc: [u64; 8],
    pub s: [u64; 2],
    pub c: usize,
    pub state: State,
}

/// The part of a position that a move overwrites: the en-passant square (0 for none), the
/// half-move clock and the castling rights (`WKS | WQS | BKS | BQS`).
#[derive(Clone, Copy, Default)]
pub struct State {
    pub enp: u16,
    pub hfm: u8,
    pub cr: u8,
}

/// A move as `do_move` takes it: origin and destination squares, flag, and the kind of the
/// moving piece.
#[derive(Clone, Copy, Default)]
pub struct Move {
    pub from: u8,
    pub to: u8,
    pub flag: u8,
    pub mpc: u8,
}

/// What it takes to take a move back: the state before it, the encoded move, the moving and the
/// captured piece.
#[derive(Clone, Copy)]
pub struct MoveState {
    pub state: State,
    pub m: u16,
    pub mpc: u8,
    pub cpc: u8,
}

/// A position as the contracts see it.
#[verifier::ext_equal]
pub struct Board {
    pub pc: Seq<u64>,
    pub s: Seq<u64>,
    pub c: int,
    pub enp: u16,
    pub hfm: u8,
    pub cr: u8,
}

impl View for Pos {
    type V = Board;

    open spec fn view(&self) -> Board {
        Board {
            pc: self.pc@,
            s: self.s@,
            c: self.c as int,
            enp: self.state.enp,
            hfm: self.state.hfm,
            cr: self.state.cr,
        }
    }
}

impl Pos {
    /// The side to move is white or black.
    pub open spec fn wf(&self) -> bool {
        self.c < 2
    }
}

/// The board with `bit` flipped in the bitboard of piece kind `pc` and in that of `side`.
pub open spec fn toggled(b: Board, side: int, pc: int, bit: u64) -> Board {
    Board {
        pc: b.pc.update(pc, b.pc[pc] ^ bit),
        s: b.s.update(side, b.s[side] ^ bit),
        c: b.c,
        enp: b.enp,
        hfm: b.hfm,
        cr: b.cr,
    }
}

/// Piece of kind `p` stands on square `a`.
pub open spec fn holds(b: Board, p: int, a: int) -> bool {
    bb_set(b.pc[p]).contains(a)
}

/// A piece of the side that is not `side`, standing on `a`, attacks `idx` when the squares of
/// `occ` are occupied.
pub open spec fn attacks_from(b: Board, a: int, idx: int, side: int, occ: Set<int>) -> bool {
    &&& bb_set(b.s[1 - side]).contains(a)
    &&& {
        ||| holds(b, N as int, a) && knight_step(a, idx)
        ||| holds(b, K as int, a) && king_step(a, idx)
        ||| holds(b, P as int, a) && pawn_step(1 - side, a, idx)
        ||| (holds(b, R as int, a) || holds(b, Q as int, a)) && rook_attacks(a, idx, occ)
        ||| (holds(b, B as int, a) || holds(b, Q as int, a)) && bishop_attacks(a, idx, occ)
    }
}

/// Square `idx` is attacked by the side that is not `side`.
pub open spec fn attacked(b: Board, idx: int, side: int, occ: Set<int>) -> bool {
    exists|a: int| is_square(a) && #[trigger] attacks_from(b, a, idx, side, occ)
}

/// The kind code `get_pc` computes for the squares of `bit`: bit 0 from knights, rooks and kings,
/// bit 1 from pawns, knights, queens and kings, bit 2 from bishops, rooks, queens and kings.
pub open spec fn piece_code(b: Board, bit: u64) -> int {
    (if (b.pc[N as int] | b.pc[R as int] | b.pc[K as int]) & bit != 0 {
        1int
    } else {
        0int
    }) + (if (b.pc[P as int] | b.pc[N as int] | b.pc[Q as int] | b.pc[K as int]) & bit != 0 {
        2int
    } else {
        0int
    }) + (if (b.pc[B as int] | b.pc[R as int] | b.pc[Q as int] | b.pc[K as int]) & bit != 0 {
        4int
    } else {
        0int
    })
}

/// The kind of the piece on square `a`, or `E` for an empty square.
pub open spec fn piece_on(b: Board, a: int) -> int {
    if holds(b, P as int, a) {
        P as int
    } else if holds(b, N as int, a) {
        N as int
    } else if holds(b, B as int, a) {
        B as int
    } else if holds(b, R as int, a) {
        R as int
    } else if holds(b, Q as int, a) {
        Q as int
    } else if holds(b, K as int, a) {
        K as int
    } else {
        E as int
    }
}

/// No square holds two pieces.
pub open spec fn pieces_disjoint(b: Board) -> bool {
    forall|p: int, q: int, a: int|
        P <= p < q <= K ==> !(#[trigger] holds(b, p, a) && #[trigger] holds(b, q, a))
}

/// The piece that a move captures: none for a move without the capture flag or for an
/// en-passant capture (whose pawn is not on the destination), else the one on the destination.
pub open spec fn captured(b: Board, m: Move) -> int {
    if m.flag & CAP == 0 || m.flag == ENP {
        E as int
    } else {
        piece_code(b, 1u64 << (m.to as u64))
    }
}

/// The half-move clock restarts after a pawn move or a capture.
pub open spec fn resets_clock(b: Board, m: Move) -> bool {
    m.mpc == P || captured(b, m) != E
}

/// The board after `m` is played.
pub open spec fn after_move(b: Board, m: Move) -> Board {
    let f = 1u64 << (m.from as u64);
    let t = 1u64 << (m.to as u64);
    let mpc = m.mpc as int;
    let cpc = captured(b, m);
    let side = b.c;
    let opp = 1 - side;
    let b1 = toggled(Board { c: opp, ..b }, side, mpc, f | t);
    let b2 = Board {
        enp: 0,
        hfm: if resets_clock(b, m) {
            0
        } else {
            (b.hfm + 1) as u8
        },
        ..b1
    };
    let b3 = if cpc != E {
        toggled(b2, opp, cpc, t)
    } else {
        b2
    };
    let b4 = if cpc == R {
        Board { cr: b3.cr & CR[m.to as int], ..b3 }
    } else {
        b3
    };
    let b5 = if mpc == R || mpc == K {
        Board { cr: b4.cr & CR[m.from as int], ..b4 }
    } else {
        b4
    };
    if m.flag == DBL {
        Board {
            enp: if opp == BL {
                (m.to - 8) as u16
            } else {
                (m.to + 8) as u16
            },
            ..b5
        }
    } else if m.flag == KS {
        toggled(b5, side, R as int, CKM[side])
    } else if m.flag == QS {
        toggled(b5, side, R as int, CQM[side])
    } else if m.flag == ENP {
        toggled(
            b5,
            opp,
            P as int,
            if opp == WH {
                t << 8u64
            } else {
                t >> 8u64
            },
        )
    } else if m.flag >= PROMO {
        let promo = N + (m.flag & 3) as int;
        let pcs = b5.pc.update(mpc, b5.pc[mpc] ^ t);
        Board { pc: pcs.update(promo, pcs[promo] ^ t), ..b5 }
    } else {
        b5
    }
}

/// The square of the king of `side`.
pub open spec fn king_square(b: Board, side: int) -> int {
    u64_trailing_zeros(b.pc[K as int] & b.s[side]) as int
}

/// `side ^ 1` is the other side.
pub proof fn lemma_other_side(side: usize)
    requires
        side < 2,
    ensures
        side ^ 1 == 1 - side,
{
    assert(side ^ 1 == 1 - side) by (bit_vector)
        requires
            side < 2,
    ;
}

/// `x & y` is non-zero exactly when the two bitboards share a square.
proof fn lemma_and_nonzero(x: u64, y: u64)
    ensures
        (x & y != 0) == (exists|a: int| bb_set(x).contains(a) && bb_set(y).contains(a)),
{
    lemma_bb_ops(x, y);
    lemma_zero_iff_empty(x & y);
    if x & y != 0 {
        assert(!(bb_set(x & y) =~= Set::<int>::empty()));
        let a = choose|a: int| bb_set(x & y).contains(a);
        assert(bb_set(x).contains(a) && bb_set(y).contains(a));
    } else {
        assert forall|a: int| !(bb_set(x).contains(a) && bb_set(y).contains(a)) by {
            assert(!bb_set(x & y).contains(a));
        }
    }
}

impl Pos {
    /// Flips `bit` in the bitboard of piece kind `pc` and in that of `side`.
    pub fn toggle(&mut self, side: usize, pc: usize, bit: u64)
        requires
            side < 2,
            pc < 8,
        ensures
            final(self)@ == toggled(old(self)@, side as int, pc as int, bit),
    {
        self.pc[pc] = self.pc[pc] ^ bit;
        self.s[side] = self.s[side] ^ bit;
        proof {
            assert(self.pc@ =~= old(self).pc@.update(pc as int, old(self).pc@[pc as int] ^ bit));
            assert(self.s@ =~= old(self).s@.update(side as int, old(self).s@[side as int] ^ bit));
        }
    }

    /// Whether square `idx` is attacked by the side that is not `side`, sliding pieces being
    /// blocked by the squares of `occ`.
    pub fn is_sq_att(&self, idx: usize, side: usize, occ: u64) -> (r: bool)
        requires
            idx < 64,
            side < 2,
        ensures
            r == attacked(self@, idx as int, side as int, bb_set(occ)),
    {
        proof {
            lemma_other_side(side);
        }
        let s: u64 = self.s[side ^ 1];
        let pn: u64 = self.pc[N];
        let pk: u64 = self.pc[K];
        let pp: u64 = self.pc[P];
        let pr: u64 = self.pc[R];
        let pb: u64 = self.pc[B];
        let opp_queen: u64 = self.pc[Q] & s;
        let na: u64 = knight_attacks(idx);
        let ka: u64 = king_attacks(idx);
        let pa: u64 = pawn_attacks(side, idx);
        let ra: u64 = ratt(idx, occ);
        let ba: u64 = batt(idx, occ);
        let rooks: u64 = pr & s | opp_queen;
        let bishops: u64 = pb & s | opp_queen;
        let r = (na & (pn & s) > 0) || (ka & (pk & s) > 0) || (pa & (pp & s) > 0) || (ra & rooks
            > 0) || (ba & bishops > 0);
        proof {
            let b = self@;
            let ii = idx as int;
            let os = bb_set(occ);
            lemma_bb_ops(pn, s);
            lemma_bb_ops(pk, s);
            lemma_bb_ops(pp, s);
            lemma_bb_ops(pr, s);
            lemma_bb_ops(pb, s);
            lemma_bb_ops(self.pc[Q as int], s);
            lemma_bb_ops(pr & s, opp_queen);
            lemma_bb_ops(pb & s, opp_queen);
            lemma_and_nonzero(na, pn & s);
            lemma_and_nonzero(ka, pk & s);
            lemma_and_nonzero(pa, pp & s);
            lemma_and_nonzero(ra, rooks);
            lemma_and_nonzero(ba, bishops);
            if r {
                if na & (pn & s) > 0 {
                    let a = choose|a: int|
                        bb_set(na).contains(a) && bb_set(pn & s).contains(a);
                    lemma_knight_symmetric(ii, a);
                    assert(attacks_from(b, a, ii, side as int, os));
                } else if ka & (pk & s) > 0 {
                    let a = choose|a: int|
                        bb_set(ka).contains(a) && bb_set(pk & s).contains(a);
                    lemma_king_symmetric(ii, a);
                    assert(attacks_from(b, a, ii, side as int, os));
                } else if pa & (pp & s) > 0 {
                    let a = choose|a: int|
                        bb_set(pa).contains(a) && bb_set(pp & s).contains(a);
                    lemma_pawn_symmetric(side as int, ii, a);
                    assert(attacks_from(b, a, ii, side as int, os));
                } else if ra & rooks > 0 {
                    let a = choose|a: int| bb_set(ra).contains(a) && bb_set(rooks).contains(a);
                    lemma_rook_symmetric(ii, a, os);
                    assert(attacks_from(b, a, ii, side as int, os));
                } else {
                    let a = choose|a: int| bb_set(ba).contains(a) && bb_set(bishops).contains(a);
                    lemma_bishop_symmetric(ii, a, os);
                    assert(attacks_from(b, a, ii, side as int, os));
                }
            } else {
                assert forall|a: int| is_square(a) implies !#[trigger] attacks_from(
                    b,
                    a,
                    ii,
                    side as int,
                    os,
                ) by {
                    lemma_knight_symmetric(ii, a);
                    lemma_king_symmetric(ii, a);
                    lemma_pawn_symmetric(side as int, ii, a);
                    lemma_rook_symmetric(ii, a, os);
                    lemma_bishop_symmetric(ii, a, os);
                    if bb_set(s).contains(a) {
                        assert(!(bb_set(na).contains(a) && bb_set(pn & s).contains(a)));
                        assert(!(bb_set(ka).contains(a) && bb_set(pk & s).contains(a)));
                        assert(!(bb_set(pa).contains(a) && bb_set(pp & s).contains(a)));
                        assert(!(bb_set(ra).contains(a) && bb_set(rooks).contains(a)));
                        assert(!(bb_set(ba).contains(a) && bb_set(bishops).contains(a)));
                    }
                }
            }
        }
        r
    }
}

impl Pos {
    /// The kind code of the squares of `bit` (see `piece_code`): for a single occupied square of
    /// a position whose pieces do not overlap, the kind of the piece on it, else `E`.
    pub fn get_pc(&self, bit: u64) -> (r: usize)
        ensures
            r == piece_code(self@, bit),
            r < 8,
            forall|sq: int|
                is_square(sq) && bit == 1u64 << (sq as u64) && pieces_disjoint(self@) ==> r
                    == piece_on(self@, sq),
    {
        let b0: usize = if (self.pc[N] | self.pc[R] | self.pc[K]) & bit > 0 {
            1
        } else {
            0
        };
        let b1: usize = if (self.pc[P] | self.pc[N] | self.pc[Q] | self.pc[K]) & bit > 0 {
            2
        } else {
            0
        };
        let b2: usize = if (self.pc[B] | self.pc[R] | self.pc[Q] | self.pc[K]) & bit > 0 {
            4
        } else {
            0
        };
        proof {
            assert forall|sq: int|
                is_square(sq) && bit == 1u64 << (sq as u64) && pieces_disjoint(
                    self@,
                ) implies piece_code(self@, bit) == piece_on(self@, sq) by {
                lemma_get_pc_identifies(self@, sq);
            }
        }
        b0 + b1 + b2
    }

    /// Whether the king of the side to move is attacked.
    pub fn in_check(&self) -> (r: bool)
        requires
            self.wf(),
            self.pc[K as int] & self.s[self.c as int] != 0,
        ensures
            r == attacked(
                self@,
                king_square(self@, self.c as int),
                self.c as int,
                bb_set(self.s[0] | self.s[1]),
            ),
    {
        let kings: u64 = self.pc[K] & self.s[self.c];
        let king_idx: usize = kings.trailing_zeros() as usize;
        self.is_sq_att(king_idx, self.c, self.s[0] | self.s[1])
    }

    /// Plays `m`, and tells whether it leaves the king of the side that played it attacked.
    pub fn do_move(&mut self, m: Move) -> (r: bool)
        requires
            old(self).wf(),
            m.from < 64,
            m.to < 64,
            m.mpc < 8,
            m.flag == DBL && old(self).c == WH ==> m.to >= 8,
            !resets_clock(old(self)@, m) ==> old(self).state.hfm < 255,
            after_move(old(self)@, m).pc[K as int] & after_move(old(self)@, m).s[old(self).c as int]
                != 0,
        ensures
            final(self).wf(),
            final(self)@ == after_move(old(self)@, m),
            r == attacked(
                after_move(old(self)@, m),
                king_square(after_move(old(self)@, m), old(self).c as int),
                old(self).c as int,
                bb_set(after_move(old(self)@, m).s[0] | after_move(old(self)@, m).s[1]),
            ),
            consistent(old(self)@) && well_formed_move(old(self)@, m) ==> {
                &&& consistent(final(self)@)
                &&& !occupied(final(self)@, m.from as int)
                &&& piece_on(final(self)@, m.to as int) == (if m.flag >= PROMO {
                    N + (m.flag & 3)
                } else {
                    m.mpc as int
                })
            },
            consistent(old(self)@) && one_king_each(old(self)@) && well_formed_move(old(self)@, m)
                && !kings(old(self)@, 1 - old(self).c).contains(m.to as int) ==> {
                &&& one_king_each(final(self)@)
                &&& occupancy(final(self)@).len() == occupancy(old(self)@).len() - (if m.flag & CAP
                    != 0 {
                    1int
                } else {
                    0int
                })
            },
    {
        let ghost b0 = self@;
        let f: u64 = 1u64 << m.from;
        let t: u64 = 1u64 << m.to;
        let mpc: usize = m.mpc as usize;
        let cpc: usize = if m.flag & CAP == 0 || m.flag == ENP {
            E
        } else {
            self.get_pc(t)
        };
        let side: usize = self.c;
        proof {
            lemma_other_side(side);
        }
        self.c = self.c ^ 1;
        let opp: usize = self.c;
        self.toggle(side, mpc, f | t);
        self.state.enp = 0;
        self.state.hfm = if mpc == P || cpc != E {
            0
        } else {
            self.state.hfm + 1
        };
        if cpc != E {
            self.toggle(opp, cpc, t);
        }
        if cpc == R {
            self.state.cr = self.state.cr & CR[m.to as usize];
        }
        if mpc == R || mpc == K {
            self.state.cr = self.state.cr & CR[m.from as usize];
        }
        if m.flag == DBL {
            self.state.enp = if opp == BL {
                (m.to - 8) as u16
            } else {
                (m.to + 8) as u16
            };
        } else if m.flag == KS {
            self.toggle(side, R, CKM[side]);
        } else if m.flag == QS {
            self.toggle(side, R, CQM[side]);
        } else if m.flag == ENP {
            self.toggle(
                opp,
                P,
                if opp == WH {
                    t << 8u64
                } else {
                    t >> 8u64
                },
            );
        } else if m.flag >= PROMO {
            self.pc[mpc] = self.pc[mpc] ^ t;
            let fl: u8 = m.flag;
            proof {
                assert(fl & 3 <= 3) by (bit_vector);
            }
            let promo: usize = N + (fl & 3) as usize;
            self.pc[promo] = self.pc[promo] ^ t;
        }
        proof {
            assert(self@ =~= after_move(b0, m));
            if consistent(b0) && well_formed_move(b0, m) {
                lemma_do_move_consistent(b0, m);
                if plain_move(b0, m) {
                    lemma_plain_move_consistent(b0, m);
                } else if plain_capture(b0, m) {
                    lemma_capture_consistent(b0, m);
                } else if promotion(b0, m) {
                    lemma_promotion_consistent(b0, m);
                } else if en_passant(b0, m) {
                    lemma_en_passant_consistent(b0, m);
                } else {
                    lemma_castling_consistent(b0, m);
                }
                if one_king_each(b0) && !kings(b0, 1 - b0.c).contains(m.to as int) {
                    lemma_do_move_counts(b0, m);
                }
            }
        }
        let kings: u64 = self.pc[K] & self.s[side];
        let king_idx: usize = kings.trailing_zeros() as usize;
        self.is_sq_att(king_idx, side, self.s[0] | self.s[1])
    }
}

/// Flipping the same bit twice leaves the board as it was.
pub proof fn lemma_toggle_involution(b: Board, side: int, pc: int, bit: u64)
    requires
        0 <= side < b.s.len(),
        0 <= pc < b.pc.len(),
    ensures
        toggled(toggled(b, side, pc, bit), side, pc, bit) == b,
{
    let x = b.pc[pc];
    let y = b.s[side];
    assert((x ^ bit) ^ bit == x && (y ^ bit) ^ bit == y) by (bit_vector);
    assert(toggled(toggled(b, side, pc, bit), side, pc, bit) =~= b);
}

/// A word and a single bit share that bit exactly when the word holds its square.
proof fn lemma_and_single(x: u64, sq: int)
    requires
        is_square(sq),
    ensures
        (x & (1u64 << (sq as u64)) != 0) == bb_set(x).contains(sq),
{
    let bit = 1u64 << (sq as u64);
    lemma_single_bit(sq as u64);
    lemma_bb_ops(x, bit);
    lemma_zero_iff_empty(x & bit);
    if bb_set(x).contains(sq) {
        assert(bb_set(x & bit).contains(sq));
    } else {
        assert(bb_set(x & bit) =~= Set::<int>::empty());
    }
}

/// On a board whose pieces do not overlap, the kind code of a single square is the kind of the
/// piece on it, or `E` when it is empty.
pub proof fn lemma_get_pc_identifies(b: Board, sq: int)
    requires
        b.pc.len() == 8,
        pieces_disjoint(b),
        is_square(sq),
    ensures
        piece_code(b, 1u64 << (sq as u64)) == piece_on(b, sq),
{
    let pp = b.pc[P as int];
    let pn = b.pc[N as int];
    let pb = b.pc[B as int];
    let pr = b.pc[R as int];
    let pq = b.pc[Q as int];
    let pk = b.pc[K as int];
    lemma_bb_ops(pn, pr);
    lemma_bb_ops(pn | pr, pk);
    lemma_bb_ops(pp, pn);
    lemma_bb_ops(pp | pn, pq);
    lemma_bb_ops(pp | pn | pq, pk);
    lemma_bb_ops(pb, pr);
    lemma_bb_ops(pb | pr, pq);
    lemma_bb_ops(pb | pr | pq, pk);
    lemma_and_single(pn | pr | pk, sq);
    lemma_and_single(pp | pn | pq | pk, sq);
    lemma_and_single(pb | pr | pq | pk, sq);
    assert(holds(b, P as int, sq) ==> !holds(b, N as int, sq) && !holds(b, B as int, sq) && !holds(
        b,
        R as int,
        sq,
    ) && !holds(b, Q as int, sq) && !holds(b, K as int, sq));
    assert(holds(b, N as int, sq) ==> !holds(b, B as int, sq) && !holds(b, R as int, sq)
        && !holds(b, Q as int, sq) && !holds(b, K as int, sq));
    assert(holds(b, B as int, sq) ==> !holds(b, R as int, sq) && !holds(b, Q as int, sq)
        && !holds(b, K as int, sq));
    assert(holds(b, R as int, sq) ==> !holds(b, Q as int, sq) && !holds(b, K as int, sq));
    assert(holds(b, Q as int, sq) ==> !holds(b, K as int, sq));
}

/// What a move does to the turn and the clocks: the other side is to move, an en-passant square
/// is set only after a double step (the square the pawn passed), and the half-move clock
/// restarts after a pawn move or a capture and counts up otherwise.
pub proof fn lemma_after_move_turn(b: Board, m: Move)
    requires
        b.c == WH || b.c == BL,
    ensures
        after_move(b, m).c == 1 - b.c,
        after_move(b, m).enp == (if m.flag == DBL {
            if b.c == WH {
                (m.to - 8) as u16
            } else {
                (m.to + 8) as u16
            }
        } else {
            0
        }),
        after_move(b, m).hfm == (if resets_clock(b, m) {
            0
        } else {
            (b.hfm + 1) as u8
        }),
{
}

/// Some side has a piece on `a`.
pub open spec fn occupied(b: Board, a: int) -> bool {
    bb_set(b.s[0]).contains(a) || bb_set(b.s[1]).contains(a)
}

/// The bitboards agree with one another: no square holds two pieces or pieces of both sides,
/// the entries below `P` are zero, and a square is occupied by a side exactly when a piece
/// stands on it.
pub open spec fn consistent(b: Board) -> bool {
    &&& b.pc.len() == 8
    &&& b.s.len() == 2
    &&& pieces_disjoint(b)
    &&& forall|a: int| !(bb_set(b.s[0]).contains(a) && #[trigger] bb_set(b.s[1]).contains(a))
    &&& b.pc[0] == 0 && b.pc[1] == 0
    &&& forall|a: int|
        #[trigger] occupied(b, a) == (exists|p: int| P <= p <= K && #[trigger] holds(b, p, a))
}

/// The occupied squares.
pub open spec fn occupancy(b: Board) -> Set<int> {
    Set::new(|a: int| occupied(b, a))
}

/// The squares of the kings of `side`.
pub open spec fn kings(b: Board, side: int) -> Set<int> {
    Set::new(|a: int| holds(b, K as int, a) && bb_set(b.s[side]).contains(a))
}

/// Each side has exactly one king.
pub open spec fn one_king_each(b: Board) -> bool {
    kings(b, WH as int).len() == 1 && kings(b, BL as int).len() == 1
}

/// The piece a square holds on a board whose pieces do not overlap.
pub proof fn lemma_piece_on_holds(b: Board, p: int, a: int)
    requires
        pieces_disjoint(b),
        P <= p <= K,
        holds(b, p, a),
    ensures
        piece_on(b, a) == p,
{
    assert forall|q: int| P <= q <= K && q != p implies !#[trigger] holds(b, q, a) by {
        if q < p {
            assert(!(holds(b, q, a) && holds(b, p, a)));
        } else {
            assert(!(holds(b, p, a) && holds(b, q, a)));
        }
    }
}

/// `m` moves a piece of the side to move from its square to an empty square, as a quiet move or
/// a pawn's double step.
pub open spec fn plain_move(b: Board, m: Move) -> bool {
    &&& m.flag == QUIET || m.flag == DBL
    &&& m.from < 64
    &&& m.to < 64
    &&& P <= m.mpc <= K
    &&& holds(b, m.mpc as int, m.from as int)
    &&& bb_set(b.s[b.c]).contains(m.from as int)
    &&& !occupied(b, m.to as int)
}

/// A plain move keeps the bitboards consistent.
pub proof fn lemma_plain_move_consistent(b: Board, m: Move)
    requires
        consistent(b),
        b.c == WH || b.c == BL,
        plain_move(b, m),
    ensures
        consistent(after_move(b, m)),
        piece_on(after_move(b, m), m.to as int) == m.mpc,
        !occupied(after_move(b, m), m.from as int),
        occupancy(after_move(b, m)) == occupancy(b).remove(m.from as int).insert(m.to as int),
        kings(after_move(b, m), b.c) == (if m.mpc == K {
            kings(b, b.c).remove(m.from as int).insert(m.to as int)
        } else {
            kings(b, b.c)
        }),
        kings(after_move(b, m), 1 - b.c) == kings(b, 1 - b.c),
{
    let a2 = after_move(b, m);
    let from = m.from as int;
    let to = m.to as int;
    let mpc = m.mpc as int;
    let side = b.c;
    let ft = (1u64 << (m.from as u64)) | (1u64 << (m.to as u64));
    assert(0u8 & 4u8 == 0u8 && 1u8 & 4u8 == 0u8) by (bit_vector);
    assert(m.flag & CAP == 0);
    lemma_single_bit(m.from as u64);
    lemma_single_bit(m.to as u64);
    lemma_bb_ops(1u64 << (m.from as u64), 1u64 << (m.to as u64));
    lemma_bb_ops(b.pc[mpc], ft);
    lemma_bb_ops(b.s[side], ft);
    assert(bb_set(ft) =~= set![from, to]);
    assert(a2.pc == b.pc.update(mpc, b.pc[mpc] ^ ft));
    assert(a2.s == b.s.update(side, b.s[side] ^ ft));
    assert(from != to);
    assert forall|p: int, a: int| 0 <= p < 8 implies #[trigger] holds(a2, p, a) == if p == mpc && (
    a == from || a == to) {
        !holds(b, p, a)
    } else {
        holds(b, p, a)
    } by {}
    assert forall|sd: int, a: int| 0 <= sd < 2 implies #[trigger] bb_set(a2.s[sd]).contains(a) == if sd
        == side && (a == from || a == to) {
        !bb_set(b.s[sd]).contains(a)
    } else {
        bb_set(b.s[sd]).contains(a)
    } by {}
    assert(!holds(b, mpc, to)) by {
        if holds(b, mpc, to) {
            assert(occupied(b, to));
        }
    }
    assert forall|p: int| P <= p <= K implies !#[trigger] holds(b, p, to) by {
        if holds(b, p, to) {
            assert(occupied(b, to));
        }
    }
    assert forall|p: int| P <= p <= K && p != mpc implies !#[trigger] holds(b, p, from) by {
        if p < mpc {
            assert(!(holds(b, p, from) && holds(b, mpc, from)));
        } else {
            assert(!(holds(b, mpc, from) && holds(b, p, from)));
        }
    }
    assert(pieces_disjoint(a2));
    assert(a2.pc.len() == 8 && a2.s.len() == 2);
    assert forall|a: int| !(bb_set(a2.s[0]).contains(a) && #[trigger] bb_set(a2.s[1]).contains(a)) by {
        assert(!(bb_set(b.s[0]).contains(a) && bb_set(b.s[1]).contains(a)));
        if a == to {
            assert(!occupied(b, to));
        }
    }
    assert forall|a: int|
        #[trigger] occupied(a2, a) == (exists|p: int| P <= p <= K && #[trigger] holds(a2, p, a)) by {
        if a == to {
            assert(holds(a2, mpc, a));
        } else if a == from {
            assert forall|p: int| P <= p <= K implies !#[trigger] holds(a2, p, a) by {}
        } else {
            assert(occupied(a2, a) == occupied(b, a));
            if occupied(b, a) {
                let p = choose|p: int| P <= p <= K && #[trigger] holds(b, p, a);
                assert(holds(a2, p, a));
            }
            if exists|p: int| P <= p <= K && #[trigger] holds(a2, p, a) {
                let p = choose|p: int| P <= p <= K && #[trigger] holds(a2, p, a);
                assert(holds(b, p, a));
            }
        }
    }
    assert(holds(a2, mpc, to));
    lemma_piece_on_holds(a2, mpc, to);
    assert(!occupied(a2, from));
    assert(occupancy(a2) =~= occupancy(b).remove(from).insert(to));
    assert(kings(a2, side) =~= (if m.mpc == K {
        kings(b, side).remove(from).insert(to)
    } else {
        kings(b, side)
    }));
    assert(kings(a2, 1 - side) =~= kings(b, 1 - side));
}

/// `m` takes, with a piece of the side to move, a piece of the other side.
pub open spec fn plain_capture(b: Board, m: Move) -> bool {
    &&& m.flag == CAP
    &&& m.from < 64
    &&& m.to < 64
    &&& P <= m.mpc <= K
    &&& holds(b, m.mpc as int, m.from as int)
    &&& bb_set(b.s[b.c]).contains(m.from as int)
    &&& bb_set(b.s[1 - b.c]).contains(m.to as int)
}

/// A capture keeps the bitboards consistent: the captured piece leaves the board and the
/// capturing piece takes its square.
pub proof fn lemma_capture_consistent(b: Board, m: Move)
    requires
        consistent(b),
        b.c == WH || b.c == BL,
        plain_capture(b, m),
    ensures
        consistent(after_move(b, m)),
        piece_on(after_move(b, m), m.to as int) == m.mpc,
        !occupied(after_move(b, m), m.from as int),
        occupancy(after_move(b, m)) == occupancy(b).remove(m.from as int),
        kings(after_move(b, m), b.c) == (if m.mpc == K {
            kings(b, b.c).remove(m.from as int).insert(m.to as int)
        } else {
            kings(b, b.c)
        }),
        kings(after_move(b, m), 1 - b.c) == kings(b, 1 - b.c).remove(m.to as int),
{
    let a2 = after_move(b, m);
    let from = m.from as int;
    let to = m.to as int;
    let mpc = m.mpc as int;
    let side = b.c;
    let opp = 1 - side;
    let f = 1u64 << (m.from as u64);
    let t = 1u64 << (m.to as u64);
    let ft = f | t;
    assert(4u8 & 4u8 != 0u8) by (bit_vector);
    assert(m.flag & CAP != 0 && m.flag != ENP);
    lemma_get_pc_identifies(b, to);
    let cpc = piece_on(b, to);
    assert(occupied(b, to));
    let pw = choose|p: int| P <= p <= K && #[trigger] holds(b, p, to);
    assert(cpc != E) by {
        assert(holds(b, pw, to));
    }
    assert(P <= cpc <= K && holds(b, cpc, to));
    assert(captured(b, m) == cpc);
    lemma_single_bit(m.from as u64);
    lemma_single_bit(m.to as u64);
    lemma_bb_ops(f, t);
    assert(bb_set(ft) =~= set![from, to]);
    assert(from != to) by {
        assert(!(bb_set(b.s[0]).contains(to) && bb_set(b.s[1]).contains(to)));
    }
    let b1pc = b.pc.update(mpc, b.pc[mpc] ^ ft);
    let b1s = b.s.update(side, b.s[side] ^ ft);
    lemma_bb_ops(b.pc[mpc], ft);
    lemma_bb_ops(b.s[side], ft);
    lemma_bb_ops(b1pc[cpc], t);
    lemma_bb_ops(b1s[opp], t);
    assert(a2.pc == b1pc.update(cpc, b1pc[cpc] ^ t));
    assert(a2.s == b1s.update(opp, b1s[opp] ^ t));
    assert forall|p: int, a: int| 0 <= p < 8 implies #[trigger] holds(a2, p, a) == ((holds(b, p, a)
        != (p == mpc && (a == from || a == to))) != (p == cpc && a == to)) by {}
    assert forall|sd: int, a: int| 0 <= sd < 2 implies #[trigger] bb_set(a2.s[sd]).contains(a) == ((
    bb_set(b.s[sd]).contains(a) != (sd == side && (a == from || a == to))) != (sd == opp && a
        == to)) by {}
    assert forall|p: int| P <= p <= K && p != cpc implies !#[trigger] holds(b, p, to) by {
        if p < cpc {
            assert(!(holds(b, p, to) && holds(b, cpc, to)));
        } else {
            assert(!(holds(b, cpc, to) && holds(b, p, to)));
        }
    }
    assert forall|p: int| P <= p <= K && p != mpc implies !#[trigger] holds(b, p, from) by {
        if p < mpc {
            assert(!(holds(b, p, from) && holds(b, mpc, from)));
        } else {
            assert(!(holds(b, mpc, from) && holds(b, p, from)));
        }
    }
    assert(!bb_set(b.s[opp]).contains(from)) by {
        assert(!(bb_set(b.s[0]).contains(from) && bb_set(b.s[1]).contains(from)));
    }
    assert(!bb_set(b.s[side]).contains(to)) by {
        assert(!(bb_set(b.s[0]).contains(to) && bb_set(b.s[1]).contains(to)));
    }
    assert(holds(a2, mpc, to));
    assert forall|p: int| P <= p <= K && p != mpc implies !#[trigger] holds(a2, p, to) by {}
    assert forall|p: int| P <= p <= K implies !#[trigger] holds(a2, p, from) by {}
    assert(pieces_disjoint(a2));
    assert(a2.pc.len() == 8 && a2.s.len() == 2);
    assert forall|a: int| !(bb_set(a2.s[0]).contains(a) && #[trigger] bb_set(a2.s[1]).contains(a)) by {
        assert(!(bb_set(b.s[0]).contains(a) && bb_set(b.s[1]).contains(a)));
    }
    assert forall|a: int|
        #[trigger] occupied(a2, a) == (exists|p: int| P <= p <= K && #[trigger] holds(a2, p, a)) by {
        if a == to {
            assert(holds(a2, mpc, a));
        } else if a == from {
        } else {
            assert(occupied(a2, a) == occupied(b, a));
            if occupied(b, a) {
                let p = choose|p: int| P <= p <= K && #[trigger] holds(b, p, a);
                assert(holds(a2, p, a));
            }
            if exists|p: int| P <= p <= K && #[trigger] holds(a2, p, a) {
                let p = choose|p: int| P <= p <= K && #[trigger] holds(a2, p, a);
                assert(holds(b, p, a));
            }
        }
    }
    assert(!occupied(a2, from));
    assert(occupancy(a2) =~= occupancy(b).remove(from));
    assert(kings(a2, side) =~= (if m.mpc == K {
        kings(b, side).remove(from).insert(to)
    } else {
        kings(b, side)
    }));
    assert(kings(a2, opp) =~= kings(b, opp).remove(to));
}

/// `m` promotes a pawn of the side to move, on an empty square or taking a piece of the other
/// side.
pub open spec fn promotion(b: Board, m: Move) -> bool {
    &&& PROMO <= m.flag <= QPROMO_CAP
    &&& m.from < 64
    &&& m.to < 64
    &&& m.mpc == P
    &&& holds(b, P as int, m.from as int)
    &&& bb_set(b.s[b.c]).contains(m.from as int)
    &&& if m.flag >= PROMO_CAP {
        bb_set(b.s[1 - b.c]).contains(m.to as int)
    } else {
        !occupied(b, m.to as int)
    }
}

/// A promotion keeps the bitboards consistent: the pawn leaves its square, a piece of the kind
/// the flag names (knight, bishop, rook or queen) stands on the destination, and a taken piece
/// leaves the board.
pub proof fn lemma_promotion_consistent(b: Board, m: Move)
    requires
        consistent(b),
        b.c == WH || b.c == BL,
        promotion(b, m),
    ensures
        consistent(after_move(b, m)),
        piece_on(after_move(b, m), m.to as int) == N + (m.flag & 3),
        !occupied(after_move(b, m), m.from as int),
        occupancy(after_move(b, m)) == (if m.flag >= PROMO_CAP {
            occupancy(b).remove(m.from as int)
        } else {
            occupancy(b).remove(m.from as int).insert(m.to as int)
        }),
        kings(after_move(b, m), b.c) == kings(b, b.c),
        kings(after_move(b, m), 1 - b.c) == kings(b, 1 - b.c).remove(m.to as int),
{
    let a2 = after_move(b, m);
    let from = m.from as int;
    let to = m.to as int;
    let pi = P as int;
    let side = b.c;
    let opp = 1 - side;
    let f = 1u64 << (m.from as u64);
    let t = 1u64 << (m.to as u64);
    let ft = f | t;
    let fl = m.flag;
    assert((fl & 4 != 0) == (fl >= 12) && fl & 3 <= 3 && fl != 5) by (bit_vector)
        requires
            8 <= fl <= 15,
    ;
    let cap = m.flag >= PROMO_CAP;
    let promo = N + (m.flag & 3) as int;
    assert(N <= promo <= Q);
    lemma_single_bit(m.from as u64);
    lemma_single_bit(m.to as u64);
    lemma_bb_ops(f, t);
    assert(bb_set(ft) =~= set![from, to]);
    if cap {
        assert(from != to) by {
            assert(!(bb_set(b.s[0]).contains(to) && bb_set(b.s[1]).contains(to)));
        }
        assert(occupied(b, to));
    } else {
        assert(from != to) by {
            assert(occupied(b, from));
        }
    }
    let cpc = if cap {
        piece_on(b, to)
    } else {
        E as int
    };
    if cap {
        lemma_get_pc_identifies(b, to);
        let pw = choose|p: int| P <= p <= K && #[trigger] holds(b, p, to);
        assert(holds(b, pw, to));
        assert(P <= cpc <= K && holds(b, cpc, to));
    }
    assert(captured(b, m) == cpc);
    let w1 = b.pc[pi] ^ ft;
    let pc1 = b.pc.update(pi, w1);
    let pc3 = if cap {
        pc1.update(cpc, pc1[cpc] ^ t)
    } else {
        pc1
    };
    let pcs = pc3.update(pi, pc3[pi] ^ t);
    let fin = pcs.update(promo, pcs[promo] ^ t);
    let s1 = b.s.update(side, b.s[side] ^ ft);
    let s3 = if cap {
        s1.update(opp, s1[opp] ^ t)
    } else {
        s1
    };
    assert(a2.pc == fin);
    assert(a2.s == s3);
    lemma_bb_ops(b.pc[pi], ft);
    lemma_bb_ops(pc1[cpc], t);
    lemma_bb_ops(pc3[pi], t);
    lemma_bb_ops(pcs[promo], t);
    lemma_bb_ops(b.s[side], ft);
    lemma_bb_ops(s1[opp], t);
    assert forall|p: int, a: int| 0 <= p < 8 implies #[trigger] holds(a2, p, a) == ((((holds(
        b,
        p,
        a,
    ) != (p == pi && (a == from || a == to))) != (cap && p == cpc && a == to)) != (p == pi && a
        == to)) != (p == promo && a == to)) by {}
    assert forall|sd: int, a: int| 0 <= sd < 2 implies #[trigger] bb_set(a2.s[sd]).contains(a) == ((
    bb_set(b.s[sd]).contains(a) != (sd == side && (a == from || a == to))) != (cap && sd == opp
        && a == to)) by {}
    assert forall|p: int| P <= p <= K && (!cap || p != cpc) implies !#[trigger] holds(b, p, to) by {
        if holds(b, p, to) {
            assert(occupied(b, to));
            if cap {
                if p < cpc {
                    assert(!(holds(b, p, to) && holds(b, cpc, to)));
                } else {
                    assert(!(holds(b, cpc, to) && holds(b, p, to)));
                }
            }
        }
    }
    assert forall|p: int| P <= p <= K && p != pi implies !#[trigger] holds(b, p, from) by {
        assert(!(holds(b, pi, from) && holds(b, p, from)));
    }
    assert(!bb_set(b.s[opp]).contains(from)) by {
        assert(!(bb_set(b.s[0]).contains(from) && bb_set(b.s[1]).contains(from)));
    }
    assert(!bb_set(b.s[side]).contains(to)) by {
        assert(!(bb_set(b.s[0]).contains(to) && bb_set(b.s[1]).contains(to)));
    }
    assert(holds(a2, promo, to));
    assert forall|p: int| P <= p <= K && p != promo implies !#[trigger] holds(a2, p, to) by {}
    assert forall|p: int| P <= p <= K implies !#[trigger] holds(a2, p, from) by {}
    assert(pieces_disjoint(a2));
    assert(a2.pc.len() == 8 && a2.s.len() == 2);
    assert forall|a: int| !(bb_set(a2.s[0]).contains(a) && #[trigger] bb_set(a2.s[1]).contains(a)) by {
        assert(!(bb_set(b.s[0]).contains(a) && bb_set(b.s[1]).contains(a)));
    }
    assert forall|a: int|
        #[trigger] occupied(a2, a) == (exists|p: int| P <= p <= K && #[trigger] holds(a2, p, a)) by {
        if a == to {
            assert(holds(a2, promo, a));
        } else if a == from {
        } else {
            assert(occupied(a2, a) == occupied(b, a));
            if occupied(b, a) {
                let p = choose|p: int| P <= p <= K && #[trigger] holds(b, p, a);
                assert(holds(a2, p, a));
            }
            if exists|p: int| P <= p <= K && #[trigger] holds(a2, p, a) {
                let p = choose|p: int| P <= p <= K && #[trigger] holds(a2, p, a);
                assert(holds(b, p, a));
            }
        }
    }
    assert(!occupied(a2, from));
    assert(occupancy(a2) =~= (if cap {
        occupancy(b).remove(from)
    } else {
        occupancy(b).remove(from).insert(to)
    }));
    assert(kings(a2, side) =~= kings(b, side));
    assert(kings(a2, opp) =~= kings(b, opp).remove(to));
}

/// The square of the pawn an en-passant capture onto `to` takes.
pub open spec fn ep_victim(side: int, to: int) -> int {
    if side == WH {
        to - 8
    } else {
        to + 8
    }
}

/// `m` takes en passant: a pawn of the side to move goes to the empty square behind a pawn of
/// the other side, which it takes.
pub open spec fn en_passant(b: Board, m: Move) -> bool {
    &&& m.flag == ENP
    &&& m.from < 64
    &&& m.to < 64
    &&& m.mpc == P
    &&& holds(b, P as int, m.from as int)
    &&& bb_set(b.s[b.c]).contains(m.from as int)
    &&& !occupied(b, m.to as int)
    &&& is_square(ep_victim(b.c, m.to as int))
    &&& holds(b, P as int, ep_victim(b.c, m.to as int))
    &&& bb_set(b.s[1 - b.c]).contains(ep_victim(b.c, m.to as int))
}

/// An en-passant capture keeps the bitboards consistent: the taking pawn moves and the taken
/// pawn leaves the board.
pub proof fn lemma_en_passant_consistent(b: Board, m: Move)
    requires
        consistent(b),
        b.c == WH || b.c == BL,
        en_passant(b, m),
    ensures
        consistent(after_move(b, m)),
        piece_on(after_move(b, m), m.to as int) == P,
        !occupied(after_move(b, m), m.from as int),
        !occupied(after_move(b, m), ep_victim(b.c, m.to as int)),
        occupancy(after_move(b, m)) == occupancy(b).remove(m.from as int).remove(
            ep_victim(b.c, m.to as int),
        ).insert(m.to as int),
        kings(after_move(b, m), b.c) == kings(b, b.c),
        kings(after_move(b, m), 1 - b.c) == kings(b, 1 - b.c),
{
    let a2 = after_move(b, m);
    let from = m.from as int;
    let to = m.to as int;
    let pi = P as int;
    let side = b.c;
    let opp = 1 - side;
    let v = ep_victim(side, to);
    let f = 1u64 << (m.from as u64);
    let t = 1u64 << (m.to as u64);
    let ft = f | t;
    let vb = if opp == WH {
        t << 8u64
    } else {
        t >> 8u64
    };
    assert(captured(b, m) == E);
    lemma_single_bit(m.from as u64);
    lemma_single_bit(m.to as u64);
    lemma_bb_ops(f, t);
    lemma_shift_sets(t, 8);
    assert(bb_set(ft) =~= set![from, to]);
    assert(bb_set(vb) =~= set![v]);
    assert(from != to) by {
        assert(occupied(b, from));
    }
    assert(v != to && v != from) by {
        assert(occupied(b, v));
        assert(!(bb_set(b.s[0]).contains(v) && bb_set(b.s[1]).contains(v)));
    }
    let pc1 = b.pc.update(pi, b.pc[pi] ^ ft);
    let s1 = b.s.update(side, b.s[side] ^ ft);
    assert(a2.pc == pc1.update(pi, pc1[pi] ^ vb));
    assert(a2.s == s1.update(opp, s1[opp] ^ vb));
    lemma_bb_ops(b.pc[pi], ft);
    lemma_bb_ops(pc1[pi], vb);
    lemma_bb_ops(b.s[side], ft);
    lemma_bb_ops(s1[opp], vb);
    assert forall|p: int, a: int| 0 <= p < 8 implies #[trigger] holds(a2, p, a) == ((holds(b, p, a)
        != (p == pi && (a == from || a == to))) != (p == pi && a == v)) by {}
    assert forall|sd: int, a: int| 0 <= sd < 2 implies #[trigger] bb_set(a2.s[sd]).contains(a) == ((
    bb_set(b.s[sd]).contains(a) != (sd == side && (a == from || a == to))) != (sd == opp && a
        == v)) by {}
    assert forall|p: int| P <= p <= K implies !#[trigger] holds(b, p, to) by {
        if holds(b, p, to) {
            assert(occupied(b, to));
        }
    }
    assert forall|p: int| P <= p <= K && p != pi implies !#[trigger] holds(b, p, from) by {
        assert(!(holds(b, pi, from) && holds(b, p, from)));
    }
    assert forall|p: int| P <= p <= K && p != pi implies !#[trigger] holds(b, p, v) by {
        assert(!(holds(b, pi, v) && holds(b, p, v)));
    }
    assert(!bb_set(b.s[opp]).contains(from)) by {
        assert(!(bb_set(b.s[0]).contains(from) && bb_set(b.s[1]).contains(from)));
    }
    assert(!bb_set(b.s[side]).contains(v)) by {
        assert(!(bb_set(b.s[0]).contains(v) && bb_set(b.s[1]).contains(v)));
    }
    assert(holds(a2, pi, to));
    assert forall|p: int| P <= p <= K && p != pi implies !#[trigger] holds(a2, p, to) by {}
    assert forall|p: int| P <= p <= K implies !#[trigger] holds(a2, p, from) by {}
    assert forall|p: int| P <= p <= K implies !#[trigger] holds(a2, p, v) by {}
    assert(pieces_disjoint(a2));
    assert(a2.pc.len() == 8 && a2.s.len() == 2);
    assert forall|a: int| !(bb_set(a2.s[0]).contains(a) && #[trigger] bb_set(a2.s[1]).contains(a)) by {
        assert(!(bb_set(b.s[0]).contains(a) && bb_set(b.s[1]).contains(a)));
    }
    assert forall|a: int|
        #[trigger] occupied(a2, a) == (exists|p: int| P <= p <= K && #[trigger] holds(a2, p, a)) by {
        if a == to {
            assert(holds(a2, pi, a));
        } else if a == from || a == v {
        } else {
            assert(occupied(a2, a) == occupied(b, a));
            if occupied(b, a) {
                let p = choose|p: int| P <= p <= K && #[trigger] holds(b, p, a);
                assert(holds(a2, p, a));
            }
            if exists|p: int| P <= p <= K && #[trigger] holds(a2, p, a) {
                let p = choose|p: int| P <= p <= K && #[trigger] holds(a2, p, a);
                assert(holds(b, p, a));
            }
        }
    }
    assert(!occupied(a2, from));
    assert(!occupied(a2, v));
    assert(occupancy(a2) =~= occupancy(b).remove(from).remove(v).insert(to));
    assert(kings(a2, side) =~= kings(b, side));
    assert(kings(a2, opp) =~= kings(b, opp));
}

/// The home square of the king of `side`.
pub open spec fn king_home(side: int) -> int {
    if side == WH {
        4
    } else {
        60
    }
}

/// Where the rook of a castling move starts: the corner on the king's or the queen's side.
pub open spec fn castle_rook_from(side: int, flag: u8) -> int {
    if flag == KS {
        king_home(side) + 3
    } else {
        king_home(side) - 4
    }
}

/// Where the rook of a castling move ends: the square the king passes over.
pub open spec fn castle_rook_to(side: int, flag: u8) -> int {
    if flag == KS {
        king_home(side) + 1
    } else {
        king_home(side) - 1
    }
}

/// `m` castles: the king of the side to move goes two squares from its home square towards a
/// rook of its side in the corner, and the squares the king passes over and lands on are empty.
pub open spec fn castling(b: Board, m: Move) -> bool {
    let from = m.from as int;
    let rf = castle_rook_from(b.c, m.flag);
    let rt = castle_rook_to(b.c, m.flag);
    &&& m.flag == KS || m.flag == QS
    &&& m.mpc == K
    &&& from == king_home(b.c)
    &&& m.to as int == (if m.flag == KS {
        from + 2
    } else {
        from - 2
    })
    &&& holds(b, K as int, from)
    &&& bb_set(b.s[b.c]).contains(from)
    &&& holds(b, R as int, rf)
    &&& bb_set(b.s[b.c]).contains(rf)
    &&& !occupied(b, rt)
    &&& !occupied(b, m.to as int)
}

/// Castling keeps the bitboards consistent: king and rook change squares.
pub proof fn lemma_castling_consistent(b: Board, m: Move)
    requires
        consistent(b),
        b.c == WH || b.c == BL,
        castling(b, m),
    ensures
        consistent(after_move(b, m)),
        piece_on(after_move(b, m), m.to as int) == K,
        piece_on(after_move(b, m), castle_rook_to(b.c, m.flag)) == R,
        !occupied(after_move(b, m), m.from as int),
        !occupied(after_move(b, m), castle_rook_from(b.c, m.flag)),
        occupancy(after_move(b, m)) == occupancy(b).remove(m.from as int).remove(
            castle_rook_from(b.c, m.flag),
        ).insert(m.to as int).insert(castle_rook_to(b.c, m.flag)),
        kings(after_move(b, m), b.c) == kings(b, b.c).remove(m.from as int).insert(m.to as int),
        kings(after_move(b, m), 1 - b.c) == kings(b, 1 - b.c),
{
    let a2 = after_move(b, m);
    let from = m.from as int;
    let to = m.to as int;
    let ki = K as int;
    let ri = R as int;
    let side = b.c;
    let rf = castle_rook_from(side, m.flag);
    let rt = castle_rook_to(side, m.flag);
    let f = 1u64 << (m.from as u64);
    let t = 1u64 << (m.to as u64);
    let ft = f | t;
    let rook_bits = if m.flag == KS {
        CKM[side]
    } else {
        CQM[side]
    };
    assert(2u8 & 4u8 == 0u8 && 3u8 & 4u8 == 0u8) by (bit_vector);
    assert(captured(b, m) == E);
    lemma_single_bit(m.from as u64);
    lemma_single_bit(m.to as u64);
    lemma_bb_ops(f, t);
    assert(bb_set(ft) =~= set![from, to]);
    assert forall|j: int| is_square(j) implies #[trigger] bb_set(rook_bits).contains(j) == (j == rf
        || j == rt) by {
        let u = j as u64;
        assert(has_bit(160u64, u) == (u == 5 || u == 7) && has_bit(0xA000000000000000u64, u) == (u
            == 61 || u == 63) && has_bit(9u64, u) == (u == 0 || u == 3) && has_bit(
            0x0900000000000000u64,
            u,
        ) == (u == 56 || u == 59)) by (bit_vector)
            requires
                u < 64,
        ;
    }
    assert(bb_set(rook_bits) =~= set![rf, rt]);
    let pc1 = b.pc.update(ki, b.pc[ki] ^ ft);
    let s1 = b.s.update(side, b.s[side] ^ ft);
    assert(a2.pc == pc1.update(ri, pc1[ri] ^ rook_bits));
    assert(a2.s == s1.update(side, s1[side] ^ rook_bits));
    lemma_bb_ops(b.pc[ki], ft);
    lemma_bb_ops(pc1[ri], rook_bits);
    lemma_bb_ops(b.s[side], ft);
    lemma_bb_ops(s1[side], rook_bits);
    assert forall|p: int, a: int| 0 <= p < 8 implies #[trigger] holds(a2, p, a) == ((holds(b, p, a)
        != (p == ki && (a == from || a == to))) != (p == ri && (a == rf || a == rt))) by {}
    assert forall|sd: int, a: int| 0 <= sd < 2 implies #[trigger] bb_set(a2.s[sd]).contains(a) == ((
    bb_set(b.s[sd]).contains(a) != (sd == side && (a == from || a == to))) != (sd == side && (a
        == rf || a == rt))) by {}
    assert forall|p: int| P <= p <= K implies !#[trigger] holds(b, p, to) && !holds(b, p, rt) by {
        if holds(b, p, to) {
            assert(occupied(b, to));
        }
        if holds(b, p, rt) {
            assert(occupied(b, rt));
        }
    }
    assert forall|p: int| P <= p <= K && p != ki implies !#[trigger] holds(b, p, from) by {
        assert(!(holds(b, p, from) && holds(b, ki, from)));
    }
    assert forall|p: int| P <= p <= K && p != ri implies !#[trigger] holds(b, p, rf) by {
        if p < ri {
            assert(!(holds(b, p, rf) && holds(b, ri, rf)));
        } else {
            assert(!(holds(b, ri, rf) && holds(b, p, rf)));
        }
    }
    assert(!bb_set(b.s[1 - side]).contains(from) && !bb_set(b.s[1 - side]).contains(rf)) by {
        assert(!(bb_set(b.s[0]).contains(from) && bb_set(b.s[1]).contains(from)));
        assert(!(bb_set(b.s[0]).contains(rf) && bb_set(b.s[1]).contains(rf)));
    }
    assert(holds(a2, ki, to) && holds(a2, ri, rt));
    assert forall|p: int| P <= p <= K && p != ki implies !#[trigger] holds(a2, p, to) by {}
    assert forall|p: int| P <= p <= K && p != ri implies !#[trigger] holds(a2, p, rt) by {}
    assert forall|p: int| P <= p <= K implies !#[trigger] holds(a2, p, from) && !holds(a2, p, rf) by {}
    assert(pieces_disjoint(a2));
    assert(a2.pc.len() == 8 && a2.s.len() == 2);
    assert forall|a: int| !(bb_set(a2.s[0]).contains(a) && #[trigger] bb_set(a2.s[1]).contains(a)) by {
        assert(!(bb_set(b.s[0]).contains(a) && bb_set(b.s[1]).contains(a)));
    }
    assert forall|a: int|
        #[trigger] occupied(a2, a) == (exists|p: int| P <= p <= K && #[trigger] holds(a2, p, a)) by {
        if a == to {
            assert(holds(a2, ki, a));
        } else if a == rt {
            assert(holds(a2, ri, a));
        } else if a == from || a == rf {
        } else {
            assert(occupied(a2, a) == occupied(b, a));
            if occupied(b, a) {
                let p = choose|p: int| P <= p <= K && #[trigger] holds(b, p, a);
                assert(holds(a2, p, a));
            }
            if exists|p: int| P <= p <= K && #[trigger] holds(a2, p, a) {
                let p = choose|p: int| P <= p <= K && #[trigger] holds(a2, p, a);
                assert(holds(b, p, a));
            }
        }
    }
    assert(!occupied(a2, from));
    assert(!occupied(a2, rf));
    assert(occupancy(a2) =~= occupancy(b).remove(from).remove(rf).insert(to).insert(rt));
    assert(kings(a2, side) =~= kings(b, side).remove(from).insert(to));
    assert(kings(a2, 1 - side) =~= kings(b, 1 - side));
}

/// A move the board allows: a quiet move or double step to an empty square, a capture, a
/// promotion, an en-passant capture, or castling.
pub open spec fn well_formed_move(b: Board, m: Move) -> bool {
    ||| plain_move(b, m)
    ||| plain_capture(b, m)
    ||| promotion(b, m)
    ||| en_passant(b, m)
    ||| castling(b, m)
}

/// Playing a move the board allows keeps the bitboards consistent.
pub proof fn lemma_do_move_consistent(b: Board, m: Move)
    requires
        consistent(b),
        b.c == WH || b.c == BL,
        well_formed_move(b, m),
    ensures
        consistent(after_move(b, m)),
{
    if plain_move(b, m) {
        lemma_plain_move_consistent(b, m);
    } else if plain_capture(b, m) {
        lemma_capture_consistent(b, m);
    } else if promotion(b, m) {
        lemma_promotion_consistent(b, m);
    } else if en_passant(b, m) {
        lemma_en_passant_consistent(b, m);
    } else {
        lemma_castling_consistent(b, m);
    }
}

/// The occupied squares and the kings of a board are finite sets of squares.
proof fn lemma_finite(b: Board)
    ensures
        occupancy(b).finite(),
        kings(b, WH as int).finite(),
        kings(b, BL as int).finite(),
{
    lemma_int_range(0, 64);
    let r = set_int_range(0, 64);
    assert(occupancy(b).subset_of(r));
    assert(kings(b, WH as int).subset_of(r));
    assert(kings(b, BL as int).subset_of(r));
    lemma_len_subset(occupancy(b), r);
    lemma_len_subset(kings(b, WH as int), r);
    lemma_len_subset(kings(b, BL as int), r);
}

/// Playing a move the board allows that does not take a king keeps the bitboards consistent and
/// one king on each side, and the number of occupied squares goes down by one exactly when the
/// move's flag has the capture bit (captures, capturing promotions, en passant).
pub proof fn lemma_do_move_counts(b: Board, m: Move)
    requires
        consistent(b),
        b.c == WH || b.c == BL,
        one_king_each(b),
        well_formed_move(b, m),
        !kings(b, 1 - b.c).contains(m.to as int),
    ensures
        consistent(after_move(b, m)),
        one_king_each(after_move(b, m)),
        occupancy(after_move(b, m)).len() == occupancy(b).len() - (if m.flag & CAP != 0 {
            1int
        } else {
            0int
        }),
{
    let a2 = after_move(b, m);
    let side = b.c;
    let opp = 1 - side;
    let from = m.from as int;
    let to = m.to as int;
    let fl = m.flag;
    lemma_finite(b);
    lemma_do_move_consistent(b, m);
    assert(fl < 16 ==> (fl & 4 != 0) == ((4 <= fl && fl < 8) || 12 <= fl)) by (bit_vector);
    assert(occupancy(b).contains(from));
    assert(kings(b, side).len() == 1 && kings(b, opp).len() == 1);
    if plain_move(b, m) {
        lemma_plain_move_consistent(b, m);
        assert(!occupancy(b).remove(from).contains(to));
        if m.mpc == K {
            assert(kings(b, side).contains(from));
            assert(!kings(b, side).remove(from).contains(to));
        }
    } else if plain_capture(b, m) {
        lemma_capture_consistent(b, m);
        if m.mpc == K {
            assert(kings(b, side).contains(from));
            assert(!kings(b, side).remove(from).contains(to)) by {
                assert(!(bb_set(b.s[0]).contains(to) && bb_set(b.s[1]).contains(to)));
            }
        }
    } else if promotion(b, m) {
        lemma_promotion_consistent(b, m);
        if fl < PROMO_CAP {
            assert(!occupancy(b).remove(from).contains(to));
        }
    } else if en_passant(b, m) {
        lemma_en_passant_consistent(b, m);
        let v = ep_victim(side, to);
        assert(occupancy(b).contains(v));
        assert(v != from) by {
            assert(!(bb_set(b.s[0]).contains(v) && bb_set(b.s[1]).contains(v)));
        }
        assert(!occupancy(b).remove(from).remove(v).contains(to));
    } else {
        lemma_castling_consistent(b, m);
        let rf = castle_rook_from(side, fl);
        let rt = castle_rook_to(side, fl);
        assert(occupancy(b).contains(rf));
        assert(rf != from);
        assert(!occupancy(b).remove(from).remove(rf).contains(to));
        assert(!occupancy(b).remove(from).remove(rf).insert(to).contains(rt));
        assert(kings(b, side).contains(from));
        assert(!kings(b, side).remove(from).contains(to));
    }
    assert(kings(a2, WH as int).len() == 1 && kings(a2, BL as int).len() == 1);
}

/// Clearing bits with two masks in turn never sets a bit, and clears every bit either mask lacks.
proof fn lemma_rights_masks(x: u8, c1: u8, c2: u8, mask: u8)
    ensures
        (x & c1) & c2 & !x == 0,
        (c1 & mask == 0 || c2 & mask == 0) ==> (x & c1) & c2 & mask == 0,
{
    assert((x & c1) & c2 & !x == 0 && ((c1 & mask == 0 || c2 & mask == 0) ==> (x & c1) & c2
        & mask == 0)) by (bit_vector);
}

/// What a move does to the castling rights: no right is ever gained; a king leaving its home
/// square loses both rights of its side; a rook leaving a corner, or a rook taken on a corner,
/// loses that corner's right (a1 `WQS`, h1 `WKS`, a8 `BQS`, h8 `BKS`).
pub proof fn lemma_castling_rights_after(b: Board, m: Move)
    requires
        b.c == WH || b.c == BL,
        m.from < 64,
        m.to < 64,
    ensures
        after_move(b, m).cr & !b.cr == 0,
        m.mpc == K && m.from as int == king_home(b.c) ==> after_move(b, m).cr & SIDES[b.c] == 0,
        m.mpc == R && m.from == 0 ==> after_move(b, m).cr & WQS == 0,
        m.mpc == R && m.from == 7 ==> after_move(b, m).cr & WKS == 0,
        m.mpc == R && m.from == 56 ==> after_move(b, m).cr & BQS == 0,
        m.mpc == R && m.from == 63 ==> after_move(b, m).cr & BKS == 0,
        captured(b, m) == R && m.to == 0 ==> after_move(b, m).cr & WQS == 0,
        captured(b, m) == R && m.to == 7 ==> after_move(b, m).cr & WKS == 0,
        captured(b, m) == R && m.to == 56 ==> after_move(b, m).cr & BQS == 0,
        captured(b, m) == R && m.to == 63 ==> after_move(b, m).cr & BKS == 0,
{
    let c1: u8 = if captured(b, m) == R {
        CR[m.to as int]
    } else {
        0xffu8
    };
    let c2: u8 = if m.mpc == R || m.mpc == K {
        CR[m.from as int]
    } else {
        0xffu8
    };
    let x = b.cr;
    assert(after_move(b, m).cr == (x & c1) & c2) by {
        assert(x & 0xffu8 == x && (x & c1) & 0xffu8 == x & c1) by (bit_vector);
    }
    assert(CR[0] == 7 && CR[4] == 3 && CR[7] == 11 && CR[56] == 13 && CR[60] == 12 && CR[63] == 14);
    assert(SIDES[0] == 12 && SIDES[1] == 3);
    assert(3u8 & 12u8 == 0 && 12u8 & 3u8 == 0 && 7u8 & 8u8 == 0 && 11u8 & 4u8 == 0 && 13u8 & 2u8
        == 0 && 14u8 & 1u8 == 0) by (bit_vector);
    lemma_rights_masks(x, c1, c2, 12);
    lemma_rights_masks(x, c1, c2, 3);
    lemma_rights_masks(x, c1, c2, WQS);
    lemma_rights_masks(x, c1, c2, WKS);
    lemma_rights_masks(x, c1, c2, BQS);
    lemma_rights_masks(x, c1, c2, BKS);
}

} // verus!
