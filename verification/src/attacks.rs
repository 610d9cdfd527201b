//! Attack sets of the pieces, with the geometry they are stated against.
use vstd::prelude::*;
use vstd::std_specs::bits::{u64_trailing_zeros, u64_leading_zeros, axiom_u64_leading_zeros};
use crate::consts::{MSB, LSB, FILE, DIAG, ANTI};
use crate::bits::{
    has_bit, bb_set, is_square, byte_swapped, swap_bytes, lemma_bit_ops, lemma_bb_ops,
    lemma_single_bit, lemma_zero_iff_empty, lemma_clear_lowest, lemma_swap_bit, lemma_mirror, lemma_sub_flips, lemma_range_empty,
};

verus! {

/// The rank (row, 0 = first rank) of a square.
pub open spec fn rank_of(s: int) -> int {
    s / 8
}

/// The file (column, 0 = a-file) of a square.
pub open spec fn file_of(s: int) -> int {
    s % 8
}

/// `x` lies strictly between `a` and `b`.
pub open spec fn strictly_between(a: int, x: int, b: int) -> bool {
    (a < x && x < b) || (b < x && x < a)
}

/// A knight on `s` attacks `t`.
pub open spec fn knight_step(s: int, t: int) -> bool {
    let df = file_of(t) - file_of(s);
    let dr = rank_of(t) - rank_of(s);
    &&& is_square(s)
    &&& is_square(t)
    &&& ((df == 1 || df == -1) && (dr == 2 || dr == -2)) || ((df == 2 || df == -2) && (dr == 1
        || dr == -1))
}

/// A king on `s` attacks `t`.
pub open spec fn king_step(s: int, t: int) -> bool {
    let df = file_of(t) - file_of(s);
    let dr = rank_of(t) - rank_of(s);
    &&& is_square(s)
    &&& is_square(t)
    &&& s != t
    &&& -1 <= df <= 1
    &&& -1 <= dr <= 1
}

/// A pawn of `side` (0 = white, moving up; 1 = black, moving down) on `s` attacks `t`.
pub open spec fn pawn_step(side: int, s: int, t: int) -> bool {
    let df = file_of(t) - file_of(s);
    let dr = rank_of(t) - rank_of(s);
    &&& is_square(s)
    &&& is_square(t)
    &&& (df == 1 || df == -1)
    &&& dr == (if side == 0 {
        1int
    } else {
        -1int
    })
}

/// `s` and `t` are distinct squares on one rank or one file.
pub open spec fn rook_line(s: int, t: int) -> bool {
    s != t && (rank_of(s) == rank_of(t) || file_of(s) == file_of(t))
}

/// `u` lies on the rank or file segment strictly between `s` and `t`.
pub open spec fn rook_between(s: int, u: int, t: int) -> bool {
    &&& is_square(u)
    &&& {
        ||| file_of(u) == file_of(s) && file_of(s) == file_of(t) && strictly_between(
            rank_of(s),
            rank_of(u),
            rank_of(t),
        )
        ||| rank_of(u) == rank_of(s) && rank_of(s) == rank_of(t) && strictly_between(
            file_of(s),
            file_of(u),
            file_of(t),
        )
    }
}

/// A rook on `s` attacks `t` when the squares of `occ` are occupied: `t` is on its rank or file
/// and no occupied square stands between them.
pub open spec fn rook_attacks(s: int, t: int, occ: Set<int>) -> bool {
    &&& is_square(s)
    &&& is_square(t)
    &&& rook_line(s, t)
    &&& forall|u: int| rook_between(s, u, t) ==> !occ.contains(u)
}

/// The diagonal (a1-h8 direction) a square lies on.
pub open spec fn diag_of(s: int) -> int {
    file_of(s) - rank_of(s)
}

/// The anti-diagonal (h1-a8 direction) a square lies on.
pub open spec fn anti_of(s: int) -> int {
    file_of(s) + rank_of(s)
}

/// `s` and `t` are distinct squares on one diagonal or anti-diagonal.
pub open spec fn bishop_line(s: int, t: int) -> bool {
    s != t && (diag_of(s) == diag_of(t) || anti_of(s) == anti_of(t))
}

/// `u` lies on the diagonal segment strictly between `s` and `t`.
pub open spec fn bishop_between(s: int, u: int, t: int) -> bool {
    &&& is_square(u)
    &&& (diag_of(u) == diag_of(s) && diag_of(s) == diag_of(t)) || (anti_of(u) == anti_of(s)
        && anti_of(s) == anti_of(t))
    &&& strictly_between(rank_of(s), rank_of(u), rank_of(t))
}

/// A bishop on `s` attacks `t` when the squares of `occ` are occupied.
pub open spec fn bishop_attacks(s: int, t: int, occ: Set<int>) -> bool {
    &&& is_square(s)
    &&& is_square(t)
    &&& bishop_line(s, t)
    &&& forall|u: int| bishop_between(s, u, t) ==> !occ.contains(u)
}

pub open spec fn knight_targets(s: int) -> Set<int> {
    Set::new(|t: int| knight_step(s, t))
}

pub open spec fn king_targets(s: int) -> Set<int> {
    Set::new(|t: int| king_step(s, t))
}

pub open spec fn pawn_targets(side: int, s: int) -> Set<int> {
    Set::new(|t: int| pawn_step(side, s, t))
}

pub open spec fn rook_targets(s: int, occ: Set<int>) -> Set<int> {
    Set::new(|t: int| rook_attacks(s, t, occ))
}

pub open spec fn bishop_targets(s: int, occ: Set<int>) -> Set<int> {
    Set::new(|t: int| bishop_attacks(s, t, occ))
}

// Bit-level forms of the fixed attack patterns of a single square `b`.
pub open spec fn knight_bb(b: u64) -> u64 {
    ((b << 17u64) & 0xfefefefefefefefe) | ((b << 15u64) & 0x7f7f7f7f7f7f7f7f) | ((b << 10u64)
        & 0xfcfcfcfcfcfcfcfc) | ((b << 6u64) & 0x3f3f3f3f3f3f3f3f) | ((b >> 17u64)
        & 0x7f7f7f7f7f7f7f7f) | ((b >> 15u64) & 0xfefefefefefefefe) | ((b >> 10u64)
        & 0x3f3f3f3f3f3f3f3f) | ((b >> 6u64) & 0xfcfcfcfcfcfcfcfc)
}

pub open spec fn king_bb(b: u64) -> u64 {
    (b << 8u64) | (b >> 8u64) | (((b << 1u64) | (b << 9u64) | (b >> 7u64)) & 0xfefefefefefefefe)
        | (((b >> 1u64) | (b >> 9u64) | (b << 7u64)) & 0x7f7f7f7f7f7f7f7f)
}

pub open spec fn pawn_bb(side: u64, b: u64) -> u64 {
    if side == 0 {
        ((b << 9u64) & 0xfefefefefefefefe) | ((b << 7u64) & 0x7f7f7f7f7f7f7f7f)
    } else {
        ((b >> 7u64) & 0xfefefefefefefefe) | ((b >> 9u64) & 0x7f7f7f7f7f7f7f7f)
    }
}

proof fn lemma_knight_bits(s: u64)
    requires
        s < 64,
    ensures
        bb_set(knight_bb(1u64 << s)) == knight_targets(s as int),
{
    assert forall|i: int| #[trigger] bb_set(knight_bb(1u64 << s)).contains(i) == knight_targets(
        s as int,
    ).contains(i) by {
        if is_square(i) {
            let t = i as u64;
            assert(has_bit(knight_bb(1u64 << s), t) == knight_step(s as int, t as int))
                by (bit_vector)
                requires
                    s < 64,
                    t < 64,
            ;
        }
    }
    assert(bb_set(knight_bb(1u64 << s)) =~= knight_targets(s as int));
}

proof fn lemma_king_bits(s: u64)
    requires
        s < 64,
    ensures
        bb_set(king_bb(1u64 << s)) == king_targets(s as int),
{
    assert forall|i: int| #[trigger] bb_set(king_bb(1u64 << s)).contains(i) == king_targets(
        s as int,
    ).contains(i) by {
        if is_square(i) {
            let t = i as u64;
            assert(has_bit(king_bb(1u64 << s), t) == king_step(s as int, t as int))
                by (bit_vector)
                requires
                    s < 64,
                    t < 64,
            ;
        }
    }
    assert(bb_set(king_bb(1u64 << s)) =~= king_targets(s as int));
}

proof fn lemma_pawn_bits(side: u64, s: u64)
    requires
        side < 2,
        s < 64,
    ensures
        bb_set(pawn_bb(side, 1u64 << s)) == pawn_targets(side as int, s as int),
{
    assert forall|i: int| #[trigger] bb_set(pawn_bb(side, 1u64 << s)).contains(i)
        == pawn_targets(side as int, s as int).contains(i) by {
        if is_square(i) {
            let t = i as u64;
            assert(has_bit(pawn_bb(side, 1u64 << s), t) == pawn_step(
                side as int,
                s as int,
                t as int,
            )) by (bit_vector)
                requires
                    side < 2,
                    s < 64,
                    t < 64,
            ;
        }
    }
    assert(bb_set(pawn_bb(side, 1u64 << s)) =~= pawn_targets(side as int, s as int));
}

/// The squares a knight on `idx` attacks.
pub fn knight_attacks(idx: usize) -> (r: u64)
    requires
        idx < 64,
    ensures
        bb_set(r) == knight_targets(idx as int),
{
    let b: u64 = 1u64 << idx;
    proof {
        lemma_knight_bits(idx as u64);
    }
    ((b << 17u64) & 0xfefefefefefefefe) | ((b << 15u64) & 0x7f7f7f7f7f7f7f7f) | ((b << 10u64)
        & 0xfcfcfcfcfcfcfcfc) | ((b << 6u64) & 0x3f3f3f3f3f3f3f3f) | ((b >> 17u64)
        & 0x7f7f7f7f7f7f7f7f) | ((b >> 15u64) & 0xfefefefefefefefe) | ((b >> 10u64)
        & 0x3f3f3f3f3f3f3f3f) | ((b >> 6u64) & 0xfcfcfcfcfcfcfcfc)
}

/// The squares a king on `idx` attacks.
pub fn king_attacks(idx: usize) -> (r: u64)
    requires
        idx < 64,
    ensures
        bb_set(r) == king_targets(idx as int),
{
    let b: u64 = 1u64 << idx;
    proof {
        lemma_king_bits(idx as u64);
    }
    (b << 8u64) | (b >> 8u64) | (((b << 1u64) | (b << 9u64) | (b >> 7u64)) & 0xfefefefefefefefe)
        | (((b >> 1u64) | (b >> 9u64) | (b << 7u64)) & 0x7f7f7f7f7f7f7f7f)
}

/// The squares a pawn of `side` on `idx` attacks.
pub fn pawn_attacks(side: usize, idx: usize) -> (r: u64)
    requires
        side < 2,
        idx < 64,
    ensures
        bb_set(r) == pawn_targets(side as int, idx as int),
{
    let b: u64 = 1u64 << idx;
    proof {
        lemma_pawn_bits(side as u64, idx as u64);
    }
    if side == 0 {
        ((b << 9u64) & 0xfefefefefefefefe) | ((b << 7u64) & 0x7f7f7f7f7f7f7f7f)
    } else {
        ((b >> 7u64) & 0xfefefefefefefefe) | ((b >> 9u64) & 0x7f7f7f7f7f7f7f7f)
    }
}


/// Mirror image of a square across the middle of the board (rank `r` becomes rank `7 - r`).
pub open spec fn mirror(v: int) -> int {
    8 * (7 - rank_of(v)) + file_of(v)
}

/// `line` holds at most one square on each rank, none on the rank of `k`.
pub open spec fn one_per_rank(line: Set<int>, k: int) -> bool {
    &&& forall|u: int, v: int|
        line.contains(u) && line.contains(v) && rank_of(u) == rank_of(v) ==> u == v
    &&& forall|u: int| #[trigger] line.contains(u) ==> is_square(u) && rank_of(u) != rank_of(k)
}

/// The squares of `line` that a slider on `k` reaches when the squares of `occ` are occupied:
/// no occupied square of the line lies on a rank strictly between.
pub open spec fn line_reach(k: int, line: Set<int>, occ: Set<int>) -> Set<int> {
    Set::new(
        |j: int|
            line.contains(j) && forall|u: int|
                line.contains(u) && occ.contains(u) ==> !strictly_between(
                    rank_of(k),
                    rank_of(u),
                    rank_of(j),
                ),
    )
}

/// What the hyperbola-quintessence step computes on one line through `k`.
pub open spec fn line_bits(k: u64, occ: u64, line: u64) -> u64 {
    let o = occ & line;
    (((o - (1u64 << k)) as u64) ^ byte_swapped(
        ((byte_swapped(o) - byte_swapped(1u64 << k)) as u64),
    )) & line
}

proof fn lemma_swap_set(x: u64)
    ensures
        forall|v: int|
            is_square(v) ==> #[trigger] bb_set(byte_swapped(x)).contains(v) == bb_set(x).contains(
                mirror(v),
            ),
        forall|v: int|
            is_square(v) ==> is_square(#[trigger] mirror(v)) && rank_of(mirror(v)) == 7 - rank_of(
                v,
            ) && mirror(mirror(v)) == v,
{
    assert forall|v: int| is_square(v) implies #[trigger] bb_set(byte_swapped(x)).contains(v)
        == bb_set(x).contains(mirror(v)) by {
        let j = v as u64;
        lemma_swap_bit(x, j);
        lemma_mirror(j);
    }
}

proof fn lemma_swap_single(k: u64)
    requires
        k < 64,
    ensures
        byte_swapped(1u64 << k) == 1u64 << (k ^ 56),
{
    assert(byte_swapped(1u64 << k) == 1u64 << (k ^ 56)) by (bit_vector)
        requires
            k < 64,
    ;
}

/// One bit of the hyperbola-quintessence step: the forward half of the subtraction reaches up
/// the line, the byte-swapped half reaches down it.
proof fn lemma_line_bit(k: u64, occ: u64, line: u64, j: u64)
    requires
        k < 64,
        j < 64,
        !bb_set(line).contains(k as int),
        one_per_rank(bb_set(line), k as int),
    ensures
        has_bit(line_bits(k, occ, line), j) == line_reach(
            k as int,
            bb_set(line),
            bb_set(occ),
        ).contains(j as int),
{
    let ls = bb_set(line);
    let os = bb_set(occ);
    let o = occ & line;
    let s = 1u64 << k;
    let a = (o - s) as u64;
    let so = byte_swapped(o);
    let km = k ^ 56;
    let jm = j ^ 56;
    let b = (so - byte_swapped(s)) as u64;
    let ki = k as int;
    let ji = j as int;
    lemma_mirror(k);
    lemma_mirror(j);
    lemma_swap_single(k);
    lemma_bb_ops(occ, line);
    lemma_swap_set(o);
    lemma_bit_ops(occ, line, k);
    lemma_sub_flips(o, k, j);
    lemma_swap_bit(o, km);
    lemma_sub_flips(so, km, jm);
    lemma_swap_bit(b, j);
    lemma_swap_bit(o, jm);
    lemma_bit_ops(a ^ byte_swapped(b), line, j);
    lemma_bit_ops(a, byte_swapped(b), j);
    assert(mirror(ki) == km as int && mirror(ji) == jm as int);
    let fwd = k <= j && o & (((1u64 << j) - (1u64 << k)) as u64) == 0;
    let bwd = km <= jm && so & (((1u64 << jm) - (1u64 << km)) as u64) == 0;
    assert(has_bit(line_bits(k, occ, line), j) == (has_bit(line, j) && (fwd != bwd)));
    let reach = line_reach(ki, ls, os);
    if ls.contains(ji) {
        assert(rank_of(ji) != rank_of(ki));
        if rank_of(ji) > rank_of(ki) {
            assert(!bwd);
            lemma_range_empty(o, k, j);
            if fwd {
                assert forall|u: int| ls.contains(u) && os.contains(u) implies !strictly_between(
                    rank_of(ki),
                    rank_of(u),
                    rank_of(ji),
                ) by {
                    if strictly_between(rank_of(ki), rank_of(u), rank_of(ji)) {
                        assert(bb_set(o).contains(u));
                    }
                }
                assert(reach.contains(ji));
            } else {
                let u = choose|u: int| ki <= u < ji && #[trigger] bb_set(o).contains(u);
                assert(ls.contains(u) && os.contains(u));
                assert(strictly_between(rank_of(ki), rank_of(u), rank_of(ji)));
                assert(!reach.contains(ji));
            }
        } else {
            assert(!fwd);
            lemma_range_empty(so, km, jm);
            if bwd {
                assert forall|u: int| ls.contains(u) && os.contains(u) implies !strictly_between(
                    rank_of(ki),
                    rank_of(u),
                    rank_of(ji),
                ) by {
                    if strictly_between(rank_of(ki), rank_of(u), rank_of(ji)) {
                        assert(bb_set(so).contains(mirror(u)));
                    }
                }
                assert(reach.contains(ji));
            } else {
                let v = choose|v: int| km <= v < jm && #[trigger] bb_set(so).contains(v);
                let u = mirror(v);
                assert(ls.contains(u) && os.contains(u));
                assert(strictly_between(rank_of(ki), rank_of(u), rank_of(ji)));
                assert(!reach.contains(ji));
            }
        }
    }
}

/// Where a slider on `k` reaches along one line, by hyperbola quintessence: subtracting the
/// slider's bit from the occupied squares of the line borrows up to the first blocker above it,
/// and doing the same on the byte-swapped board finds the first blocker below it. Both
/// subtractions wrap: with no blocker beyond the slider the borrow runs off the top of the word.
fn line_attacks(idx: usize, occ: u64, bit: u64, line: u64) -> (r: u64)
    requires
        idx < 64,
        bit == 1u64 << idx,
        !bb_set(line).contains(idx as int),
        one_per_rank(bb_set(line), idx as int),
    ensures
        bb_set(r) == line_reach(idx as int, bb_set(line), bb_set(occ)),
{
    let mut f: u64 = occ & line;
    let mut r: u64 = swap_bytes(f);
    proof {
        lemma_wrapping_sub(f, bit);
    }
    f = f.wrapping_sub(bit);
    let sb = swap_bytes(bit);
    proof {
        lemma_wrapping_sub(r, sb);
    }
    r = r.wrapping_sub(sb);
    f = f ^ swap_bytes(r);
    f = f & line;
    proof {
        let k = idx as u64;
        assert(f == line_bits(k, occ, line));
        assert forall|i: int| #[trigger] bb_set(f).contains(i) == line_reach(
            idx as int,
            bb_set(line),
            bb_set(occ),
        ).contains(i) by {
            if is_square(i) {
                lemma_line_bit(k, occ, line, i as u64);
            }
        }
        assert(bb_set(f) =~= line_reach(idx as int, bb_set(line), bb_set(occ)));
    }
    f
}

proof fn lemma_wrapping_sub(x: u64, y: u64)
    ensures
        x.wrapping_sub(y) == (x - y) as u64,
{
    assert(((x - y + 0x1_0000_0000_0000_0000) as u64) == ((x - y) as u64)) by (bit_vector);
}

/// The other squares of the file of `k`.
pub open spec fn file_line(k: int) -> Set<int> {
    Set::new(|u: int| is_square(u) && file_of(u) == file_of(k) && u != k)
}

/// The other squares of the diagonal of `k`.
pub open spec fn diag_line(k: int) -> Set<int> {
    Set::new(|u: int| is_square(u) && diag_of(u) == diag_of(k) && u != k)
}

/// The other squares of the anti-diagonal of `k`.
pub open spec fn anti_line(k: int) -> Set<int> {
    Set::new(|u: int| is_square(u) && anti_of(u) == anti_of(k) && u != k)
}

/// The squares of the rank of `k` east of it (higher files).
pub open spec fn east_line(k: int) -> Set<int> {
    Set::new(|u: int| is_square(u) && rank_of(u) == rank_of(k) && u > k)
}

/// The squares of the rank of `k` west of it (lower files).
pub open spec fn west_line(k: int) -> Set<int> {
    Set::new(|u: int| is_square(u) && rank_of(u) == rank_of(k) && u < k)
}

pub open spec fn file_bb(k: u64) -> u64 {
    0x0101010101010101u64 << (k & 7)
}

pub open spec fn diag_bb(k: u64) -> u64 {
    if (k & 7) >= (k >> 3) {
        0x8040201008040201u64 >> ((8 * ((k & 7) - (k >> 3))) as u64)
    } else {
        0x8040201008040201u64 << ((8 * ((k >> 3) - (k & 7))) as u64)
    }
}

pub open spec fn anti_bb(k: u64) -> u64 {
    if (k & 7) + (k >> 3) <= 7 {
        0x0102040810204080u64 >> ((8 * (7 - ((k & 7) + (k >> 3)))) as u64)
    } else {
        0x0102040810204080u64 << ((8 * ((k & 7) + (k >> 3) - 7)) as u64)
    }
}

pub open spec fn west_bb(k: u64) -> u64 {
    (((1u64 << k) - 1) as u64) & (0xffu64 << (k & 56))
}

pub open spec fn east_bb(k: u64) -> u64 {
    (1u64 << k) ^ west_bb(k) ^ (0xffu64 << (k & 56))
}

/// The bit patterns of the lines through a square.
proof fn lemma_line_bits(k: u64, u: u64)
    requires
        k < 64,
        u < 64,
    ensures
        has_bit(file_bb(k), u) == (file_of(u as int) == file_of(k as int)),
        has_bit(diag_bb(k), u) == (diag_of(u as int) == diag_of(k as int)),
        has_bit(anti_bb(k), u) == (anti_of(u as int) == anti_of(k as int)),
        has_bit(west_bb(k), u) == (rank_of(u as int) == rank_of(k as int) && u < k),
        has_bit(east_bb(k), u) == (rank_of(u as int) == rank_of(k as int) && u > k),
{
    assert(has_bit(file_bb(k), u) == (file_of(u as int) == file_of(k as int))) by (bit_vector)
        requires
            k < 64,
            u < 64,
    ;
    assert(has_bit(diag_bb(k), u) == (diag_of(u as int) == diag_of(k as int))) by (bit_vector)
        requires
            k < 64,
            u < 64,
    ;
    assert(has_bit(anti_bb(k), u) == (anti_of(u as int) == anti_of(k as int))) by (bit_vector)
        requires
            k < 64,
            u < 64,
    ;
    assert(has_bit(west_bb(k), u) == (rank_of(u as int) == rank_of(k as int) && u < k))
        by (bit_vector)
        requires
            k < 64,
            u < 64,
    ;
    assert(has_bit(east_bb(k), u) == (rank_of(u as int) == rank_of(k as int) && u > k))
        by (bit_vector)
        requires
            k < 64,
            u < 64,
    ;
}

proof fn lemma_line_sets(k: u64)
    requires
        k < 64,
    ensures
        bb_set(file_bb(k) ^ (1u64 << k)) == file_line(k as int),
        bb_set(diag_bb(k) ^ (1u64 << k)) == diag_line(k as int),
        bb_set(anti_bb(k) ^ (1u64 << k)) == anti_line(k as int),
        bb_set(west_bb(k)) == west_line(k as int),
        bb_set(east_bb(k)) == east_line(k as int),
{
    lemma_single_bit(k);
    lemma_bb_ops(file_bb(k), 1u64 << k);
    lemma_bb_ops(diag_bb(k), 1u64 << k);
    lemma_bb_ops(anti_bb(k), 1u64 << k);
    assert forall|u: int| #[trigger] bb_set(file_bb(k)).contains(u) == (is_square(u) && file_of(u)
        == file_of(k as int)) by {
        if is_square(u) {
            lemma_line_bits(k, u as u64);
        }
    }
    assert forall|u: int| #[trigger] bb_set(diag_bb(k)).contains(u) == (is_square(u) && diag_of(u)
        == diag_of(k as int)) by {
        if is_square(u) {
            lemma_line_bits(k, u as u64);
        }
    }
    assert forall|u: int| #[trigger] bb_set(anti_bb(k)).contains(u) == (is_square(u) && anti_of(u)
        == anti_of(k as int)) by {
        if is_square(u) {
            lemma_line_bits(k, u as u64);
        }
    }
    assert forall|u: int| #[trigger] bb_set(west_bb(k)).contains(u) == west_line(k as int).contains(
        u,
    ) by {
        if is_square(u) {
            lemma_line_bits(k, u as u64);
        }
    }
    assert forall|u: int| #[trigger] bb_set(east_bb(k)).contains(u) == east_line(k as int).contains(
        u,
    ) by {
        if is_square(u) {
            lemma_line_bits(k, u as u64);
        }
    }
    assert(bb_set(file_bb(k) ^ (1u64 << k)) =~= file_line(k as int));
    assert(bb_set(diag_bb(k) ^ (1u64 << k)) =~= diag_line(k as int));
    assert(bb_set(anti_bb(k) ^ (1u64 << k)) =~= anti_line(k as int));
    assert(bb_set(west_bb(k)) =~= west_line(k as int));
    assert(bb_set(east_bb(k)) =~= east_line(k as int));
}

/// The squares a sliding piece looks along from one square: its own bit and the other squares
/// of its diagonal, anti-diagonal and file.
#[derive(Clone, Copy)]
pub struct Mask {
    pub bit: u64,
    pub diag: u64,
    pub anti: u64,
    pub file: u64,
}

impl Mask {
    /// This is the mask of square `idx`.
    pub open spec fn is_mask_of(self, idx: int) -> bool {
        &&& self.bit == 1u64 << (idx as u64)
        &&& bb_set(self.bit) == set![idx]
        &&& bb_set(self.diag) == diag_line(idx)
        &&& bb_set(self.anti) == anti_line(idx)
        &&& bb_set(self.file) == file_line(idx)
    }

    /// The mask of square `idx`.
    pub fn of(idx: usize) -> (m: Mask)
        requires
            idx < 64,
        ensures
            m.is_mask_of(idx as int),
    {
        let bit: u64 = 1u64 << idx;
        let k: u64 = idx as u64;
        proof {
            lemma_square_parts(k);
        }
        let f: u64 = k & 7;
        let r: u64 = k >> 3;
        let diag: u64 = if f >= r {
            DIAG >> (8 * (f - r))
        } else {
            DIAG << (8 * (r - f))
        };
        let anti: u64 = if f + r <= 7 {
            ANTI >> (8 * (7 - (f + r)))
        } else {
            ANTI << (8 * (f + r - 7))
        };
        let file: u64 = FILE << f;
        proof {
            lemma_line_sets(k);
            lemma_single_bit(k);
            assert(diag == diag_bb(k));
            assert(anti == anti_bb(k));
        }
        Mask { bit, diag: diag ^ bit, anti: anti ^ bit, file: file ^ bit }
    }
}

/// The file, rank and rank-start of a square index, by its bits.
pub proof fn lemma_square_parts(k: u64)
    requires
        k < 64,
    ensures
        k & 7 == k % 8,
        k >> 3 == k / 8,
        k & 56 == k - k % 8,
        1u64 << k >= 1,
{
    assert(k & 7 == k % 8 && k >> 3 == k / 8 && k & 56 == k - k % 8 && 1u64 << k >= 1)
        by (bit_vector)
        requires
            k < 64,
    ;
}

/// The squares of the rank of `idx` west of it.
pub fn west(idx: usize) -> (r: u64)
    requires
        idx < 64,
    ensures
        r == west_bb(idx as u64),
        bb_set(r) == west_line(idx as int),
{
    proof {
        lemma_line_sets(idx as u64);
        lemma_square_parts(idx as u64);
    }
    ((1u64 << idx) - 1) & (0xffu64 << (idx & 56))
}

/// The squares of the rank of `idx` east of it.
pub fn east(idx: usize) -> (r: u64)
    requires
        idx < 64,
    ensures
        r == east_bb(idx as u64),
        bb_set(r) == east_line(idx as int),
{
    proof {
        lemma_line_sets(idx as u64);
        lemma_square_parts(idx as u64);
    }
    (1u64 << idx) ^ west(idx) ^ (0xffu64 << (idx & 56))
}

/// The squares east of `k` on its rank that a rook on `k` reaches.
pub open spec fn ray_east(k: int, occ: Set<int>) -> Set<int> {
    Set::new(|t: int| east_line(k).contains(t) && forall|u: int| k < u < t ==> !occ.contains(u))
}

/// The squares west of `k` on its rank that a rook on `k` reaches.
pub open spec fn ray_west(k: int, occ: Set<int>) -> Set<int> {
    Set::new(|t: int| west_line(k).contains(t) && forall|u: int| t < u < k ==> !occ.contains(u))
}

proof fn lemma_lines_one_per_rank(k: int)
    requires
        is_square(k),
    ensures
        !diag_line(k).contains(k) && one_per_rank(diag_line(k), k),
        !anti_line(k).contains(k) && one_per_rank(anti_line(k), k),
        !file_line(k).contains(k) && one_per_rank(file_line(k), k),
{
}

/// The two diagonal reaches of a bishop make up its attacks.
proof fn lemma_bishop_reach(k: int, occ: Set<int>)
    requires
        is_square(k),
    ensures
        line_reach(k, diag_line(k), occ).union(line_reach(k, anti_line(k), occ))
            == bishop_targets(k, occ),
{
    let d = line_reach(k, diag_line(k), occ);
    let a = line_reach(k, anti_line(k), occ);
    assert forall|t: int| #[trigger] bishop_targets(k, occ).contains(t) == (d.contains(t)
        || a.contains(t)) by {
        if is_square(t) && t != k && diag_of(t) == diag_of(k) {
            assert(anti_of(t) != anti_of(k));
            if d.contains(t) {
                assert forall|u: int| bishop_between(k, u, t) implies !occ.contains(u) by {
                    assert(diag_line(k).contains(u));
                }
            }
            if bishop_attacks(k, t, occ) {
                assert forall|u: int|
                    diag_line(k).contains(u) && occ.contains(u) implies !strictly_between(
                    rank_of(k),
                    rank_of(u),
                    rank_of(t),
                ) by {
                    if strictly_between(rank_of(k), rank_of(u), rank_of(t)) {
                        assert(bishop_between(k, u, t));
                    }
                }
            }
        } else if is_square(t) && t != k && anti_of(t) == anti_of(k) {
            if a.contains(t) {
                assert forall|u: int| bishop_between(k, u, t) implies !occ.contains(u) by {
                    assert(anti_line(k).contains(u));
                }
            }
            if bishop_attacks(k, t, occ) {
                assert forall|u: int|
                    anti_line(k).contains(u) && occ.contains(u) implies !strictly_between(
                    rank_of(k),
                    rank_of(u),
                    rank_of(t),
                ) by {
                    if strictly_between(rank_of(k), rank_of(u), rank_of(t)) {
                        assert(bishop_between(k, u, t));
                    }
                }
            }
        }
    }
    assert(d.union(a) =~= bishop_targets(k, occ));
}

/// The file reach and the two rank rays of a rook make up its attacks.
proof fn lemma_rook_reach(k: int, occ: Set<int>)
    requires
        is_square(k),
    ensures
        line_reach(k, file_line(k), occ).union(ray_east(k, occ)).union(ray_west(k, occ))
            == rook_targets(k, occ),
{
    let f = line_reach(k, file_line(k), occ);
    let e = ray_east(k, occ);
    let w = ray_west(k, occ);
    assert forall|t: int| #[trigger] rook_targets(k, occ).contains(t) == (f.contains(t)
        || e.contains(t) || w.contains(t)) by {
        if is_square(t) && t != k && file_of(t) == file_of(k) {
            assert(rank_of(t) != rank_of(k));
            if f.contains(t) {
                assert forall|u: int| rook_between(k, u, t) implies !occ.contains(u) by {
                    assert(file_line(k).contains(u));
                }
            }
            if rook_attacks(k, t, occ) {
                assert forall|u: int|
                    file_line(k).contains(u) && occ.contains(u) implies !strictly_between(
                    rank_of(k),
                    rank_of(u),
                    rank_of(t),
                ) by {
                    if strictly_between(rank_of(k), rank_of(u), rank_of(t)) {
                        assert(rook_between(k, u, t));
                    }
                }
            }
        } else if is_square(t) && t != k && rank_of(t) == rank_of(k) {
            if t > k {
                if e.contains(t) {
                    assert forall|u: int| rook_between(k, u, t) implies !occ.contains(u) by {}
                }
                if rook_attacks(k, t, occ) {
                    assert forall|u: int| k < u < t implies !occ.contains(u) by {
                        assert(rook_between(k, u, t));
                    }
                }
            } else {
                if w.contains(t) {
                    assert forall|u: int| rook_between(k, u, t) implies !occ.contains(u) by {}
                }
                if rook_attacks(k, t, occ) {
                    assert forall|u: int| t < u < k implies !occ.contains(u) by {
                        assert(rook_between(k, u, t));
                    }
                }
            }
        }
    }
    assert(f.union(e).union(w) =~= rook_targets(k, occ));
}

/// The first blocker east of `k`, found as the lowest set bit above it (with the top square as a
/// stop), bounds the east ray.
proof fn lemma_east_part(k: u64, occ: u64)
    requires
        k < 64,
    ensures
        u64_trailing_zeros((east_bb(k) & occ) | 0x8000000000000000u64) < 64,
        bb_set(east_bb(k) ^ east_bb(
            u64_trailing_zeros((east_bb(k) & occ) | 0x8000000000000000u64) as u64,
        )) == ray_east(k as int, bb_set(occ)),
{
    let e = east_bb(k);
    let msb = 0x8000000000000000u64;
    let x = (e & occ) | msb;
    let os = bb_set(occ);
    let ki = k as int;
    lemma_line_sets(k);
    lemma_bb_ops(e, occ);
    lemma_bb_ops(e & occ, msb);
    assert(1u64 << 63u64 == 0x8000000000000000u64) by (bit_vector);
    lemma_single_bit(63);
    assert(bb_set(x).contains(63));
    lemma_zero_iff_empty(x);
    lemma_clear_lowest(x);
    let b = u64_trailing_zeros(x) as u64;
    let bi = b as int;
    lemma_line_sets(b);
    lemma_bb_ops(e, east_bb(b));
    assert(bi == 63 || (east_line(ki).contains(bi) && os.contains(bi)));
    assert forall|t: int| #[trigger] bb_set(e ^ east_bb(b)).contains(t) == ray_east(ki, os).contains(
        t,
    ) by {
        if east_line(ki).contains(t) {
            if t <= bi {
                assert forall|u: int| ki < u < t implies !os.contains(u) by {
                    if os.contains(u) {
                        assert(east_line(ki).contains(u));
                        assert(bb_set(x).contains(u));
                    }
                }
            } else {
                assert(east_line(bi).contains(t));
            }
        }
    }
    assert(bb_set(e ^ east_bb(b)) =~= ray_east(ki, os));
}

/// The first blocker west of `k`, found as the highest set bit below it (with the bottom square
/// as a stop), bounds the west ray.
proof fn lemma_west_part(k: u64, occ: u64)
    requires
        k < 64,
    ensures
        u64_leading_zeros((west_bb(k) & occ) | 1u64) < 64,
        bb_set(west_bb(k) ^ west_bb(
            (63 - u64_leading_zeros((west_bb(k) & occ) | 1u64)) as u64,
        )) == ray_west(k as int, bb_set(occ)),
{
    let w = west_bb(k);
    let x = (w & occ) | 1u64;
    let os = bb_set(occ);
    let ki = k as int;
    lemma_line_sets(k);
    lemma_bb_ops(w, occ);
    lemma_bb_ops(w & occ, 1u64);
    assert(1u64 << 0u64 == 1u64) by (bit_vector);
    lemma_single_bit(0);
    assert(bb_set(x).contains(0));
    lemma_zero_iff_empty(x);
    axiom_u64_leading_zeros(x);
    let lz = u64_leading_zeros(x);
    let b = (63 - lz) as u64;
    let bi = b as int;
    assert((x >> b) & 1u64 != 0u64);
    assert((x >> b) & 1u64 != 0u64 ==> has_bit(x, b)) by (bit_vector);
    assert(bb_set(x).contains(bi));
    assert forall|y: int| bi < y < 64 implies !#[trigger] bb_set(x).contains(y) by {
        let j = y as u64;
        assert((x >> j) & 1u64 == 0u64);
    }
    lemma_line_sets(b);
    lemma_bb_ops(w, west_bb(b));
    assert(bi == 0 || (west_line(ki).contains(bi) && os.contains(bi)));
    assert forall|t: int| #[trigger] bb_set(w ^ west_bb(b)).contains(t) == ray_west(ki, os).contains(
        t,
    ) by {
        if west_line(ki).contains(t) {
            if t >= bi {
                assert forall|u: int| t < u < ki implies !os.contains(u) by {
                    if os.contains(u) {
                        assert(west_line(ki).contains(u));
                        assert(bb_set(x).contains(u));
                    }
                }
            } else {
                assert(west_line(bi).contains(t));
            }
        }
    }
    assert(bb_set(w ^ west_bb(b)) =~= ray_west(ki, os));
}

/// The squares a bishop on `idx` attacks when the squares of `occ` are occupied.
pub fn batt(idx: usize, occ: u64) -> (r: u64)
    requires
        idx < 64,
    ensures
        bb_set(r) == bishop_targets(idx as int, bb_set(occ)),
{
    let m: Mask = Mask::of(idx);
    proof {
        lemma_lines_one_per_rank(idx as int);
    }
    let f: u64 = line_attacks(idx, occ, m.bit, m.diag);
    let f2: u64 = line_attacks(idx, occ, m.bit, m.anti);
    proof {
        lemma_bb_ops(f, f2);
        lemma_bishop_reach(idx as int, bb_set(occ));
    }
    f | f2
}

/// The squares a rook on `idx` attacks when the squares of `occ` are occupied.
pub fn ratt(idx: usize, occ: u64) -> (r: u64)
    requires
        idx < 64,
    ensures
        bb_set(r) == rook_targets(idx as int, bb_set(occ)),
{
    let m: Mask = Mask::of(idx);
    proof {
        lemma_lines_one_per_rank(idx as int);
        lemma_east_part(idx as u64, occ);
        lemma_west_part(idx as u64, occ);
    }
    let f: u64 = line_attacks(idx, occ, m.bit, m.file);
    let mut e: u64 = east(idx);
    let sq: usize = ((e & occ) | MSB).trailing_zeros() as usize;
    e = e ^ east(sq);
    let mut w: u64 = west(idx);
    let lz: u32 = ((w & occ) | LSB).leading_zeros();
    proof {
        assert(lz ^ 63 == 63 - lz) by (bit_vector)
            requires
                lz < 64,
        ;
    }
    let sq2: usize = (lz ^ 63) as usize;
    w = w ^ west(sq2);
    proof {
        lemma_bb_ops(f, e);
        lemma_bb_ops(f | e, w);
        lemma_rook_reach(idx as int, bb_set(occ));
    }
    f | e | w
}

/// A knight attacks a square exactly when a knight there attacks it back.
pub proof fn lemma_knight_symmetric(s: int, t: int)
    ensures
        knight_step(s, t) == knight_step(t, s),
{
}

/// A king attacks a square exactly when a king there attacks it back.
pub proof fn lemma_king_symmetric(s: int, t: int)
    ensures
        king_step(s, t) == king_step(t, s),
{
}

/// A pawn of one side attacks a square exactly when a pawn of the other side there attacks the
/// first square.
pub proof fn lemma_pawn_symmetric(side: int, s: int, t: int)
    requires
        side == 0 || side == 1,
    ensures
        pawn_step(side, s, t) == pawn_step(1 - side, t, s),
{
}

/// A rook attacks a square exactly when a rook there attacks it back, on the same board.
pub proof fn lemma_rook_symmetric(s: int, t: int, occ: Set<int>)
    ensures
        rook_attacks(s, t, occ) == rook_attacks(t, s, occ),
{
    assert forall|u: int| rook_between(s, u, t) == rook_between(t, u, s) by {}
    if rook_attacks(s, t, occ) {
        assert forall|u: int| rook_between(t, u, s) implies !occ.contains(u) by {
            assert(rook_between(s, u, t));
        }
    }
    if rook_attacks(t, s, occ) {
        assert forall|u: int| rook_between(s, u, t) implies !occ.contains(u) by {
            assert(rook_between(t, u, s));
        }
    }
}

/// A bishop attacks a square exactly when a bishop there attacks it back, on the same board.
pub proof fn lemma_bishop_symmetric(s: int, t: int, occ: Set<int>)
    ensures
        bishop_attacks(s, t, occ) == bishop_attacks(t, s, occ),
{
    if bishop_attacks(s, t, occ) {
        assert forall|u: int| bishop_between(t, u, s) implies !occ.contains(u) by {
            assert(bishop_between(s, u, t));
        }
    }
    if bishop_attacks(t, s, occ) {
        assert forall|u: int| bishop_between(s, u, t) implies !occ.contains(u) by {
            assert(bishop_between(t, u, s));
        }
    }
}

} // verus!
