//! Bitboards: 64-bit words whose bit `i` stands for square `i` (a1 = 0, h1 = 7, h8 = 63).
//! Every word is read as the set of squares whose bits are set.
use vstd::prelude::*;
use vstd::std_specs::bits::{u64_trailing_zeros, axiom_u64_trailing_zeros};

verus! {

/// Whether bit `sq` of `b` is set.
pub open spec fn has_bit(b: u64, sq: u64) -> bool {
    (b >> sq) & 1 == 1
}

/// The set of squares a bitboard holds.
pub open spec fn bb_set(b: u64) -> Set<int> {
    Set::new(|i: int| 0 <= i < 64 && has_bit(b, i as u64))
}

/// The squares of the board.
pub open spec fn is_square(i: int) -> bool {
    0 <= i < 64
}

/// The squares of `s` from `lo` upwards, in ascending order.
pub open spec fn squares_from(s: Set<int>, lo: int) -> Seq<int>
    decreases 64 - lo,
{
    if lo >= 64 {
        Seq::empty()
    } else if s.contains(lo) {
        seq![lo] + squares_from(s, lo + 1)
    } else {
        squares_from(s, lo + 1)
    }
}

/// The squares of `s`, in ascending order.
pub open spec fn squares(s: Set<int>) -> Seq<int> {
    squares_from(s, 0)
}

/// The word with its eight bytes in reverse order: rank `r` of a bitboard becomes rank `7 - r`.
pub open spec fn byte_swapped(x: u64) -> u64 {
    ((x & 0xff) << 56u64) | (((x >> 8u64) & 0xff) << 48u64) | (((x >> 16u64) & 0xff) << 40u64) | (((
    x >> 24u64) & 0xff) << 32u64) | (((x >> 32u64) & 0xff) << 24u64) | (((x >> 40u64) & 0xff)
        << 16u64) | (((x >> 48u64) & 0xff) << 8u64) | (x >> 56u64)
}

/// Reverses the byte order of a word.
pub fn swap_bytes(x: u64) -> (r: u64)
    ensures
        r == byte_swapped(x),
{
    ((x & 0xff) << 56u64) | (((x >> 8u64) & 0xff) << 48u64) | (((x >> 16u64) & 0xff) << 40u64) | (((
    x >> 24u64) & 0xff) << 32u64) | (((x >> 32u64) & 0xff) << 24u64) | (((x >> 40u64) & 0xff)
        << 16u64) | (((x >> 48u64) & 0xff) << 8u64) | (x >> 56u64)
}

pub proof fn lemma_bit_ops(a: u64, b: u64, j: u64)
    requires
        j < 64,
    ensures
        has_bit(a & b, j) == (has_bit(a, j) && has_bit(b, j)),
        has_bit(a | b, j) == (has_bit(a, j) || has_bit(b, j)),
        has_bit(a ^ b, j) == (has_bit(a, j) != has_bit(b, j)),
        has_bit(!a, j) == !has_bit(a, j),
{
    assert(has_bit(a & b, j) == (has_bit(a, j) && has_bit(b, j)) && has_bit(a | b, j) == (has_bit(
        a,
        j,
    ) || has_bit(b, j)) && has_bit(a ^ b, j) == (has_bit(a, j) != has_bit(b, j)) && has_bit(!a, j)
        == !has_bit(a, j)) by (bit_vector)
        requires
            j < 64,
    ;
}

/// `&`, `|`, `^` and `& !` are intersection, union, symmetric difference and difference.
pub proof fn lemma_bb_ops(a: u64, b: u64)
    ensures
        bb_set(a & b) == bb_set(a).intersect(bb_set(b)),
        bb_set(a | b) == bb_set(a).union(bb_set(b)),
        bb_set(a & !b) == bb_set(a).difference(bb_set(b)),
        bb_set(a ^ b) == bb_set(a).union(bb_set(b)).difference(bb_set(a).intersect(bb_set(b))),
{
    assert forall|i: int| #[trigger] bb_set(a & b).contains(i) == (bb_set(a).contains(i)
        && bb_set(b).contains(i)) by {
        if is_square(i) {
            lemma_bit_ops(a, b, i as u64);
        }
    }
    assert forall|i: int| #[trigger] bb_set(a | b).contains(i) == (bb_set(a).contains(i)
        || bb_set(b).contains(i)) by {
        if is_square(i) {
            lemma_bit_ops(a, b, i as u64);
        }
    }
    assert forall|i: int| #[trigger] bb_set(a & !b).contains(i) == (bb_set(a).contains(i)
        && !bb_set(b).contains(i)) by {
        if is_square(i) {
            lemma_bit_ops(a, !b, i as u64);
            lemma_bit_ops(b, a, i as u64);
        }
    }
    assert forall|i: int| #[trigger] bb_set(a ^ b).contains(i) == (bb_set(a).contains(i)
        != bb_set(b).contains(i)) by {
        if is_square(i) {
            lemma_bit_ops(a, b, i as u64);
        }
    }
    assert(bb_set(a & b) =~= bb_set(a).intersect(bb_set(b)));
    assert(bb_set(a | b) =~= bb_set(a).union(bb_set(b)));
    assert(bb_set(a & !b) =~= bb_set(a).difference(bb_set(b)));
    assert(bb_set(a ^ b) =~= bb_set(a).union(bb_set(b)).difference(
        bb_set(a).intersect(bb_set(b)),
    ));
}

/// A single bit holds one square.
pub proof fn lemma_single_bit(k: u64)
    requires
        k < 64,
    ensures
        bb_set(1u64 << k) == set![k as int],
        1u64 << k != 0,
{
    assert forall|i: int| #[trigger] bb_set(1u64 << k).contains(i) == (i == k) by {
        if is_square(i) {
            let j = i as u64;
            assert(has_bit(1u64 << k, j) == (j == k)) by (bit_vector)
                requires
                    k < 64,
                    j < 64,
            ;
        }
    }
    assert(bb_set(1u64 << k) =~= set![k as int]);
    assert(1u64 << k != 0) by (bit_vector)
        requires
            k < 64,
    ;
}

/// A word is zero exactly when it holds no square.
pub proof fn lemma_zero_iff_empty(b: u64)
    ensures
        (b == 0) == (bb_set(b) == Set::<int>::empty()),
{
    if b == 0 {
        assert forall|i: int| !#[trigger] bb_set(b).contains(i) by {
            if is_square(i) {
                let j = i as u64;
                assert(!has_bit(0u64, j)) by (bit_vector);
            }
        }
        assert(bb_set(b) =~= Set::<int>::empty());
    } else {
        axiom_u64_trailing_zeros(b);
        let t = u64_trailing_zeros(b);
        assert(bb_set(b).contains(t as int));
    }
}

/// The bits of a byte-swapped word are those of the word, each moved to the mirrored rank.
pub proof fn lemma_swap_bit(x: u64, j: u64)
    requires
        j < 64,
    ensures
        has_bit(byte_swapped(x), j) == has_bit(x, j ^ 56),
{
    assert(has_bit(byte_swapped(x), j) == has_bit(x, j ^ 56)) by (bit_vector)
        requires
            j < 64,
    ;
}

/// Mirroring a square index by `^ 56` keeps its file and turns rank `r` into rank `7 - r`.
pub proof fn lemma_mirror(j: u64)
    requires
        j < 64,
    ensures
        (j ^ 56) < 64,
        (j ^ 56) ^ 56 == j,
        ((j ^ 56) as int) / 8 == 7 - (j as int) / 8,
        ((j ^ 56) as int) % 8 == (j as int) % 8,
{
    assert((j ^ 56) < 64 && (j ^ 56) ^ 56 == j && (j ^ 56) / 8 == 7 - j / 8 && (j ^ 56) % 8 == j
        % 8) by (bit_vector)
        requires
            j < 64,
    ;
}

/// Subtracting a single bit from a word that lacks it flips exactly the bits from that bit up to
/// and including the lowest set bit above it (all the way up when there is none).
pub proof fn lemma_sub_flips(o: u64, k: u64, j: u64)
    requires
        k < 64,
        j < 64,
        !has_bit(o, k),
    ensures
        (has_bit((o - (1u64 << k)) as u64, j) != has_bit(o, j)) <==> (k <= j && o & (((1u64
            << j) - (1u64 << k)) as u64) == 0),
{
    assert((has_bit((o - (1u64 << k)) as u64, j) != has_bit(o, j)) <==> (k <= j && o & (((1u64
        << j) - (1u64 << k)) as u64) == 0)) by (bit_vector)
        requires
            k < 64,
            j < 64,
            (o >> k) & 1 != 1,
    ;
}

/// A word has no bit in `[k, j)` exactly when it has no bit under the mask of that range.
pub proof fn lemma_range_empty(o: u64, k: u64, j: u64)
    requires
        k <= j < 64,
    ensures
        (o & (((1u64 << j) - (1u64 << k)) as u64) == 0) == (forall|u: int|
            k <= u < j ==> !#[trigger] bb_set(o).contains(u)),
{
    let m = (((1u64 << j) - (1u64 << k)) as u64);
    assert forall|u: u64| u < 64 implies has_bit(m, u) == (k <= u < j) by {
        assert(has_bit((((1u64 << j) - (1u64 << k)) as u64), u) == (k <= u < j)) by (bit_vector)
            requires
                k <= j < 64,
                u < 64,
        ;
    }
    if o & m == 0 {
        assert forall|u: int| k <= u < j implies !#[trigger] bb_set(o).contains(u) by {
            let v = u as u64;
            lemma_bit_ops(o, m, v);
            assert(!has_bit(0u64, v)) by (bit_vector);
        }
    } else {
        let t = u64_trailing_zeros(o & m);
        lemma_bit_ops(o, m, t as u64);
        assert(bb_set(o).contains(t as int));
    }
}

/// Clearing the lowest set bit of a non-zero word.
pub proof fn lemma_clear_lowest(b: u64)
    requires
        b != 0,
    ensures
        u64_trailing_zeros(b) < 64,
        bb_set(b).contains(u64_trailing_zeros(b) as int),
        forall|i: int| 0 <= i < u64_trailing_zeros(b) ==> !#[trigger] bb_set(b).contains(i),
        bb_set(b & ((b - 1) as u64)) == bb_set(b).remove(u64_trailing_zeros(b) as int),
{
    axiom_u64_trailing_zeros(b);
    let k = u64_trailing_zeros(b) as u64;
    let low = b & (((1u64 << k) - 1u64) as u64);
    assert forall|i: int| 0 <= i < k implies !#[trigger] bb_set(b).contains(i) by {
        assert(((b >> (i as u64)) & 1u64) == 0u64);
    }
    if low != 0 {
        let t = u64_trailing_zeros(low) as u64;
        assert(has_bit(low, t));
        assert(has_bit(b & (((1u64 << k) - 1u64) as u64), t) ==> t < k && has_bit(b, t))
            by (bit_vector)
            requires
                k < 64,
                t < 64,
        ;
        assert(!bb_set(b).contains(t as int));
        assert(false);
    }
    assert forall|i: int| #[trigger] bb_set(b & ((b - 1) as u64)).contains(i) == (bb_set(
        b,
    ).contains(i) && i != k) by {
        if is_square(i) {
            let j = i as u64;
            assert(has_bit(b & ((b - 1) as u64), j) == (has_bit(b, j) && j != k)) by (bit_vector)
                requires
                    b != 0,
                    k < 64,
                    j < 64,
                    has_bit(b, k),
                    b & (((1u64 << k) - 1u64) as u64) == 0,
            ;
        }
    }
    assert(bb_set(b & ((b - 1) as u64)) =~= bb_set(b).remove(k as int));
}

/// A set with no squares in `[lo, hi)` lists the same squares from `lo` as from `hi`.
pub proof fn lemma_squares_skip(s: Set<int>, lo: int, hi: int)
    requires
        lo <= hi <= 64,
        forall|i: int| lo <= i < hi ==> !#[trigger] s.contains(i),
    ensures
        squares_from(s, lo) == squares_from(s, hi),
    decreases hi - lo,
{
    if lo < hi {
        lemma_squares_skip(s, lo + 1, hi);
    }
}

/// Two sets that agree from `lo` upwards list the same squares from `lo`.
pub proof fn lemma_squares_ext(s1: Set<int>, s2: Set<int>, lo: int)
    requires
        forall|i: int| lo <= i < 64 ==> #[trigger] s1.contains(i) == s2.contains(i),
    ensures
        squares_from(s1, lo) == squares_from(s2, lo),
    decreases 64 - lo,
{
    if lo < 64 {
        lemma_squares_ext(s1, s2, lo + 1);
    }
}

/// The squares listed from `lo` are the members of the set in `[lo, 64)`, in strictly
/// ascending order.
pub proof fn lemma_squares_members(s: Set<int>, lo: int)
    ensures
        forall|i: int|
            0 <= i < squares_from(s, lo).len() ==> #[trigger] s.contains(squares_from(s, lo)[i])
                && lo <= squares_from(s, lo)[i] < 64,
        forall|i: int, j: int|
            0 <= i < j < squares_from(s, lo).len() ==> squares_from(s, lo)[i] < squares_from(
                s,
                lo,
            )[j],
        forall|x: int| lo <= x < 64 && s.contains(x) ==> squares_from(s, lo).contains(x),
    decreases 64 - lo,
{
    if lo < 64 {
        lemma_squares_members(s, lo + 1);
        let rest = squares_from(s, lo + 1);
        if s.contains(lo) {
            let all = seq![lo] + rest;
            assert forall|i: int| 0 <= i < all.len() implies #[trigger] s.contains(all[i]) && lo
                <= all[i] < 64 by {
                if i > 0 {
                    assert(all[i] == rest[i - 1]);
                }
            }
            assert forall|i: int, j: int| 0 <= i < j < all.len() implies all[i] < all[j] by {
                assert(all[j] == rest[j - 1]);
                assert(s.contains(rest[j - 1]));
                if i > 0 {
                    assert(all[i] == rest[i - 1]);
                }
            }
            assert forall|x: int| lo <= x < 64 && s.contains(x) implies all.contains(x) by {
                if x == lo {
                    assert(all[0] == x);
                } else {
                    let k = choose|k: int| 0 <= k < rest.len() && rest[k] == x;
                    assert(all[k + 1] == x);
                }
            }
        }
    }
}

/// Taking the lowest square off a non-empty word: it comes first in the ascending list, and the
/// rest is the list of the word with that bit cleared.
pub proof fn lemma_pop_lowest(b: u64)
    requires
        b != 0,
    ensures
        squares(bb_set(b)) == seq![u64_trailing_zeros(b) as int] + squares(
            bb_set(b & ((b - 1) as u64)),
        ),
{
    lemma_clear_lowest(b);
    let k = u64_trailing_zeros(b) as int;
    let s = bb_set(b);
    let r = bb_set(b & ((b - 1) as u64));
    lemma_squares_skip(s, 0, k);
    assert(squares_from(s, k) == seq![k] + squares_from(s, k + 1));
    lemma_squares_ext(s, r, k + 1);
    assert forall|i: int| 0 <= i < k + 1 implies !#[trigger] r.contains(i) by {}
    lemma_squares_skip(r, 0, k + 1);
}

/// The list of a word with no squares is empty.
pub proof fn lemma_squares_of_zero()
    ensures
        squares(bb_set(0)) == Seq::<int>::empty(),
{
    lemma_zero_iff_empty(0);
    assert forall|i: int| 0 <= i < 64 implies !#[trigger] bb_set(0).contains(i) by {}
    lemma_squares_skip(bb_set(0), 0, 64);
}

/// Removes the lowest square from a non-empty bitboard and returns it.
pub fn pop_lsb(b: &mut u64) -> (sq: u16)
    requires
        *old(b) != 0,
    ensures
        sq < 64,
        bb_set(*old(b)).contains(sq as int),
        squares(bb_set(*old(b))) == seq![sq as int] + squares(bb_set(*final(b))),
        bb_set(*final(b)) == bb_set(*old(b)).remove(sq as int),
{
    let x = *b;
    let t = x.trailing_zeros();
    proof {
        lemma_pop_lowest(x);
        lemma_clear_lowest(x);
    }
    *b = x & (x - 1);
    t as u16
}

/// `!` is the complement within the board.
pub proof fn lemma_bb_not(a: u64)
    ensures
        forall|i: int| #[trigger] bb_set(!a).contains(i) == (is_square(i) && !bb_set(a).contains(i)),
{
    assert forall|i: int| #[trigger] bb_set(!a).contains(i) == (is_square(i) && !bb_set(a).contains(
        i,
    )) by {
        if is_square(i) {
            lemma_bit_ops(a, a, i as u64);
        }
    }
}

/// Shifting a bitboard moves each of its squares by the shift amount, losing those that fall off
/// the board.
pub proof fn lemma_shift_sets(x: u64, n: u64)
    requires
        n < 64,
    ensures
        forall|j: int| #[trigger]
            bb_set(x >> n).contains(j) == (is_square(j) && j + n < 64 && bb_set(x).contains(
                j + n,
            )),
        forall|j: int| #[trigger]
            bb_set(x << n).contains(j) == (is_square(j) && j >= n && bb_set(x).contains(j - n)),
{
    assert forall|j: int|
        #![trigger bb_set(x >> n).contains(j)]
        #![trigger bb_set(x << n).contains(j)]
        bb_set(x >> n).contains(j) == (is_square(j) && j + n < 64 && bb_set(x).contains(j + n))
            && bb_set(x << n).contains(j) == (is_square(j) && j >= n && bb_set(x).contains(
            j - n,
        )) by {
        if is_square(j) {
            let u = j as u64;
            assert(has_bit(x >> n, u) == (u + n < 64 && has_bit(x, (u + n) as u64)) && has_bit(
                x << n,
                u,
            ) == (u >= n && has_bit(x, (u - n) as u64))) by (bit_vector)
                requires
                    n < 64,
                    u < 64,
            ;
        }
    }
}

} // verus!
