# Bitboard move generation, verified

A chess move generator on bitboards (one `u64` per piece kind and per side, bit `i` for square
`i`, a1 = 0, h8 = 63), with its behaviour stated in Verus contracts and proved.

- `src/bits.rs`: bitboards as sets of squares, the ascending list of the squares of a set, and
  taking the lowest square off a bitboard.
- `src/attacks.rs`: the geometry of the board (ranks, files, diagonals, the squares between two
  squares) and the attacks of every piece: fixed patterns for knight, king and pawn, hyperbola
  quintessence and first-blocker search for the sliders, each proved equal to the geometric
  definition. Attacks are proved symmetric.
- `src/position.rs`: the position, `toggle`, `is_sq_att` (exactly: some enemy piece attacks the
  square), `get_pc`, and `do_move`, whose effect is stated field by field; every move the board
  allows (quiet move, double step, capture, promotion, en passant, castling) is proved to keep
  the bitboards consistent and one king on each side, and to lower the number of occupied
  squares by one exactly when it captures.
- `src/movegen.rs`: the move list and the generator; each function appends exactly the stated
  sequence of encoded moves (flag in bits 12-15, origin in bits 6-11, destination in bits 0-5).
- `src/soundness.rs`: on a consistent board whose castling rights and en-passant square agree
  with the pieces, every generated move (other than a capture encoded with flag 0) is a move
  `do_move` plays keeping the bitboards consistent.
- `src/consts.rs`: piece, side, flag and castling constants.

Pieces are indexed `P = 2` to `K = 7` in `Pos::pc`; entries 0 and 1 stay empty.
