//! Piece, side, move-flag and castling constants.
use vstd::prelude::*;

verus! {

// pieces / sides
pub const E: usize = 0;
pub const WH: usize = 0;
pub const BL: usize = 1;
pub const P: usize = 2;
pub const N: usize = 3;
pub const B: usize = 4;
pub const R: usize = 5;
pub const Q: usize = 6;
pub const K: usize = 7;

// move flags
pub const QUIET: u8 = 0;
pub const DBL: u8 = 1;
pub const KS: u8 = 2;
pub const QS: u8 = 3;
pub const CAP: u8 = 4;
pub const ENP: u8 = 5;
pub const PROMO: u8 = 8;
pub const BPROMO: u8 = 9;
pub const RPROMO: u8 = 10;
pub const QPROMO: u8 = 11;
pub const PROMO_CAP: u8 = 12;
pub const BPROMO_CAP: u8 = 13;
pub const RPROMO_CAP: u8 = 14;
pub const QPROMO_CAP: u8 = 15;

// castling rights
pub const WQS: u8 = 8;
pub const WKS: u8 = 4;
pub const BQS: u8 = 2;
pub const BKS: u8 = 1;
pub const SIDES: [u8; 2] = [12, 3];
pub const CKM: [u64; 2] = [160, 0xA000000000000000];
pub const CQM: [u64; 2] = [9, 0x0900000000000000];
pub const B1C1D1: u64 = 14;
pub const F1G1: u64 = 96;
pub const B8C8D8: u64 = 0x0E00000000000000;
pub const F8G8: u64 = 0x6000000000000000;
/// The castling rights that survive a move from or to each square.
pub const CR: [u8; 64] = [
    7, 15, 15, 15, 3, 15, 15, 11, 15, 15, 15, 15, 15, 15, 15, 15, 15, 15, 15, 15, 15, 15, 15, 15,
    15, 15, 15, 15, 15, 15, 15, 15, 15, 15, 15, 15, 15, 15, 15, 15, 15, 15, 15, 15, 15, 15, 15, 15,
    15, 15, 15, 15, 15, 15, 15, 15, 13, 15, 15, 15, 12, 15, 15, 14,
];

// attacks
pub const MSB: u64 = 0x8000000000000000;
pub const LSB: u64 = 1;
pub const FILE: u64 = 0x0101010101010101;
pub const DIAG: u64 = 0x8040201008040201;
pub const ANTI: u64 = 0x0102040810204080;
pub const PENRANK: [u64; 2] = [0x00FF000000000000, 0x000000000000FF00];
pub const DBLRANK: [u64; 2] = [0x00000000FF000000, 0x000000FF00000000];

} // verus!
