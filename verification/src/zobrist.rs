use vstd::prelude::*;
use crate::color::Color;
use crate::piece::Piece;

verus! {

pub const STEP: u64 = 0x9e37_79b9_7f4a_7c15;

pub const FIRST_FACTOR: u64 = 0xbf58_476d_1ce4_e5b9;

pub const SECOND_FACTOR: u64 = 0x94d0_49bb_1331_11eb;

/// The `n`-th value of a fixed stream of well-mixed 64-bit numbers.
#[verifier::opaque]
pub open spec fn scramble(n: u64) -> u64 {
    let a = n.wrapping_mul(STEP);
    let b = (a ^ (a >> 30)).wrapping_mul(FIRST_FACTOR);
    let c = (b ^ (b >> 27)).wrapping_mul(SECOND_FACTOR);
    c ^ (c >> 31)
}

/// Key of a man of a color on a square.
pub open spec fn piece_key(color: Color, piece: Piece, sq: int) -> u64 {
    scramble((1 + (color.index() * 6 + piece.index()) * 64 + sq) as u64)
}

/// Key of a set of castling rights.
pub open spec fn castle_key(rights: u8) -> u64 {
    scramble((769 + rights) as u64)
}

/// Key of the file of an en-passant target.
pub open spec fn en_passant_key(file: int) -> u64 {
    scramble((785 + file) as u64)
}

/// Key that is part of the hash when Black is to move.
pub open spec fn side_key() -> u64 {
    scramble(793)
}

/// Key of what stands on a square: of the man, or 0 for an empty square.
pub open spec fn content_key(content: Option<(Color, Piece)>, sq: int) -> u64 {
    match content {
        Some((color, piece)) => piece_key(color, piece, sq),
        None => 0,
    }
}

pub fn scrambled(n: u64) -> (r: u64)
    ensures
        r == scramble(n),
{
    proof {
        reveal(scramble);
    }
    let a: u64 = n.wrapping_mul(STEP);
    let b: u64 = (a ^ (a >> 30)).wrapping_mul(FIRST_FACTOR);
    let c: u64 = (b ^ (b >> 27)).wrapping_mul(SECOND_FACTOR);
    c ^ (c >> 31)
}

pub fn piece_keys(color: Color, piece: Piece, sq: u8) -> (r: u64)
    requires
        sq < 64,
    ensures
        r == piece_key(color, piece, sq as int),
{
    let c: u64 = color.to_index() as u64;
    let p: u64 = piece.to_index() as u64;
    scrambled(1 + (c * 6 + p) * 64 + sq as u64)
}

pub fn castle_keys(rights: u8) -> (r: u64)
    ensures
        r == castle_key(rights),
{
    scrambled(769 + rights as u64)
}

pub fn en_passant_keys(file: u8) -> (r: u64)
    requires
        file < 8,
    ensures
        r == en_passant_key(file as int),
{
    scrambled(785 + file as u64)
}

pub fn side_keys() -> (r: u64)
    ensures
        r == side_key(),
{
    scrambled(793)
}

/// Exclusive-or can be regrouped and reordered, and cancels itself.
pub proof fn lemma_xor_laws(a: u64, b: u64, c: u64)
    ensures
        a ^ b == b ^ a,
        (a ^ b) ^ c == a ^ (b ^ c),
        a ^ a == 0,
        a ^ 0 == a,
        0 ^ a == a,
        (a ^ b) ^ b == a,
        (a ^ b) ^ c == (a ^ c) ^ b,
{
    assert(a ^ b == b ^ a && (a ^ b) ^ c == a ^ (b ^ c) && a ^ a == 0 && a ^ 0 == a && 0 ^ a == a
        && (a ^ b) ^ b == a && (a ^ b) ^ c == (a ^ c) ^ b) by (bit_vector);
}

/// A hash in four parts: the men, the en-passant file, the castling rights and the side.
pub open spec fn mixed(men: u64, target: u64, rights: u64, turn: u64) -> u64 {
    men ^ target ^ rights ^ turn
}

/// A key that goes into a hash goes into any one of its four parts.
pub proof fn lemma_mixed(men: u64, target: u64, rights: u64, turn: u64, key: u64)
    ensures
        mixed(men, target, rights, turn) ^ key == mixed(men ^ key, target, rights, turn),
        mixed(men, target, rights, turn) ^ key == mixed(men, target ^ key, rights, turn),
        mixed(men, target, rights, turn) ^ key == mixed(men, target, rights ^ key, turn),
        mixed(men, target, rights, turn) ^ key == mixed(men, target, rights, turn ^ key),
{
    assert((men ^ target ^ rights ^ turn) ^ key == (men ^ key) ^ target ^ rights ^ turn && (men
        ^ target ^ rights ^ turn) ^ key == men ^ (target ^ key) ^ rights ^ turn && (men ^ target
        ^ rights ^ turn) ^ key == men ^ target ^ (rights ^ key) ^ turn && (men ^ target ^ rights
        ^ turn) ^ key == men ^ target ^ rights ^ (turn ^ key)) by (bit_vector);
}

/// Taking the key `old` out of a part that is `old` and putting the key `new` in leaves
/// `new` in that part.
pub proof fn lemma_swap_keys(men: u64, target: u64, rights: u64, turn: u64, old: u64, new: u64)
    ensures
        (mixed(men, old, rights, turn) ^ old) ^ new == mixed(men, new, rights, turn),
        (mixed(men, target, old, turn) ^ old) ^ new == mixed(men, target, new, turn),
        (mixed(men, target, rights, old) ^ old) ^ new == mixed(men, target, rights, new),
{
    assert(((men ^ old ^ rights ^ turn) ^ old) ^ new == men ^ new ^ rights ^ turn && ((men
        ^ target ^ old ^ turn) ^ old) ^ new == men ^ target ^ new ^ turn && ((men ^ target
        ^ rights ^ old) ^ old) ^ new == men ^ target ^ rights ^ new) by (bit_vector);
}

} // verus!
