use vstd::prelude::*;
use crate::bitboard::{group_member, lemma_file_masks, member, BitBoard, NOT_A_FILE, NOT_H_FILE};
use crate::color::Color;
use crate::geometry::pawn_hits;
use crate::square::Square;

verus! {

/// The squares a pawn of `side` on `square` attacks: the two diagonal squares ahead of it, as
/// far as they are on the board.
pub fn mask_pawn_attacks(square: Square, side: Color) -> (attacks: BitBoard)
    ensures
        forall|t: int| member(attacks.0, t) == pawn_hits(side, square.index(), t),
{
    let mut attacks: u64 = 0;
    let bitboard: u64 = BitBoard::from_square(square).0;
    // left and right from the point of view of the white player
    let (left_diagonal, right_diagonal): (u64, u64) = match side {
        Color::White => (bitboard << 7, bitboard << 9),
        Color::Black => (bitboard >> 9, bitboard >> 7),
    };
    if (left_diagonal & NOT_H_FILE) != 0 {
        attacks = attacks | left_diagonal;
    }
    if (right_diagonal & NOT_A_FILE) != 0 {
        attacks = attacks | right_diagonal;
    }
    proof {
        broadcast use group_member;

        let a = square.index();
        assert forall|t: int| member(attacks, t) == pawn_hits(side, a, t) by {
            if 0 <= t < 64 {
                lemma_file_masks(t);
            }
            if BitBoard(left_diagonal & NOT_H_FILE).0 != 0 {
                crate::bitboard::lemma_lowest(left_diagonal & NOT_H_FILE);
                let w = (left_diagonal & NOT_H_FILE).trailing_zeros() as int;
                lemma_file_masks(w);
            }
            if BitBoard(right_diagonal & NOT_A_FILE).0 != 0 {
                crate::bitboard::lemma_lowest(right_diagonal & NOT_A_FILE);
                let w = (right_diagonal & NOT_A_FILE).trailing_zeros() as int;
                lemma_file_masks(w);
            }
            match side {
                Color::White => {
                    assert(member(left_diagonal, t) == (t == a + 7 && t < 64));
                    assert(member(right_diagonal, t) == (t == a + 9 && t < 64));
                    if a + 7 < 64 {
                        lemma_file_masks(a + 7);
                        assert(member(left_diagonal & NOT_H_FILE, a + 7) == ((a + 7) % 8 != 7));
                    }
                    if a + 9 < 64 {
                        lemma_file_masks(a + 9);
                        assert(member(right_diagonal & NOT_A_FILE, a + 9) == ((a + 9) % 8 != 0));
                    }
                },
                Color::Black => {
                    assert(member(left_diagonal, t) == (t == a - 9 && t >= 0));
                    assert(member(right_diagonal, t) == (t == a - 7 && t >= 0));
                    if a - 9 >= 0 {
                        lemma_file_masks(a - 9);
                        assert(member(left_diagonal & NOT_H_FILE, a - 9) == ((a - 9) % 8 != 7));
                    }
                    if a - 7 >= 0 {
                        lemma_file_masks(a - 7);
                        assert(member(right_diagonal & NOT_A_FILE, a - 7) == ((a - 7) % 8 != 0));
                    }
                },
            }
        }
    }
    BitBoard(attacks)
}

/// The pawn attacks of both sides from every square: first by color, then by square.
pub fn generate_pawn_attacks() -> (result: [[BitBoard; 64]; 2])
    ensures
        forall|c: int, s: int, t: int|
            0 <= c < 2 && 0 <= s < 64 ==> #[trigger] member(result[c][s].0, t) == pawn_hits(
                Color::at(c),
                s,
                t,
            ),
{
    let mut result = [[BitBoard(0); 64]; 2];
    let mut square: usize = 0;
    while square < 64
        invariant
            0 <= square <= 64,
            forall|c: int, s: int, t: int|
                0 <= c < 2 && 0 <= s < square ==> #[trigger] member(result[c][s].0, t)
                    == pawn_hits(Color::at(c), s, t),
        decreases 64 - square,
    {
        let sq = Square::from_index(square as u8);
        let white = mask_pawn_attacks(sq, Color::White);
        let black = mask_pawn_attacks(sq, Color::Black);
        result[0][square] = white;
        result[1][square] = black;
        square = square + 1;
    }
    result
}

} // verus!
