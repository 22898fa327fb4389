use vstd::prelude::*;
use crate::board::Board;
use crate::color::Color;
use crate::piece::Piece;
use crate::piece_square_table::{piece_square_table, square_bonus};
use crate::square::Square;

verus! {

/// A score in centipawns. Scores near `IMMEDIATE_MATE_SCORE`, of either sign, stand for a
/// forced mate and tell in how many plies it comes.
#[derive(PartialEq, Eq, Structural, Clone, Copy, Debug, PartialOrd, Ord)]
pub struct Evaluation(pub i32);

/// The score of a mate that is on the board.
pub const IMMEDIATE_MATE_SCORE: i32 = 100_000;

/// The greatest number of plies to a mate that a score can tell.
pub const MAX_MATE_DEPTH: i32 = 100;

/// The least score; its negation is the greatest.
pub const MIN_SCORE: i32 = -2147483647;

/// The greatest score.
pub const MAX_SCORE: i32 = 2147483647;

/// The size of a score without its sign.
pub open spec fn magnitude(score: int) -> int {
    if score < 0 {
        -score
    } else {
        score
    }
}

/// The sign of a score: 1, 0 or -1.
pub open spec fn sign_of(score: int) -> int {
    if score > 0 {
        1
    } else if score < 0 {
        -1
    } else {
        0
    }
}

/// The sign that scores of a side carry: positive for White.
pub open spec fn side_sign(color: Color) -> int {
    match color {
        Color::White => 1,
        Color::Black => -1,
    }
}

/// Whether a score stands for a forced mate: its size lies in the range reserved for
/// mates, from `IMMEDIATE_MATE_SCORE - MAX_MATE_DEPTH` on, that score included.
pub open spec fn mate_score(score: int) -> bool {
    magnitude(score) >= IMMEDIATE_MATE_SCORE - MAX_MATE_DEPTH
}

/// Plies to the mate that a mate score tells, with the sign of the score.
pub open spec fn mate_plies(score: int) -> int {
    sign_of(score) * (IMMEDIATE_MATE_SCORE - magnitude(score))
}

/// The score of a side that mates in `ply` plies.
pub open spec fn mate_eval(color: Color, ply: int) -> int {
    side_sign(color) * (IMMEDIATE_MATE_SCORE - ply)
}

/// A mate score moved `ply` plies away from the mate it tells.
pub open spec fn moved_away(score: int, ply: int) -> int {
    (magnitude(score) + ply) * sign_of(score)
}

/// A mate score moved `ply` plies towards the mate it tells.
pub open spec fn moved_closer(score: int, ply: int) -> int {
    (magnitude(score) - ply) * sign_of(score)
}

/// The worth of a piece in centipawns.
pub open spec fn piece_worth(piece: Piece) -> int {
    match piece {
        Piece::Pawn => 100,
        Piece::Knight => 320,
        Piece::Bishop => 330,
        Piece::Rook => 500,
        Piece::Queen => 900,
        Piece::King => 20000,
    }
}

impl Evaluation {
    pub fn min() -> (r: Evaluation)
        ensures
            r.0 == MIN_SCORE,
    {
        Evaluation(MIN_SCORE)
    }

    pub fn max() -> (r: Evaluation)
        ensures
            r.0 == MAX_SCORE,
    {
        Evaluation(MAX_SCORE)
    }

    /// The score with the other sign.
    pub fn neg(self) -> (r: Evaluation)
        requires
            self.0 > i32::MIN,
        ensures
            r.0 == -self.0,
    {
        Evaluation(-self.0)
    }

    pub fn is_mate(&self) -> (r: bool)
        ensures
            r == mate_score(self.0 as int),
    {
        self.0 >= IMMEDIATE_MATE_SCORE - MAX_MATE_DEPTH || self.0 <= MAX_MATE_DEPTH
            - IMMEDIATE_MATE_SCORE
    }

    /// Plies to the mate that the score tells: positive where the side with positive scores
    /// mates, negative where it is mated.
    pub fn mate_num_ply(&self) -> (r: i8)
        requires
            mate_score(self.0 as int),
            -128 <= mate_plies(self.0 as int) <= 127,
        ensures
            r == mate_plies(self.0 as int),
    {
        if self.0 > 0 {
            (IMMEDIATE_MATE_SCORE - self.0) as i8
        } else {
            (-(IMMEDIATE_MATE_SCORE + self.0)) as i8
        }
    }

    /// Full moves to the mate that the score tells: half the plies, rounded up.
    pub fn mate_full_moves(&self) -> (r: i8)
        requires
            mate_score(self.0 as int),
            -128 <= mate_plies(self.0 as int) <= 127,
        ensures
            r == (mate_plies(self.0 as int) + 1) / 2,
    {
        let mate_ply: i8 = self.mate_num_ply();
        if mate_ply >= 0 {
            ((mate_ply as i16 + 1) / 2) as i8
        } else {
            (-((-(mate_ply as i16)) / 2)) as i8
        }
    }

    /// The score of the position in which `mating_color` mates in `ply_from_root` plies.
    pub fn new_mate_eval(mating_color: Color, ply_from_root: u8) -> (r: Evaluation)
        ensures
            r.0 == mate_eval(mating_color, ply_from_root as int),
            ply_from_root <= MAX_MATE_DEPTH ==> mate_score(r.0 as int),
    {
        let sign: i32 = match mating_color {
            Color::White => 1,
            Color::Black => -1,
        };
        assert(sign * (IMMEDIATE_MATE_SCORE - ply_from_root as i32) == mate_eval(
            mating_color,
            ply_from_root as int,
        ));
        Evaluation(sign * (IMMEDIATE_MATE_SCORE - ply_from_root as i32))
    }

    /// The score of the side that is mated in `ply_from_root` plies.
    pub fn mated_in(ply_from_root: u8) -> (r: Evaluation)
        ensures
            r.0 == ply_from_root - IMMEDIATE_MATE_SCORE,
            ply_from_root <= MAX_MATE_DEPTH ==> mate_score(r.0 as int),
    {
        Evaluation(-IMMEDIATE_MATE_SCORE + ply_from_root as i32)
    }

    /// The score of the side that mates in `ply_from_root` plies.
    pub fn mate_in(ply_from_root: u8) -> (r: Evaluation)
        ensures
            r.0 == IMMEDIATE_MATE_SCORE - ply_from_root,
            ply_from_root <= MAX_MATE_DEPTH ==> mate_score(r.0 as int),
    {
        Evaluation(IMMEDIATE_MATE_SCORE - ply_from_root as i32)
    }

    /// The mate score as a transposition table keeps it: counted from the position in which
    /// it was found, `ply` plies below the root, and so the same at every depth.
    pub fn score_to_tt(&self, ply: u8) -> (r: Evaluation)
        requires
            mate_score(self.0 as int),
            magnitude(self.0 as int) + ply <= i32::MAX,
        ensures
            r.0 == moved_away(self.0 as int, ply as int),
    {
        if self.0 > 0 {
            Evaluation(self.0 + ply as i32)
        } else {
            Evaluation(self.0 - ply as i32)
        }
    }

    /// The mate score of a transposition table as the search sees it `ply` plies below the
    /// root.
    pub fn tt_to_score(&self, ply: u8) -> (r: Evaluation)
        requires
            mate_score(self.0 as int),
            self.0 > i32::MIN,
        ensures
            r.0 == moved_closer(self.0 as int, ply as int),
    {
        if self.0 > 0 {
            Evaluation(self.0 - ply as i32)
        } else {
            Evaluation(self.0 + ply as i32)
        }
    }
}

/// A mate score that was stored `store_ply` plies below the root and is read `read_ply`
/// plies below it tells the mate as many plies further off as the reader is nearer the root:
/// the score of a mate in `depth` plies becomes that of a mate in `depth - store_ply +
/// read_ply`.
pub proof fn lemma_mate_rescaling(color: Color, depth: int, store_ply: int, read_ply: int)
    requires
        0 <= depth <= MAX_MATE_DEPTH,
        0 <= store_ply,
        0 <= read_ply,
    ensures
        mate_score(mate_eval(color, depth)),
        mate_score(moved_away(mate_eval(color, depth), store_ply)),
        moved_closer(moved_away(mate_eval(color, depth), store_ply), read_ply) == mate_eval(
            color,
            depth - store_ply + read_ply,
        ),
{
}

pub fn raw_piece_value(piece: Piece) -> (r: i32)
    ensures
        r == piece_worth(piece),
{
    match piece {
        Piece::Pawn => 100,
        Piece::Knight => 320,
        Piece::Bishop => 330,
        Piece::Rook => 500,
        Piece::Queen => 900,
        Piece::King => 20000,
    }
}

/// The worth of a man on a square: that of its kind and the bonus of the square, positive
/// for White and negative for Black.
pub open spec fn man_worth(content: Option<(Color, Piece)>, square: int) -> int {
    match content {
        Some((color, piece)) => side_sign(color) * (piece_worth(piece) + square_bonus(
            piece,
            square,
            color,
        )),
        None => 0,
    }
}

/// The worth of the men on the squares below `n`.
pub open spec fn men_worth(men: Seq<Option<(Color, Piece)>>, n: int) -> int
    decreases n,
{
    if n <= 0 {
        0
    } else {
        men_worth(men, n - 1) + man_worth(men[n - 1], n - 1)
    }
}

/// The worth of a man of a color and kind on a square.
pub fn piece_value(piece: Piece, square: Square, piece_color: Color) -> (r: i32)
    ensures
        r == man_worth(Some((piece_color, piece)), square.index()),
        -20050 <= r <= 20050,
{
    let sign: i32 = match piece_color {
        Color::White => 1,
        Color::Black => -1,
    };
    let piece_value = raw_piece_value(piece);
    let bonus = piece_square_table(piece, square, piece_color);
    assert(sign * (piece_value + bonus) == side_sign(piece_color) * (piece_worth(piece)
        + square_bonus(piece, square.index(), piece_color))) by (nonlinear_arith)
        requires
            sign == side_sign(piece_color),
            piece_value == piece_worth(piece),
            bonus == square_bonus(piece, square.index(), piece_color),
    ;
    sign * (piece_value + bonus)
}

/// The worth of all men on the board, White's counted up and Black's down.
pub fn board_value(board: &Board) -> (r: Evaluation)
    requires
        board.squares_ok(),
    ensures
        r.0 == men_worth(board.men(), 64),
{
    let mut result: i32 = 0;
    let mut i: u8 = 0;
    while i < 64
        invariant
            0 <= i <= 64,
            board.squares_ok(),
            result == men_worth(board.men(), i as int),
            -20050 * i <= result <= 20050 * i,
        decreases 64 - i,
    {
        let square = Square::from_index(i);
        proof {
            assert(board.men()[i as int] == board.content(i as int));
            crate::board::lemma_class_members(
                board.pieces,
                board.occupancies,
                board.combined,
                Color::White,
                Piece::Pawn,
                i as int,
            );
        }
        if let Some(piece) = board.piece_on_square(square) {
            let color = board.color_on_square(square).unwrap();
            result = result + piece_value(piece, square, color);
        }
        i = i + 1;
    }
    Evaluation(result)
}

} // verus!
