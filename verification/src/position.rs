use vstd::prelude::*;
use crate::bitboard::{bits_of, BitBoard};
use crate::castling_rights::{both_sides, kept_between, kept_rights, CastlingRights};
use crate::chess_move::{Move, MoveFlag};
use crate::color::Color;
use crate::geometry::{
    bishop_line, bishop_sees, file_of, king_step, knight_jump, lies_between, pawn_hits, rank_of,
    rook_line, rook_sees,
};
use crate::piece::Piece;
use crate::square::Square;
use crate::zobrist::{castle_key, content_key, en_passant_key, side_key};

verus! {

/// What changes from move to move besides the placement, kept per ply so that a move can be
/// taken back.
#[derive(Debug, Copy, Clone, PartialEq, Eq, Structural)]
pub struct BoardState {
    pub hash: u64,
    pub en_passant_target: Option<Square>,
    pub castling_rights: CastlingRights,
    pub rule50: u8,
    pub ply: u16,
    pub checkers: BitBoard,
    pub pinned: BitBoard,
    pub last_move: Option<Move>,
    pub captured_piece: Option<Piece>,
}

/// A position as mathematics sees it: what stands on each of the 64 squares, who is to move,
/// the current per-ply state and the states of the plies before.
pub struct Position {
    pub men: Seq<Option<(Color, Piece)>>,
    pub side_to_move: Color,
    pub state: BoardState,
    pub history: Seq<BoardState>,
    pub game_ply: u16,
}

/// The occupied squares of a placement, as a word.
pub open spec fn occupied(men: Seq<Option<(Color, Piece)>>) -> u64 {
    bits_of(|i: int| men[i].is_some())
}

/// Whether the king of `color` stands on square `k`.
pub open spec fn king_at(men: Seq<Option<(Color, Piece)>>, color: Color, k: int) -> bool {
    0 <= k < 64 && men[k] == Some((color, Piece::King))
}

/// Whether `color` has exactly one king.
pub open spec fn one_king(men: Seq<Option<(Color, Piece)>>, color: Color) -> bool {
    exists|k: int| #[trigger]
        king_at(men, color, k) && forall|j: int| #[trigger] king_at(men, color, j) ==> j == k
}

/// Whether `color` has no more than one king.
pub open spec fn at_most_one_king(men: Seq<Option<(Color, Piece)>>, color: Color) -> bool {
    forall|j: int, k: int|
        #[trigger] king_at(men, color, j) && #[trigger] king_at(men, color, k) ==> j == k
}

/// The square of the king of `color`.
pub open spec fn king_square(men: Seq<Option<(Color, Piece)>>, color: Color) -> int {
    choose|k: int| king_at(men, color, k)
}

/// Whether the man on `from`, if there is one, attacks the square `to`.
pub open spec fn attacks(men: Seq<Option<(Color, Piece)>>, from: int, to: int) -> bool {
    match men[from] {
        None => false,
        Some((color, Piece::Pawn)) => pawn_hits(color, from, to),
        Some((_, Piece::Knight)) => knight_jump(from, to),
        Some((_, Piece::Bishop)) => bishop_sees(occupied(men), from, to),
        Some((_, Piece::Rook)) => rook_sees(occupied(men), from, to),
        Some((_, Piece::Queen)) => bishop_sees(occupied(men), from, to) || rook_sees(
            occupied(men),
            from,
            to,
        ),
        Some((_, Piece::King)) => king_step(from, to),
    }
}

/// Whether a man of the other side stands on `s` and attacks the king of `side`.
pub open spec fn is_checker(men: Seq<Option<(Color, Piece)>>, side: Color, s: int) -> bool {
    &&& 0 <= s < 64
    &&& men[s] matches Some((color, _)) && color == side.flip()
    &&& attacks(men, s, king_square(men, side))
}

/// The men of the other side that attack the king of `side`.
pub open spec fn checkers_of(men: Seq<Option<(Color, Piece)>>, side: Color) -> u64 {
    bits_of(|s: int| is_checker(men, side, s))
}

/// Whether a rook, bishop or queen of the side other than `side` stands on `p`, on a line
/// with `k` along which it moves.
pub open spec fn is_pinner(men: Seq<Option<(Color, Piece)>>, side: Color, p: int, k: int) -> bool {
    &&& 0 <= p < 64
    &&& men[p] matches Some((color, piece)) && color == side.flip() && match piece {
        Piece::Rook => rook_line(p, k),
        Piece::Bishop => bishop_line(p, k),
        Piece::Queen => rook_line(p, k) || bishop_line(p, k),
        _ => false,
    }
}

/// Whether `s` is the one occupied square between `p` and `k`.
pub open spec fn only_between(men: Seq<Option<(Color, Piece)>>, p: int, k: int, s: int) -> bool {
    &&& lies_between(p, k, s)
    &&& men[s].is_some()
    &&& forall|t: int| lies_between(p, k, t) && t != s ==> men[t].is_none()
}

/// Whether a man of `side` stands on `s` and is all that shields the king of `side` from a
/// slider of the other side.
pub open spec fn is_pinned(men: Seq<Option<(Color, Piece)>>, side: Color, s: int) -> bool {
    &&& 0 <= s < 64
    &&& men[s] matches Some((color, _)) && color == side
    &&& exists|p: int| #[trigger]
        is_pinner(men, side, p, king_square(men, side)) && only_between(
            men,
            p,
            king_square(men, side),
            s,
        )
}

/// The men of `side` that are pinned to their king.
pub open spec fn pinned_of(men: Seq<Option<(Color, Piece)>>, side: Color) -> u64 {
    bits_of(|s: int| is_pinned(men, side, s))
}

/// Exclusive-or of the keys of the men on the squares below `n`.
pub open spec fn men_hash(men: Seq<Option<(Color, Piece)>>, n: int) -> u64
    decreases n,
{
    if n <= 0 {
        0
    } else {
        men_hash(men, n - 1) ^ content_key(men[n - 1], n - 1)
    }
}

/// Key of the en-passant target: that of its file, or 0 where there is none.
pub open spec fn target_key(target: Option<Square>) -> u64 {
    match target {
        Some(t) => en_passant_key(t.file_index()),
        None => 0,
    }
}

/// Key of the side to move: the side key for Black, 0 for White.
pub open spec fn turn_key(side: Color) -> u64 {
    match side {
        Color::White => 0,
        Color::Black => side_key(),
    }
}

/// The Zobrist hash of a position, computed from scratch: the keys of all men, of the
/// en-passant file where a target is set, of the castling rights and of the side to move.
pub open spec fn position_hash(
    men: Seq<Option<(Color, Piece)>>,
    side: Color,
    rights: CastlingRights,
    target: Option<Square>,
) -> u64 {
    men_hash(men, 64) ^ target_key(target) ^ castle_key(rights.0) ^ turn_key(side)
}

/// Square from which the rook leaves when the king castles to square `to`.
pub open spec fn rook_start(mover: Color, to: int) -> int {
    8 * mover.home_rank() + if file_of(to) < 4 {
        0int
    } else {
        7int
    }
}

/// Square on which the rook lands when the king castles to square `to`.
pub open spec fn rook_end(mover: Color, to: int) -> int {
    8 * mover.home_rank() + if file_of(to) < 4 {
        3int
    } else {
        5int
    }
}

/// Square of the pawn that an en-passant capture to `to` by `mover` takes.
pub open spec fn en_passant_victim(mover: Color, to: int) -> int {
    to - 8 * mover.pawn_step()
}

/// Whether an en-passant target fits the men when `side` is to move: the target lies on
/// one of the ranks from the third to the sixth, it is empty, and a pawn of the other side
/// stands on the square behind it, where a double push has put it.
pub open spec fn target_fits(men: Seq<Option<(Color, Piece)>>, side: Color, target: Option<Square>) -> bool {
    match target {
        Some(t) => {
            let victim = en_passant_victim(side, t.index());
            &&& 2 <= rank_of(t.index()) <= 5
            &&& 0 <= victim < 64
            &&& men[t.index()].is_none()
            &&& men[victim] == Some((side.flip(), Piece::Pawn))
        },
        None => true,
    }
}

/// The castling rights after a move: a rook that is taken in a corner takes the right of
/// that corner with it, a rook that leaves or reaches a corner ends the right of that
/// corner, and a king that moves ends both rights of its side.
pub open spec fn rights_after(rights: u8, mover: Color, m: Move, captured: Option<Piece>) -> u8 {
    let first = if captured == Some(Piece::Rook) {
        rights & kept_rights(m.to.index())
    } else {
        rights
    };
    if m.piece == Piece::Rook {
        first & kept_between(m.from.index(), m.to.index())
    } else if m.piece == Piece::King {
        first & !both_sides(mover)
    } else {
        first
    }
}

impl Position {
    /// The placement after move `m`.
    pub open spec fn men_after(self, m: Move) -> Seq<Option<(Color, Piece)>> {
        let mover = self.side_to_move;
        let from = m.from.index();
        let to = m.to.index();
        let moved = self.men.update(from, None).update(to, Some((mover, m.arriving_piece())));
        let taken = if m.flags == MoveFlag::EnPassant {
            moved.update(en_passant_victim(mover, to), None)
        } else {
            moved
        };
        if m.flags == MoveFlag::Castling {
            taken.update(rook_start(mover, to), None).update(
                rook_end(mover, to),
                Some((mover, Piece::Rook)),
            )
        } else {
            taken
        }
    }

    /// The piece that move `m` captures on its target square.
    pub open spec fn captured_by(self, m: Move) -> Option<Piece> {
        if m.flags == MoveFlag::Capture {
            match self.men[m.to.index()] {
                Some((_, piece)) => Some(piece),
                None => None,
            }
        } else {
            None
        }
    }

    /// Whether a move can be counted and answered: the counters have room for one more
    /// ply, and the side that is not to move has its king.
    pub open spec fn has_room(self) -> bool {
        &&& self.state.rule50 < u8::MAX
        &&& self.state.ply < u16::MAX
        &&& self.game_ply < u16::MAX
        &&& one_king(self.men, self.side_to_move.flip())
    }

    /// Whether move `m` can be made in this position: the counters have room, the side that
    /// moves next has its king, and the move fits the men.
    pub open spec fn accepts(self, m: Move) -> bool {
        self.has_room() && self.fits(m)
    }

    /// Whether move `m` fits the men: the moving piece stands on the source square, and the
    /// squares that the move's flag speaks of hold what the flag takes for granted.
    pub open spec fn fits(self, m: Move) -> bool {
        let mover = self.side_to_move;
        let foe = mover.flip();
        let from = m.from.index();
        let to = m.to.index();
        &&& from != to
        &&& self.men[from] == Some((mover, m.piece))
        &&& match m.flags {
            MoveFlag::Capture => self.men[to] matches Some((color, piece)) && color == foe && piece
                != Piece::King,
            _ => self.men[to].is_none(),
        }
        &&& (m.promotion.is_some() ==> m.piece == Piece::Pawn && (m.flags == MoveFlag::Normal
            || m.flags == MoveFlag::Capture))
        &&& (m.piece == Piece::Pawn ==> if m.promotion.is_some() {
            rank_of(to) == foe.home_rank()
        } else {
            1 <= rank_of(to) <= 6
        })
        &&& (m.flags == MoveFlag::DoublePawnPush ==> {
            &&& m.piece == Piece::Pawn
            &&& to == from + 16 * mover.pawn_step()
            &&& self.men[from + 8 * mover.pawn_step()].is_none()
        })
        &&& (m.flags == MoveFlag::EnPassant ==> {
            let victim = en_passant_victim(mover, to);
            &&& m.piece == Piece::Pawn
            &&& victim != from
            &&& self.men[victim] == Some((foe, Piece::Pawn))
        })
        &&& (m.flags == MoveFlag::Castling ==> {
            &&& m.piece == Piece::King
            &&& from == 8 * mover.home_rank() + 4
            &&& (to == 8 * mover.home_rank() + 2 || to == 8 * mover.home_rank() + 6)
            &&& self.men[rook_start(mover, to)] == Some((mover, Piece::Rook))
            &&& self.men[rook_end(mover, to)].is_none()
        })
    }

    /// The position after move `m`.
    pub open spec fn apply(self, m: Move) -> Position {
        let mover = self.side_to_move;
        let foe = mover.flip();
        let men = self.men_after(m);
        let captured = self.captured_by(m);
        let rights = CastlingRights(rights_after(self.state.castling_rights.0, mover, m, captured));
        let target = if m.flags == MoveFlag::DoublePawnPush {
            m.to.ahead(foe)
        } else {
            None
        };
        Position {
            men,
            side_to_move: foe,
            state: BoardState {
                hash: position_hash(men, foe, rights, target),
                en_passant_target: target,
                castling_rights: rights,
                rule50: if m.piece == Piece::Pawn || m.flags == MoveFlag::Capture {
                    0u8
                } else {
                    (self.state.rule50 + 1) as u8
                },
                ply: (self.state.ply + 1) as u16,
                checkers: BitBoard(checkers_of(men, foe)),
                pinned: BitBoard(pinned_of(men, foe)),
                last_move: Some(m),
                captured_piece: captured,
            },
            history: self.history.push(self.state),
            game_ply: (self.game_ply + 1) as u16,
        }
    }

    /// The placement before the last move, worked out from that move and the captured piece.
    pub open spec fn men_before(self, m: Move) -> Seq<Option<(Color, Piece)>> {
        let foe = self.side_to_move;
        let mover = foe.flip();
        let from = m.from.index();
        let to = m.to.index();
        let rook_back = if m.flags == MoveFlag::Castling {
            self.men.update(rook_end(mover, to), None).update(
                rook_start(mover, to),
                Some((mover, Piece::Rook)),
            )
        } else {
            self.men
        };
        let left = match self.state.captured_piece {
            Some(piece) => Some((foe, piece)),
            None => None,
        };
        let moved = rook_back.update(to, left).update(from, Some((mover, m.piece)));
        if m.flags == MoveFlag::EnPassant {
            moved.update(en_passant_victim(mover, to), Some((foe, Piece::Pawn)))
        } else {
            moved
        }
    }

    /// Whether the men stand as they do after move `m` was made by the side that is not to
    /// move: the moved piece on the target square, the source square empty, and the squares
    /// of a castling rook or of a pawn taken in passing as such a move leaves them.
    pub open spec fn shows(self, m: Move) -> bool {
        let mover = self.side_to_move.flip();
        let from = m.from.index();
        let to = m.to.index();
        &&& self.men.len() == 64
        &&& from != to
        &&& self.men[to] == Some((mover, m.arriving_piece()))
        &&& self.men[from].is_none()
        &&& (self.state.captured_piece.is_some() ==> m.flags == MoveFlag::Capture)
        &&& (m.flags == MoveFlag::EnPassant ==> {
            let victim = en_passant_victim(mover, to);
            &&& 0 <= victim < 64
            &&& victim != from
            &&& victim != to
            &&& self.men[victim].is_none()
        })
        &&& (m.flags == MoveFlag::Castling ==> {
            &&& from == 8 * mover.home_rank() + 4
            &&& (to == 8 * mover.home_rank() + 2 || to == 8 * mover.home_rank() + 6)
            &&& self.men[rook_end(mover, to)] == Some((mover, Piece::Rook))
            &&& self.men[rook_start(mover, to)].is_none()
        })
    }

    /// The position before the last move. Where no earlier state is kept, or no last move is
    /// recorded, the position itself.
    pub open spec fn undo(self) -> Position {
        if self.history.len() > 0 && self.state.last_move.is_some() {
            Position {
                men: self.men_before(self.state.last_move.unwrap()),
                side_to_move: self.side_to_move.flip(),
                state: self.history.last(),
                history: self.history.drop_last(),
                game_ply: (self.game_ply - 1) as u16,
            }
        } else {
            self
        }
    }

    /// What holds of a position whatever led to it: one king of the side to move and at most
    /// one of the other side, no pawn on the first or the last rank, castling rights within
    /// four bits, hash, checkers and pinned men as the placement gives them, and an
    /// en-passant target only behind a pawn that can be taken.
    pub open spec fn sound(self) -> bool {
        &&& self.men.len() == 64
        &&& one_king(self.men, self.side_to_move)
        &&& at_most_one_king(self.men, self.side_to_move.flip())
        &&& forall|i: int|
            0 <= i < 64 && (#[trigger] self.men[i] matches Some((_, piece)) && piece == Piece::Pawn)
                ==> 8 <= i < 56
        &&& self.state.castling_rights.wf()
        &&& self.state.hash == position_hash(
            self.men,
            self.side_to_move,
            self.state.castling_rights,
            self.state.en_passant_target,
        )
        &&& self.state.checkers.0 == checkers_of(self.men, self.side_to_move)
        &&& self.state.pinned.0 == pinned_of(self.men, self.side_to_move)
        &&& target_fits(self.men, self.side_to_move, self.state.en_passant_target)
    }

    /// A position is well-formed when it is sound and, where earlier states are kept, it came
    /// about by its last move from a well-formed position that accepted the move.
    #[verifier::opaque]
    pub open spec fn wf(self) -> bool
        decreases self.history.len(),
    {
        &&& self.sound()
        &&& (self.history.len() > 0 ==> {
            &&& self.state.last_move.is_some()
            &&& self.undo().wf()
            &&& self.undo().accepts(self.state.last_move.unwrap())
            &&& self.undo().apply(self.state.last_move.unwrap()) == self
        })
    }
}

} // verus!
