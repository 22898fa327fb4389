use vstd::prelude::*;
use crate::bitboard::{group_member, lemma_lowest, lemma_remove_decreases, member, BitBoard};
use crate::castling_rights::{kept_between, CastlingRights};
use crate::chess_move::{Move, MoveFlag};
use crate::color::{Color, ALL_COLORS};
use crate::laws::{
    lemma_apply_keeps_wf, lemma_king_survives, lemma_men_hash_update, lemma_shows_last_move,
    lemma_wf_sound,
};
use crate::movgen::{calculate_pinned_checkers, MoveList};
use crate::uci_move::UCIMove;
use crate::piece::{Piece, ALL_PIECES};
use crate::position::{
    en_passant_victim, men_hash, position_hash, rook_end, rook_start, target_key, turn_key,
    BoardState, Position,
};
use crate::square::Square;
use crate::zobrist::{
    castle_key, castle_keys, content_key, en_passant_keys, lemma_mixed, lemma_swap_keys,
    lemma_xor_laws, mixed, piece_key, piece_keys, side_key, side_keys,
};

verus! {

/// How a game stands for the side to move.
#[derive(Debug, PartialEq, Eq)]
pub enum BoardStatus {
    Ongoing,
    Stalemate,
    Checkmate,
}

/// A position held as bitboards: one set of squares per piece kind, one per color and their
/// union, with the per-ply state and the states of the plies before.
#[derive(Debug, Clone)]
pub struct Board {
    pub pieces: [BitBoard; 6],
    pub occupancies: [BitBoard; 2],
    pub combined: BitBoard,
    pub side_to_move: Color,
    pub history: Vec<BoardState>,
    pub state: BoardState,
    pub game_ply: u16,
}

/// 1 for true, 0 for false.
pub open spec fn one_if(b: bool) -> int {
    if b {
        1
    } else {
        0
    }
}

/// The kind of piece on square `i`: none where the square is not in `combined`, else the
/// first kind whose set holds the square.
pub open spec fn piece_in(pieces: [BitBoard; 6], combined: BitBoard, i: int) -> Option<Piece> {
    if !member(combined.0, i) {
        None
    } else if member(pieces[0].0, i) {
        Some(Piece::Pawn)
    } else if member(pieces[1].0, i) {
        Some(Piece::Knight)
    } else if member(pieces[2].0, i) {
        Some(Piece::Bishop)
    } else if member(pieces[3].0, i) {
        Some(Piece::Rook)
    } else if member(pieces[4].0, i) {
        Some(Piece::Queen)
    } else if member(pieces[5].0, i) {
        Some(Piece::King)
    } else {
        None
    }
}

/// The color of the man on square `i`.
pub open spec fn color_in(occupancies: [BitBoard; 2], i: int) -> Option<Color> {
    if member(occupancies[0].0, i) {
        Some(Color::White)
    } else if member(occupancies[1].0, i) {
        Some(Color::Black)
    } else {
        None
    }
}

/// What stands on square `i`.
pub open spec fn content_in(
    pieces: [BitBoard; 6],
    occupancies: [BitBoard; 2],
    combined: BitBoard,
    i: int,
) -> Option<(Color, Piece)> {
    match (color_in(occupancies, i), piece_in(pieces, combined, i)) {
        (Some(color), Some(piece)) => Some((color, piece)),
        _ => None,
    }
}

/// What stands on each of the 64 squares.
pub open spec fn men_of(
    pieces: [BitBoard; 6],
    occupancies: [BitBoard; 2],
    combined: BitBoard,
) -> Seq<Option<(Color, Piece)>> {
    Seq::new(64, |i: int| content_in(pieces, occupancies, combined, i))
}

/// Number of piece sets that hold square `i`.
pub open spec fn kinds_at(pieces: [BitBoard; 6], i: int) -> int {
    one_if(member(pieces[0].0, i)) + one_if(member(pieces[1].0, i)) + one_if(
        member(pieces[2].0, i),
    ) + one_if(member(pieces[3].0, i)) + one_if(member(pieces[4].0, i)) + one_if(
        member(pieces[5].0, i),
    )
}

/// The sets agree on square `i`: it is of at most one color, in `combined` exactly if it is
/// of a color, and in exactly one piece set if it is in `combined`, else in none.
pub open spec fn square_agrees(
    pieces: [BitBoard; 6],
    occupancies: [BitBoard; 2],
    combined: BitBoard,
    i: int,
) -> bool {
    let white = member(occupancies[0].0, i);
    let black = member(occupancies[1].0, i);
    &&& !(white && black)
    &&& member(combined.0, i) == (white || black)
    &&& kinds_at(pieces, i) == one_if(member(combined.0, i))
}

/// The sets agree on every square.
pub open spec fn squares_agree(
    pieces: [BitBoard; 6],
    occupancies: [BitBoard; 2],
    combined: BitBoard,
) -> bool {
    forall|i: int| 0 <= i < 64 ==> #[trigger] square_agrees(pieces, occupancies, combined, i)
}

impl View for Board {
    type V = Position;

    open spec fn view(&self) -> Position {
        Position {
            men: self.men(),
            side_to_move: self.side_to_move,
            state: self.state,
            history: self.history@,
            game_ply: self.game_ply,
        }
    }
}

impl Board {
    /// The kind of piece on square `i`.
    pub open spec fn piece_at(&self, i: int) -> Option<Piece> {
        piece_in(self.pieces, self.combined, i)
    }

    /// The color of the man on square `i`.
    pub open spec fn color_at(&self, i: int) -> Option<Color> {
        color_in(self.occupancies, i)
    }

    /// What stands on square `i`.
    pub open spec fn content(&self, i: int) -> Option<(Color, Piece)> {
        content_in(self.pieces, self.occupancies, self.combined, i)
    }

    /// What stands on each of the 64 squares.
    pub open spec fn men(&self) -> Seq<Option<(Color, Piece)>> {
        men_of(self.pieces, self.occupancies, self.combined)
    }

    /// The sets agree on square `i`.
    pub open spec fn square_ok(&self, i: int) -> bool {
        square_agrees(self.pieces, self.occupancies, self.combined, i)
    }

    /// The sets agree on every square.
    pub open spec fn squares_ok(&self) -> bool {
        squares_agree(self.pieces, self.occupancies, self.combined)
    }

    /// A board is well-formed when its sets agree on every square and the position they
    /// stand for is well-formed.
    pub open spec fn wf(&self) -> bool {
        self.squares_ok() && self@.wf()
    }

    /// Whether the two boards agree in every set of squares and in everything else they
    /// hold.
    pub open spec fn same_as(&self, other: &Board) -> bool {
        &&& self.pieces@ == other.pieces@
        &&& self.occupancies@ == other.occupancies@
        &&& self.combined == other.combined
        &&& self.side_to_move == other.side_to_move
        &&& self.history@ == other.history@
        &&& self.state == other.state
        &&& self.game_ply == other.game_ply
    }

    pub const STARTING_POS_FEN: &'static str =
        "rnbqkbnr/pppppppp/8/8/8/8/PPPPPPPP/RNBQKBNR w KQkq - 0 1";

    pub const KILLER_POS_FEN: &'static str =
        "rnbqkb1r/pp1p1pPp/8/2p1pP2/1P1P4/3P3P/P1P1P3/RNBQKBNR w KQkq e6 0 1";

    /// A board without men, with White to move and nothing recorded.
    pub fn blank() -> (b: Board)
        ensures
            b.squares_ok(),
            b.men() == Seq::new(64, |i: int| None::<(Color, Piece)>),
            b.history@.len() == 0,
            b.side_to_move == Color::White,
            b.game_ply == 0,
            b.combined.0 == 0,
    {
        let b = Board {
            pieces: [BitBoard(0), BitBoard(0), BitBoard(0), BitBoard(0), BitBoard(0), BitBoard(0)],
            occupancies: [BitBoard(0), BitBoard(0)],
            combined: BitBoard(0),
            side_to_move: Color::White,
            history: Vec::new(),
            state: BoardState {
                hash: 0,
                en_passant_target: None,
                castling_rights: CastlingRights(0),
                rule50: 0,
                ply: 0,
                checkers: BitBoard(0),
                pinned: BitBoard(0),
                last_move: None,
                captured_piece: None,
            },
            game_ply: 0,
        };
        proof {
            broadcast use group_member;

            assert forall|i: int| 0 <= i < 64 implies #[trigger] b.square_ok(i) && b.content(i)
                == None::<(Color, Piece)> by {}
            assert(b.men() =~= Seq::new(64, |i: int| None::<(Color, Piece)>));
        }
        b
    }

    /// Takes the man of the given color and kind off the square.
    #[verifier::rlimit(60)]
    pub(crate) fn lift(&mut self, color: Color, piece: Piece, sq: Square)
        requires
            old(self).squares_ok(),
            old(self).content(sq.index()) == Some((color, piece)),
        ensures
            final(self).squares_ok(),
            final(self).men() == old(self).men().update(sq.index(), None),
            final(self).side_to_move == old(self).side_to_move,
            final(self).history == old(self).history,
            final(self).state == old(self).state,
            final(self).game_ply == old(self).game_ply,
    {
        let one: u64 = BitBoard::from_square(sq).0;
        let p: usize = piece.to_index();
        let c: usize = color.to_index();
        assert(old(self).square_ok(sq.index()));
        self.pieces[p] = BitBoard(self.pieces[p].0 ^ one);
        self.occupancies[c] = BitBoard(self.occupancies[c].0 ^ one);
        self.combined = BitBoard(self.combined.0 ^ one);
        proof {
            assert forall|i: int|
                member(self.pieces[p as int].0, i) == (member(old(self).pieces[p as int].0, i)
                    && i != sq.index()) && member(self.occupancies[c as int].0, i) == (member(
                    old(self).occupancies[c as int].0,
                    i,
                ) && i != sq.index()) && member(self.combined.0, i) == (member(
                    old(self).combined.0,
                    i,
                ) && i != sq.index()) by {
                broadcast use group_member;

                assert(old(self).square_ok(sq.index()));
            }
            assert forall|i: int| 0 <= i < 64 implies #[trigger] square_agrees(
                self.pieces,
                self.occupancies,
                self.combined,
                i,
            ) && self.content(i) == old(self).men().update(sq.index(), None)[i] by {
                assert(old(self).square_ok(i));
                assert(member(self.pieces[p as int].0, i) == (member(
                    old(self).pieces[p as int].0,
                    i,
                ) && i != sq.index()));
                assert(member(self.occupancies[c as int].0, i) == (member(
                    old(self).occupancies[c as int].0,
                    i,
                ) && i != sq.index()));
            }
            assert(self.men() =~= old(self).men().update(sq.index(), None));
        }
    }

    /// Puts a man of the given color and kind on the square, which is empty.
    #[verifier::rlimit(60)]
    pub(crate) fn place(&mut self, color: Color, piece: Piece, sq: Square)
        requires
            old(self).squares_ok(),
            old(self).content(sq.index()).is_none(),
        ensures
            final(self).squares_ok(),
            final(self).men() == old(self).men().update(sq.index(), Some((color, piece))),
            final(self).side_to_move == old(self).side_to_move,
            final(self).history == old(self).history,
            final(self).state == old(self).state,
            final(self).game_ply == old(self).game_ply,
    {
        let one: u64 = BitBoard::from_square(sq).0;
        let p: usize = piece.to_index();
        let c: usize = color.to_index();
        assert(old(self).square_ok(sq.index()));
        self.pieces[p] = BitBoard(self.pieces[p].0 | one);
        self.occupancies[c] = BitBoard(self.occupancies[c].0 | one);
        self.combined = BitBoard(self.combined.0 | one);
        proof {
            assert forall|i: int|
                member(self.pieces[p as int].0, i) == (member(old(self).pieces[p as int].0, i)
                    || i == sq.index()) && member(self.occupancies[c as int].0, i) == (member(
                    old(self).occupancies[c as int].0,
                    i,
                ) || i == sq.index()) && member(self.combined.0, i) == (member(
                    old(self).combined.0,
                    i,
                ) || i == sq.index()) by {
                broadcast use group_member;

            }
            assert forall|i: int| 0 <= i < 64 implies #[trigger] square_agrees(
                self.pieces,
                self.occupancies,
                self.combined,
                i,
            ) && self.content(i) == old(self).men().update(sq.index(), Some((color, piece)))[i] by {
                assert(old(self).square_ok(i));
                assert(member(self.pieces[p as int].0, i) == (member(
                    old(self).pieces[p as int].0,
                    i,
                ) || i == sq.index()));
                assert(member(self.occupancies[c as int].0, i) == (member(
                    old(self).occupancies[c as int].0,
                    i,
                ) || i == sq.index()));
            }
            assert(self.men() =~= old(self).men().update(sq.index(), Some((color, piece))));
        }
    }

    /// The kind of piece on a square, if the square is occupied.
    pub fn piece_on_square(&self, square: Square) -> (r: Option<Piece>)
        ensures
            r == self.piece_at(square.index()),
            self.squares_ok() ==> r == match self@.men[square.index()] {
                Some((_, piece)) => Some(piece),
                None => None,
            },
    {
        let bitboard = BitBoard::from_square(square);
        proof {
            assert(self.squares_ok() ==> self.square_ok(square.index()));
        }
        if (self.combined.0 & bitboard.0) == 0 {
            None
        } else {
            let mut k: usize = 0;
            while k < 6
                invariant
                    0 <= k <= 6,
                    bitboard.0 == crate::bitboard::bit(square.index()),
                    member(self.combined.0, square.index()),
                    self.squares_ok() ==> self.square_ok(square.index()),
                    forall|j: int| 0 <= j < k ==> !member(self.pieces[j].0, square.index()),
                decreases 6 - k,
            {
                let piece = ALL_PIECES[k];
                if (self.pieces[piece.to_index()].0 & bitboard.0) != 0 {
                    assert(member(self.pieces[k as int].0, square.index()));
                    return Some(piece);
                }
                k = k + 1;
            }
            None
        }
    }

    /// The color of the man on a square, if the square is occupied.
    pub fn color_on_square(&self, square: Square) -> (r: Option<Color>)
        ensures
            r == self.color_at(square.index()),
            self.squares_ok() ==> r == match self@.men[square.index()] {
                Some((color, _)) => Some(color),
                None => None,
            },
    {
        let bitboard = BitBoard::from_square(square);
        proof {
            assert(self.squares_ok() ==> self.square_ok(square.index()));
        }
        if (self.occupancies[0].0 & bitboard.0) != 0 {
            Some(Color::White)
        } else if (self.occupancies[1].0 & bitboard.0) != 0 {
            Some(Color::Black)
        } else {
            None
        }
    }

    /// The squares that hold a piece of the given kind, of either color.
    pub fn pieces(&self, piece: Piece) -> (r: BitBoard)
        ensures
            r == self.pieces[piece.index()],
    {
        self.pieces[piece.to_index()]
    }

    /// The squares that hold a man of the given color.
    pub fn occupancies(&self, color: Color) -> (r: BitBoard)
        ensures
            r == self.occupancies[color.index()],
    {
        self.occupancies[color.to_index()]
    }

    /// All occupied squares.
    pub fn combined(&self) -> (r: BitBoard)
        ensures
            r == self.combined,
    {
        self.combined
    }

    pub fn side_to_move(&self) -> (r: Color)
        ensures
            r == self.side_to_move,
    {
        self.side_to_move
    }

    /// The men that give check to the side to move.
    pub fn checkers(&self) -> (r: BitBoard)
        ensures
            r == self.state.checkers,
    {
        self.state.checkers
    }

    /// The men of the side to move that are pinned to their king.
    pub fn pinned(&self) -> (r: BitBoard)
        ensures
            r == self.state.pinned,
    {
        self.state.pinned
    }

    pub fn castling_rights(&self) -> (r: CastlingRights)
        ensures
            r == self.state.castling_rights,
    {
        self.state.castling_rights
    }

    pub fn en_passant_target(&self) -> (r: Option<Square>)
        ensures
            r == self.state.en_passant_target,
    {
        self.state.en_passant_target
    }

    /// Number of plies played in the game, counted from its first move.
    pub fn game_ply(&self) -> (r: u16)
        ensures
            r == self.game_ply,
    {
        self.game_ply
    }

    /// The Zobrist hash of the position.
    pub fn hash(&self) -> (r: u64)
        ensures
            r == self.state.hash,
    {
        self.state.hash
    }
}

/// A placement with the side to move, the castling rights and the en-passant target, before
/// it has a hash, checkers and pinned men.
pub struct PartialBoard {
    pub pieces: [BitBoard; 6],
    pub occupancies: [BitBoard; 2],
    pub en_passant_target: Option<Square>,
    pub castling_rights: CastlingRights,
    pub combined: BitBoard,
    pub side_to_move: Color,
}

/// Place of a man in the order in which the hash takes the men up: White's six kinds, then
/// Black's.
pub open spec fn class_of(color: Color, piece: Piece) -> int {
    color.index() * 6 + piece.index()
}

/// What stands on square `i`, as far as the hash has taken it up when it has done with the
/// classes below `class` and, within `class`, with the squares below `low`.
pub open spec fn swept(men: Seq<Option<(Color, Piece)>>, class: int, low: int, i: int) -> Option<
    (Color, Piece),
> {
    match men[i] {
        Some((color, piece)) => if class_of(color, piece) < class || (class_of(color, piece)
            == class && i < low) {
            men[i]
        } else {
            None
        },
        None => None,
    }
}

/// The men that the hash has taken up so far.
pub open spec fn swept_men(men: Seq<Option<(Color, Piece)>>, class: int, low: int) -> Seq<
    Option<(Color, Piece)>,
> {
    Seq::new(64, |i: int| swept(men, class, low, i))
}

/// The men of a color and kind stand on the squares that are in both of their sets.
pub proof fn lemma_class_members(
    pieces: [BitBoard; 6],
    occupancies: [BitBoard; 2],
    combined: BitBoard,
    color: Color,
    piece: Piece,
    i: int,
)
    requires
        squares_agree(pieces, occupancies, combined),
        0 <= i < 64,
    ensures
        member(pieces[piece.index()].0 & occupancies[color.index()].0, i) == (content_in(
            pieces,
            occupancies,
            combined,
            i,
        ) == Some((color, piece))),
        member(combined.0, i) == content_in(pieces, occupancies, combined, i).is_some(),
        member(occupancies[color.index()].0, i) == (color_in(occupancies, i) == Some(color)),
        member(pieces[piece.index()].0, i) == (piece_in(pieces, combined, i) == Some(piece)),
        content_in(pieces, occupancies, combined, i).is_some() == color_in(occupancies, i).is_some(),
        content_in(pieces, occupancies, combined, i).is_some() == piece_in(
            pieces,
            combined,
            i,
        ).is_some(),
{
    broadcast use group_member;

    assert(square_agrees(pieces, occupancies, combined, i));
}

impl PartialBoard {
    /// What stands on each of the 64 squares.
    pub open spec fn men(&self) -> Seq<Option<(Color, Piece)>> {
        men_of(self.pieces, self.occupancies, self.combined)
    }

    /// The sets agree on every square.
    pub open spec fn squares_ok(&self) -> bool {
        squares_agree(self.pieces, self.occupancies, self.combined)
    }

    pub fn pieces(&self, piece: Piece) -> (r: BitBoard)
        ensures
            r == self.pieces[piece.index()],
    {
        self.pieces[piece.to_index()]
    }

    pub fn occupancies(&self, color: Color) -> (r: BitBoard)
        ensures
            r == self.occupancies[color.index()],
    {
        self.occupancies[color.to_index()]
    }

    pub fn combined(&self) -> (r: BitBoard)
        ensures
            r == self.combined,
    {
        self.combined
    }

    pub fn side_to_move(&self) -> (r: Color)
        ensures
            r == self.side_to_move,
    {
        self.side_to_move
    }

    /// The Zobrist hash of the position, computed from scratch.
    #[verifier::rlimit(60)]
    pub fn generate_hash_key(&self) -> (key: u64)
        requires
            self.squares_ok(),
        ensures
            key == position_hash(
                self.men(),
                self.side_to_move,
                self.castling_rights,
                self.en_passant_target,
            ),
    {
        let mut key: u64 = 0;
        let ghost men = self.men();
        let mut c: usize = 0;
        proof {
            assert(swept_men(men, 0, 0) =~= Seq::new(64, |i: int| None));
            lemma_men_hash_none(64);
        }
        while c < 2
            invariant
                0 <= c <= 2,
                self.squares_ok(),
                men == self.men(),
                key == men_hash(swept_men(men, 6 * c, 0), 64),
            decreases 2 - c,
        {
            let color = ALL_COLORS[c];
            let mut p: usize = 0;
            while p < 6
                invariant
                    0 <= p <= 6,
                    0 <= c < 2,
                    color == Color::at(c as int),
                    self.squares_ok(),
                    men == self.men(),
                    key == men_hash(swept_men(men, 6 * c + p, 0), 64),
                decreases 6 - p,
            {
                let piece = ALL_PIECES[p];
                let mut rest: u64 = self.pieces[p].0 & self.occupancies[c].0;
                let ghost class = 6 * c + p;
                let ghost mut low: int = 0;
                proof {
                    assert forall|i: int| member(rest, i) == (0 <= i < 64 && men[i] == Some(
                        (color, piece),
                    )) by {
                        if 0 <= i < 64 {
                            lemma_class_members(
                                self.pieces,
                                self.occupancies,
                                self.combined,
                                color,
                                piece,
                                i,
                            );
                        }
                    }
                }
                while rest != 0
                    invariant
                        0 <= low <= 64,
                        class == class_of(color, piece),
                        men.len() == 64,
                        forall|i: int|
                            member(rest, i) == (low <= i < 64 && men[i] == Some((color, piece))),
                        key == men_hash(swept_men(men, class, low), 64),
                    decreases rest,
                {
                    proof {
                        lemma_lowest(rest);
                    }
                    let k: u32 = rest.trailing_zeros();
                    let ghost before = rest;
                    proof {
                        lemma_remove_decreases(rest, k as int);
                        let so_far = swept_men(men, class, low);
                        assert(swept_men(men, class, k as int) =~= so_far) by {
                            assert forall|i: int| 0 <= i < 64 implies swept(men, class, k as int, i)
                                == swept(men, class, low, i) by {
                                if low <= i < k {
                                    assert(!member(rest, i));
                                }
                            }
                        }
                        assert(swept_men(men, class, k as int + 1) =~= so_far.update(
                            k as int,
                            men[k as int],
                        ));
                        lemma_men_hash_update(so_far, k as int, men[k as int], 64);
                        lemma_xor_laws(key, 0, 0);
                    }
                    key = key ^ piece_keys(color, piece, k as u8);
                    rest = rest ^ (1u64 << (k as u64));
                    proof {
                        broadcast use group_member;

                        assert forall|i: int|
                            member(rest, i) == (k as int + 1 <= i < 64 && men[i] == Some(
                                (color, piece),
                            )) by {
                            assert(member(before, i) == (low <= i < 64 && men[i] == Some(
                                (color, piece),
                            )));
                            if low <= i < k {
                                assert(!member(before, i));
                            }
                        }
                        low = k as int + 1;
                    }
                }
                proof {
                    assert(swept_men(men, class + 1, 0) =~= swept_men(men, class, low)) by {
                        assert forall|i: int| 0 <= i < 64 implies swept(men, class + 1, 0, i)
                            == swept(men, class, low, i) by {
                            crate::bitboard::lemma_member_zero(i);
                            assert(!member(rest, i));
                        }
                    }
                }
                p = p + 1;
            }
            c = c + 1;
        }
        proof {
            assert(swept_men(men, 12, 0) =~= men);
        }
        if let Some(en_passant_target) = self.en_passant_target {
            key = key ^ en_passant_keys(en_passant_target.file());
        } else {
            proof {
                lemma_xor_laws(key, 0, 0);
            }
        }
        key = key ^ castle_keys(self.castling_rights.0);
        if self.side_to_move == Color::Black {
            key = key ^ side_keys();
        } else {
            proof {
                lemma_xor_laws(key, 0, 0);
            }
        }
        key
    }
}

/// Taking a man off a square takes its key out of the hash of the men.
pub proof fn lemma_lift_hash(men: Seq<Option<(Color, Piece)>>, sq: int)
    requires
        men.len() == 64,
        0 <= sq < 64,
    ensures
        men_hash(men.update(sq, None), 64) == men_hash(men, 64) ^ content_key(men[sq], sq),
{
    lemma_men_hash_update(men, sq, None, 64);
    lemma_xor_laws(men_hash(men, 64) ^ content_key(men[sq], sq), 0, 0);
}

/// Putting a man on an empty square puts its key into the hash of the men.
pub proof fn lemma_place_hash(men: Seq<Option<(Color, Piece)>>, sq: int, color: Color, piece: Piece)
    requires
        men.len() == 64,
        0 <= sq < 64,
        men[sq].is_none(),
    ensures
        men_hash(men.update(sq, Some((color, piece))), 64) == men_hash(men, 64) ^ piece_key(
            color,
            piece,
            sq,
        ),
{
    lemma_men_hash_update(men, sq, Some((color, piece)), 64);
    lemma_xor_laws(men_hash(men, 64), 0, 0);
}

/// The rights that survive a move between two squares.
fn rights_kept_between(from: Square, to: Square) -> (r: CastlingRights)
    ensures
        r.0 == kept_between(from.index(), to.index()),
{
    CastlingRights::kept_after(from).intersection(CastlingRights::kept_after(to))
}

/// The castling rights after a move by `mover` that captured `captured`.
fn next_rights(rights: CastlingRights, mover: Color, mov: Move, captured: Option<Piece>) -> (r:
    CastlingRights)
    ensures
        r.0 == crate::position::rights_after(rights.0, mover, mov, captured),
{
    let mut rights = rights;
    if let Some(target) = captured {
        // a captured rook takes the right of its corner with it
        if target == Piece::Rook {
            rights = rights.intersection(CastlingRights::kept_after(mov.to));
        }
    }
    if mov.piece == Piece::Rook {
        rights.intersection(rights_kept_between(mov.from, mov.to))
    } else if mov.piece == Piece::King {
        // remove castling rights for side if king moved (includes castling)
        rights.without(CastlingRights::of_side(mover))
    } else {
        rights
    }
}

impl Board {
    /// Moves the rook of a castling move from its corner to the square beside the king.
    #[verifier::rlimit(60)]
    fn castle_rook(&mut self, mover: Color, to: Square) -> (delta: u64)
        requires
            old(self).squares_ok(),
            old(self).men()[rook_start(mover, to.index())] == Some((mover, Piece::Rook)),
            old(self).men()[rook_end(mover, to.index())].is_none(),
        ensures
            final(self).squares_ok(),
            final(self).men() == old(self).men().update(rook_start(mover, to.index()), None).update(
                rook_end(mover, to.index()),
                Some((mover, Piece::Rook)),
            ),
            men_hash(final(self).men(), 64) == men_hash(old(self).men(), 64) ^ delta,
            final(self).side_to_move == old(self).side_to_move,
            final(self).history == old(self).history,
            final(self).state == old(self).state,
            final(self).game_ply == old(self).game_ply,
    {
        let backrank = mover.backrank();
        let (rook_start_file, rook_end_file): (u8, u8) = if to.file() < 4 {
            (0, 3)
        } else {
            (7, 5)
        };
        let rook_start_square = Square::from(backrank, rook_start_file);
        let rook_end_square = Square::from(backrank, rook_end_file);
        let ghost men0 = self.men();
        let out: u64 = piece_keys(mover, Piece::Rook, rook_start_square.to_index());
        let back: u64 = piece_keys(mover, Piece::Rook, rook_end_square.to_index());
        proof {
            lemma_lift_hash(men0, rook_start_square.index());
            lemma_place_hash(
                men0.update(rook_start_square.index(), None),
                rook_end_square.index(),
                mover,
                Piece::Rook,
            );
            lemma_xor_laws(men_hash(men0, 64), out, back);
        }
        self.lift(mover, Piece::Rook, rook_start_square);
        self.place(mover, Piece::Rook, rook_end_square);
        out ^ back
    }

    /// Takes the captured man, if the move captures one on its target square, off the board.
    #[verifier::rlimit(60)]
    fn take_target(&mut self, mov: Move) -> (r: (Option<Piece>, u64))
        requires
            old(self).squares_ok(),
            old(self)@.accepts(mov),
        ensures
            final(self).squares_ok(),
            r.0 == old(self)@.captured_by(mov),
            final(self).men() == old(self).men().update(mov.to.index(), None),
            men_hash(final(self).men(), 64) == men_hash(old(self).men(), 64) ^ r.1,
            final(self).side_to_move == old(self).side_to_move,
            final(self).history == old(self).history,
            final(self).state == old(self).state,
            final(self).game_ply == old(self).game_ply,
    {
        let foe = self.side_to_move.opposite();
        // get piece at target square before moving
        let target_piece = self.piece_on_square(mov.to);
        if mov.flags == MoveFlag::Capture {
            let target = target_piece.unwrap();
            proof {
                lemma_lift_hash(self.men(), mov.to.index());
            }
            self.lift(foe, target, mov.to);
            (Some(target), piece_keys(foe, target, mov.to.to_index()))
        } else {
            proof {
                lemma_xor_laws(men_hash(self.men(), 64), 0, 0);
                assert(self.men() =~= self.men().update(mov.to.index(), None));
            }
            (None, 0)
        }
    }

    /// Moves the men as the move says and returns the captured piece with the keys of all
    /// that left or reached a square.
    #[verifier::rlimit(60)]
    fn shift_men(&mut self, mov: Move) -> (r: (Option<Piece>, u64))
        requires
            old(self).squares_ok(),
            old(self)@.accepts(mov),
        ensures
            final(self).squares_ok(),
            r.0 == old(self)@.captured_by(mov),
            final(self).men() == old(self)@.men_after(mov),
            men_hash(final(self).men(), 64) == men_hash(old(self).men(), 64) ^ r.1,
            final(self).side_to_move == old(self).side_to_move,
            final(self).history == old(self).history,
            final(self).state == old(self).state,
            final(self).game_ply == old(self).game_ply,
    {
        let ghost men0 = self.men();
        let ghost base = men_hash(men0, 64);
        let mover = self.side_to_move;
        let foe = mover.opposite();
        let from = mov.from;
        let to = mov.to;
        let (captured, taken) = self.take_target(mov);
        let ghost men1 = self.men();

        // remove piece from `from`
        let left: u64 = piece_keys(mover, mov.piece, from.to_index());
        proof {
            lemma_lift_hash(men1, from.index());
        }
        self.lift(mover, mov.piece, from);

        // set the piece, or what the pawn turns into, on `to`
        let arriving = match mov.promotion {
            Some(promotion) => promotion.as_piece(),
            None => mov.piece,
        };
        let came: u64 = piece_keys(mover, arriving, to.to_index());
        proof {
            lemma_place_hash(self.men(), to.index(), mover, arriving);
        }
        self.place(mover, arriving, to);
        let ghost men2 = self.men();
        let mut delta: u64 = taken ^ left ^ came;
        proof {
            assert(men2 =~= men0.update(from.index(), None).update(
                to.index(),
                Some((mover, mov.arriving_piece())),
            ));
            lemma_xor_laws(base, taken, left);
            lemma_xor_laws(base, taken ^ left, came);
            assert(men_hash(men2, 64) == base ^ delta);
        }

        if mov.flags == MoveFlag::EnPassant {
            let victim = to.forward(foe).unwrap();
            let gone: u64 = piece_keys(foe, Piece::Pawn, victim.to_index());
            proof {
                assert(victim.index() == en_passant_victim(mover, to.index()));
                lemma_lift_hash(men2, victim.index());
                lemma_xor_laws(base, delta, gone);
            }
            self.lift(foe, Piece::Pawn, victim);
            delta = delta ^ gone;
        }
        let ghost men3 = self.men();
        assert(men_hash(men3, 64) == base ^ delta);

        if mov.flags == MoveFlag::Castling {
            let rook = self.castle_rook(mover, to);
            proof {
                lemma_xor_laws(base, delta, rook);
            }
            delta = delta ^ rook;
        }
        proof {
            assert(self.men() =~= old(self)@.men_after(mov));
        }
        (captured, delta)
    }

    /// Makes a move: the men go to their new squares, the hash follows them, the state before
    /// the move is put on the history, and checkers and pinned men are worked out for the
    /// side that moves next.
    #[verifier::rlimit(60)]
    pub fn apply_move(&mut self, mov: Move)
        requires
            old(self).wf(),
            old(self)@.accepts(mov),
        ensures
            final(self).wf(),
            final(self)@ == old(self)@.apply(mov),
    {
        let ghost before = self@;
        let mover = self.side_to_move;
        let foe = mover.opposite();
        let old_state = self.state;
        let ghost gm = men_hash(before.men, 64);
        let ghost ge = target_key(old_state.en_passant_target);
        let ghost gc = castle_key(old_state.castling_rights.0);
        let ghost gs = turn_key(mover);
        proof {
            lemma_wf_sound(before);
        }

        let (captured_piece, delta) = self.shift_men(mov);
        let mut hash: u64 = old_state.hash ^ delta;
        proof {
            lemma_mixed(gm, ge, gc, gs, delta);
        }
        self.game_ply = self.game_ply + 1;

        // en passant is cleared after doing any move
        if let Some(en_passant_target) = old_state.en_passant_target {
            hash = hash ^ en_passant_keys(en_passant_target.file());
        }
        proof {
            lemma_swap_keys(gm ^ delta, ge, gc, gs, ge, 0);
            lemma_xor_laws(mixed(gm ^ delta, ge, gc, gs) ^ ge, 0, 0);
            lemma_xor_laws(mixed(gm ^ delta, ge, gc, gs), 0, 0);
        }
        assert(hash == mixed(gm ^ delta, 0, gc, gs));
        let mut en_passant_target: Option<Square> = None;
        if mov.flags == MoveFlag::DoublePawnPush {
            // update en_passant_target when double pushing
            en_passant_target = mov.to.forward(foe);
            if let Some(target) = en_passant_target {
                proof {
                    lemma_swap_keys(gm ^ delta, 0, gc, gs, 0, en_passant_key_of(target));
                    lemma_xor_laws(hash, 0, 0);
                }
                hash = hash ^ en_passant_keys(target.file());
            }
        }
        let ghost ge2 = target_key(en_passant_target);
        assert(hash == mixed(gm ^ delta, ge2, gc, gs));

        // update castling rights
        let rights = next_rights(old_state.castling_rights, mover, mov, captured_piece);
        proof {
            lemma_swap_keys(gm ^ delta, ge2, gc, gs, gc, castle_key(rights.0));
        }
        hash = hash ^ castle_keys(old_state.castling_rights.0);
        hash = hash ^ castle_keys(rights.0);

        // update side
        self.side_to_move = foe;
        proof {
            lemma_mixed(gm ^ delta, ge2, castle_key(rights.0), gs, side_key());
            lemma_xor_laws(side_key(), 0, 0);
        }
        hash = hash ^ side_keys();
        assert(hash == mixed(gm ^ delta, ge2, castle_key(rights.0), turn_key(foe)));

        let rule50: u8 = if mov.piece == Piece::Pawn || mov.flags == MoveFlag::Capture {
            0
        } else {
            old_state.rule50 + 1
        };
        proof {
            lemma_king_survives(before, mov, foe);
        }
        let partial = PartialBoard {
            pieces: self.pieces,
            occupancies: self.occupancies,
            en_passant_target,
            castling_rights: rights,
            combined: self.combined,
            side_to_move: foe,
        };
        let (pinned, checkers) = calculate_pinned_checkers(&partial);

        self.state = BoardState {
            hash,
            en_passant_target,
            castling_rights: rights,
            rule50,
            ply: old_state.ply + 1,
            checkers,
            pinned,
            last_move: Some(mov),
            captured_piece,
        };
        self.history.push(old_state);
        proof {
            lemma_apply_keeps_wf(before, mov);
            assert(self@.history =~= before.apply(mov).history);
            assert(self@ == before.apply(mov));
        }
    }
}

impl Board {
    /// Takes back the last move: the men return to the squares they came from, a captured
    /// man returns to the board, and the state before the move is taken from the history.
    /// Where the history is empty nothing changes.
    #[verifier::rlimit(60)]
    pub fn undo_move(&mut self)
        requires
            old(self).wf(),
        ensures
            final(self).wf(),
            final(self)@ == old(self)@.undo(),
            old(self).history@.len() == 0 ==> final(self).same_as(old(self)),
    {
        if self.history.len() == 0 {
            return ;
        }
        let ghost now = self@;
        proof {
            lemma_shows_last_move(now);
        }
        // revert last move from popped state
        let last_move = self.state.last_move.unwrap();
        self.unshift_men(last_move);
        self.side_to_move = self.side_to_move.opposite();
        self.game_ply = self.game_ply - 1;
        let previous_state = self.history.pop().unwrap();
        self.state = previous_state;
        proof {
            assert(self@.history =~= now.undo().history);
            assert(self@ == now.undo());
        }
    }

    /// Puts the men back where they stood before move `m`, which the side that is not to
    /// move has made.
    #[verifier::rlimit(60)]
    fn unshift_men(&mut self, m: Move)
        requires
            old(self).squares_ok(),
            old(self)@.shows(m),
        ensures
            final(self).squares_ok(),
            final(self).men() == old(self)@.men_before(m),
            final(self).side_to_move == old(self).side_to_move,
            final(self).history == old(self).history,
            final(self).state == old(self).state,
            final(self).game_ply == old(self).game_ply,
    {
        let foe = self.side_to_move;
        let mover = foe.opposite();
        let from = m.from;
        let to = m.to;
        let ghost men0 = self.men();
        if m.flags == MoveFlag::Castling {
            self.uncastle_rook(mover, to);
        }
        // undo promotion along with the move: what stands on `to` leaves, the piece that
        // moved returns to `from`
        let arriving = match m.promotion {
            Some(promotion) => promotion.as_piece(),
            None => m.piece,
        };
        assert(self.men()[to.index()] == self.content(to.index()));
        self.lift(mover, arriving, to);

        // undo capture
        if let Some(captured_piece) = self.state.captured_piece {
            assert(self.men()[to.index()] == self.content(to.index()));
            self.place(foe, captured_piece, to);
        }
        assert(self.men()[from.index()] == self.content(from.index()));
        self.place(mover, m.piece, from);

        if m.flags == MoveFlag::EnPassant {
            let victim = to.forward(foe).unwrap();
            proof {
                assert(victim.index() == en_passant_victim(mover, to.index()));
                assert(self.men()[victim.index()] == self.content(victim.index()));
            }
            self.place(foe, Piece::Pawn, victim);
        }
        proof {
            assert(self.men() =~= old(self)@.men_before(m));
        }
    }

    /// Moves the rook of a castling move back from beside the king to its corner.
    fn uncastle_rook(&mut self, mover: Color, to: Square)
        requires
            old(self).squares_ok(),
            old(self).men()[rook_end(mover, to.index())] == Some((mover, Piece::Rook)),
            old(self).men()[rook_start(mover, to.index())].is_none(),
        ensures
            final(self).squares_ok(),
            final(self).men() == old(self).men().update(rook_end(mover, to.index()), None).update(
                rook_start(mover, to.index()),
                Some((mover, Piece::Rook)),
            ),
            final(self).side_to_move == old(self).side_to_move,
            final(self).history == old(self).history,
            final(self).state == old(self).state,
            final(self).game_ply == old(self).game_ply,
    {
        let backrank = mover.backrank();
        let (rook_start_file, rook_end_file): (u8, u8) = if to.file() < 4 {
            (0, 3)
        } else {
            (7, 5)
        };
        let rook_start_square = Square::from(backrank, rook_start_file);
        let rook_end_square = Square::from(backrank, rook_end_file);
        assert(self.men()[rook_end_square.index()] == self.content(rook_end_square.index()));
        self.lift(mover, Piece::Rook, rook_end_square);
        assert(self.men()[rook_start_square.index()] == self.content(rook_start_square.index()));
        self.place(mover, Piece::Rook, rook_start_square);
    }
}

/// Whether the hash of the current state stands in the history `n` plies back for some even
/// `n` from 2 up to `reach`.
pub open spec fn repeats_within(history: Seq<BoardState>, hash: u64, reach: int) -> bool {
    exists|k: int|
        1 <= k && 2 * k <= reach && 2 * k <= history.len() && (#[trigger] history[history.len()
            - 2 * k]).hash == hash
}

/// How the game stands for the side to move, told from whether it has a move and whether it
/// is in check.
pub open spec fn status_of(pos: Position) -> BoardStatus {
    if exists|m: Move| crate::rules::legal(pos, m) {
        BoardStatus::Ongoing
    } else if pos.state.checkers.0 == 0 {
        BoardStatus::Stalemate
    } else {
        BoardStatus::Checkmate
    }
}

impl Board {
    /// The legal moves of the side to move, each once.
    pub fn generate_moves(&self) -> (r: MoveList)
        requires
            self.wf(),
        ensures
            r@.no_duplicates(),
            forall|m: Move| r@.contains(m) <==> crate::rules::legal(self@, m),
    {
        crate::movgen::legal::generate_moves(self)
    }

    /// Whether the game goes on, or has ended in stalemate or checkmate.
    pub fn status(&self) -> (r: BoardStatus)
        requires
            self.wf(),
        ensures
            r == status_of(self@),
    {
        let moves = crate::movgen::legal::generate_moves(self);
        if moves.is_empty() {
            proof {
                assert forall|m: Move| !crate::rules::legal(self@, m) by {
                    assert(!moves@.contains(m));
                }
            }
            return if self.state.checkers.is_empty() {
                BoardStatus::Stalemate
            } else {
                BoardStatus::Checkmate
            };
        }
        proof {
            assert(moves@.contains(moves@[0]));
        }
        BoardStatus::Ongoing
    }

    /// Makes the move that the protocol names, which is one of the legal moves of the side
    /// to move.
    pub fn apply_uci_move(&mut self, uci_move: UCIMove)
        requires
            old(self).wf(),
            old(self)@.has_room(),
            exists|m: Move| crate::rules::legal(old(self)@, m) && uci_move.names(m),
        ensures
            final(self).wf(),
            exists|m: Move|
                crate::rules::legal(old(self)@, m) && uci_move.names(m) && final(self)@ == old(
                    self,
                )@.apply(m),
    {
        let moves = crate::movgen::legal::generate_moves(self);
        let ghost named = choose|m: Move| crate::rules::legal(old(self)@, m) && uci_move.names(m);
        let mut i: usize = 0;
        assert(moves@.contains(named));
        while i < moves.len()
            invariant
                0 <= i <= moves@.len(),
                self == old(self),
                self.wf(),
                self@.has_room(),
                uci_move.names(named),
                moves@.contains(named),
                forall|m: Move| moves@.contains(m) <==> crate::movgen::legal::generated(self@, m),
                forall|m: Move| moves@.contains(m) <==> crate::rules::legal(self@, m),
                forall|j: int| 0 <= j < i ==> !uci_move.names(moves@[j]),
            decreases moves@.len() - i,
        {
            let chess_move = moves.get(i);
            if uci_move.matches(&chess_move) {
                proof {
                    assert(moves@.contains(chess_move));
                    assert(crate::rules::legal(self@, chess_move));
                    lemma_wf_sound(self@);
                    crate::movgen::legal::lemma_generated_accepted(self@, chess_move);
                }
                self.apply_move(chess_move);
                return ;
            }
            i = i + 1;
        }
        proof {
            let j = choose|j: int| 0 <= j < moves@.len() && moves@[j] == named;
            assert(!uci_move.names(moves@[j]));
            assert(false);
        }
    }

    /// Whether the position has stood on the board before, with the same side to move and
    /// since the last capture or pawn move.
    pub fn is_repetition(&self) -> (r: bool)
        ensures
            r == repeats_within(self.history@, self.state.hash, self.state.rule50 as int),
    {
        let key = self.state.hash;
        let n: usize = self.history.len();
        let reach: usize = self.state.rule50 as usize;
        let mut back: usize = 2;
        while back <= reach && back <= n
            invariant
                2 <= back,
                back % 2 == 0,
                n == self.history@.len(),
                reach == self.state.rule50,
                key == self.state.hash,
                forall|k: int|
                    1 <= k && 2 * k < back ==> (#[trigger] self.history@[n - 2 * k]).hash != key,
            decreases n + 2 - back,
        {
            if self.history[n - back].hash == key {
                proof {
                    let k = (back / 2) as int;
                    assert(self.history@[n - 2 * k].hash == key);
                }
                return true;
            }
            back = back + 2;
        }
        false
    }
}

/// The piece that starts on a file of the back rank.
pub open spec fn back_rank_piece(file: int) -> Piece {
    if file == 0 || file == 7 {
        Piece::Rook
    } else if file == 1 || file == 6 {
        Piece::Knight
    } else if file == 2 || file == 5 {
        Piece::Bishop
    } else if file == 3 {
        Piece::Queen
    } else {
        Piece::King
    }
}

/// What stands on square `i` when a game starts.
pub open spec fn starting_content(i: int) -> Option<(Color, Piece)> {
    if i / 8 == 0 {
        Some((Color::White, back_rank_piece(i % 8)))
    } else if i / 8 == 1 {
        Some((Color::White, Piece::Pawn))
    } else if i / 8 == 6 {
        Some((Color::Black, Piece::Pawn))
    } else if i / 8 == 7 {
        Some((Color::Black, back_rank_piece(i % 8)))
    } else {
        None
    }
}

/// The men when a game starts, as far as the files below `files` go.
pub open spec fn starting_men(files: int) -> Seq<Option<(Color, Piece)>> {
    Seq::new(
        64,
        |i: int|
            if i % 8 < files {
                starting_content(i)
            } else {
                None
            },
    )
}

/// The position in which a game starts.
pub open spec fn starting_position() -> Position {
    crate::fen::position_of(
        crate::fen::FenRecord {
            men: starting_men(8),
            side: Color::White,
            rights: 15,
            target: None,
            halfmove: 0,
            fullmove: 1,
        },
    )
}

fn back_rank(file: u8) -> (r: Piece)
    requires
        file < 8,
    ensures
        r == back_rank_piece(file as int),
{
    match file {
        0 => Piece::Rook,
        1 => Piece::Knight,
        2 => Piece::Bishop,
        3 => Piece::Queen,
        4 => Piece::King,
        5 => Piece::Bishop,
        6 => Piece::Knight,
        _ => Piece::Rook,
    }
}

impl Board {
    /// The board on which a game starts.
    #[verifier::rlimit(60)]
    pub fn starting() -> (r: Board)
        ensures
            r.wf(),
            r@ == starting_position(),
    {
        let mut board = Board::blank();
        let mut file: u8 = 0;
        assert(board.men() =~= starting_men(0));
        while file < 8
            invariant
                0 <= file <= 8,
                board.squares_ok(),
                board.history@.len() == 0,
                board.men() == starting_men(file as int),
            decreases 8 - file,
        {
            let ghost men0 = board.men();
            let a = Square::from(0, file);
            let b = Square::from(1, file);
            let c = Square::from(6, file);
            let d = Square::from(7, file);
            assert(board.men()[a.index()] == board.content(a.index()));
            board.place(Color::White, back_rank(file), a);
            assert(board.men()[b.index()] == board.content(b.index()));
            board.place(Color::White, Piece::Pawn, b);
            assert(board.men()[c.index()] == board.content(c.index()));
            board.place(Color::Black, Piece::Pawn, c);
            assert(board.men()[d.index()] == board.content(d.index()));
            board.place(Color::Black, back_rank(file), d);
            file = file + 1;
            assert(board.men() =~= starting_men(file as int));
        }
        proof {
            let men = board.men();
            assert(crate::position::king_at(men, Color::White, 4));
            assert(crate::position::king_at(men, Color::Black, 60));
            crate::laws::lemma_one_is_at_most_one(men, Color::Black);
        }
        board.set_up(Color::White, CastlingRights::all(), None, 0, 1);
        board
    }
}

impl Default for Board {
    fn default() -> (r: Board)
        ensures
            r.wf(),
            r@ == starting_position(),
    {
        Board::starting()
    }
}

impl Board {
    /// The hash of the position computed from scratch. On a well-formed board it is the hash
    /// that the moves have kept up to date.
    pub fn hash_from_scratch(&self) -> (r: u64)
        requires
            self.wf(),
        ensures
            r == self.state.hash,
            r == position_hash(
                self.men(),
                self.side_to_move,
                self.state.castling_rights,
                self.state.en_passant_target,
            ),
    {
        proof {
            lemma_wf_sound(self@);
        }
        let partial = PartialBoard {
            pieces: self.pieces,
            occupancies: self.occupancies,
            en_passant_target: self.state.en_passant_target,
            castling_rights: self.state.castling_rights,
            combined: self.combined,
            side_to_move: self.side_to_move,
        };
        partial.generate_hash_key()
    }

    /// Whether two boards hold the same men on the same squares with the same side to move.
    pub open spec fn same_placement(&self, other: &Board) -> bool {
        &&& forall|p: int| 0 <= p < 6 ==> self.pieces[p] == other.pieces[p]
        &&& forall|c: int| 0 <= c < 2 ==> self.occupancies[c] == other.occupancies[c]
        &&& self.combined == other.combined
        &&& self.side_to_move == other.side_to_move
    }
}

impl PartialEq for Board {
    /// Boards are equal when they hold the same men on the same squares and the same side is
    /// to move; what led to the position does not count.
    fn eq(&self, other: &Self) -> (r: bool) {
        let mut p: usize = 0;
        while p < 6
            invariant
                0 <= p <= 6,
                forall|q: int| 0 <= q < p ==> self.pieces[q] == other.pieces[q],
            decreases 6 - p,
        {
            if self.pieces[p].0 != other.pieces[p].0 {
                return false;
            }
            p = p + 1;
        }
        if self.occupancies[0].0 != other.occupancies[0].0 {
            return false;
        }
        if self.occupancies[1].0 != other.occupancies[1].0 {
            return false;
        }
        self.combined.0 == other.combined.0 && self.side_to_move == other.side_to_move
    }
}

impl vstd::std_specs::cmp::PartialEqSpecImpl for Board {
    open spec fn obeys_eq_spec() -> bool {
        true
    }

    open spec fn eq_spec(&self, other: &Self) -> bool {
        self.same_placement(other)
    }
}

impl Eq for Board {

}

impl core::str::FromStr for Board {
    type Err = crate::fen::ParseFenError;

    /// Reads a position in Forsyth-Edwards notation, as `Board::from_str` does.
    fn from_str(fen: &str) -> (r: Result<Self, Self::Err>)
        ensures
            match r {
                Ok(board) => crate::fen::parse_fen(fen@) matches Ok(record) && board@
                    == crate::fen::position_of(record) && board.wf(),
                Err(e) => crate::fen::parse_fen(fen@) == Err::<
                    crate::fen::FenRecord,
                    crate::fen::ParseFenError,
                >(e),
            },
    {
        Board::from_str(fen)
    }
}

impl Board {
    /// Whether a move leaves the mover's king out of check, found by making the move,
    /// looking for men that attack the king, and taking the move back. The board is the same
    /// afterwards as before.
    #[verifier::rlimit(60)]
    pub fn leaves_king_safe(&mut self, mov: Move) -> (r: bool)
        requires
            old(self).wf(),
            old(self)@.accepts(mov),
        ensures
            r == crate::rules::safe_after(old(self)@, mov),
            final(self).wf(),
            final(self).same_as(old(self)),
    {
        let ghost before = self@;
        let mover = self.side_to_move;
        proof {
            lemma_apply_keeps_wf(before, mov);
            crate::laws::lemma_apply_then_undo(before, mov);
        }
        self.apply_move(mov);
        let ghost men = self.men();
        let kings = BitBoard(self.pieces[5].0 & self.occupancies(mover).0);
        proof {
            let w = choose|w: int| #[trigger]
                crate::position::king_at(men, mover, w) && forall|j: int| #[trigger]
                    crate::position::king_at(men, mover, j) ==> j == w;
            lemma_class_members(self.pieces, self.occupancies, self.combined, mover, Piece::King, w);
            crate::bitboard::lemma_member_zero(w);
        }
        let king = kings.bit_scan();
        proof {
            lemma_class_members(
                self.pieces,
                self.occupancies,
                self.combined,
                mover,
                Piece::King,
                king.index(),
            );
            crate::movgen::lemma_king_square(men, mover, king.index());
            crate::movgen::lemma_combined_is_occupied(self.pieces, self.occupancies, self.combined);
        }
        let attackers = crate::movgen::attackers_to(self, king, self.combined, mover.opposite());
        proof {
            assert forall|s: int|
                crate::position::is_checker(men, mover, s) == crate::movgen::attacker_on(
                    men,
                    self.combined.0,
                    mover.flip(),
                    king.index(),
                    s,
                ) by {
                crate::movgen::exact::lemma_checker_hits(men, mover, s);
            }
            if crate::rules::in_check(men, mover) {
                let s = choose|s: int| crate::position::is_checker(men, mover, s);
                assert(crate::movgen::attacker_on(
                    men,
                    self.combined.0,
                    mover.flip(),
                    king.index(),
                    s,
                ));
            }
            if attackers.0 != 0 {
                let s = choose|s: int|
                    crate::movgen::attacker_on(men, self.combined.0, mover.flip(), king.index(), s);
                assert(crate::position::is_checker(men, mover, s));
            }
        }
        self.undo_move();
        proof {
            crate::laws::lemma_same_position_same_board(self, old(self));
        }
        attackers.0 == 0
    }
}

/// Key of the file of a square when it is the en-passant target.
pub open spec fn en_passant_key_of(target: Square) -> u64 {
    crate::zobrist::en_passant_key(target.file_index())
}

/// The hash of no men is 0.
pub proof fn lemma_men_hash_none(n: int)
    requires
        0 <= n <= 64,
    ensures
        men_hash(Seq::new(64, |i: int| None), n) == 0,
    decreases n,
{
    if n > 0 {
        lemma_men_hash_none(n - 1);
        lemma_xor_laws(0, 0, 0);
    }
}

} // verus!
