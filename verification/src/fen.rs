use vstd::prelude::*;
use vstd::string::StrSliceExecFns;
use crate::bitboard::{group_member, lemma_file_masks, member, only_member, BitBoard, EDGE_RANKS};
use crate::board::{lemma_class_members, Board, PartialBoard};
use crate::movgen::calculate_pinned_checkers;
use crate::castling_rights::{
    CastlingRights, BLACK_KING_SIDE, BLACK_QUEEN_SIDE, WHITE_KING_SIDE, WHITE_QUEEN_SIDE,
};
use crate::color::Color;
use crate::piece::Piece;
use crate::position::{
    at_most_one_king, checkers_of, king_at, one_king, pinned_of, position_hash, target_fits,
    BoardState, Position,
};
use crate::square::Square;

verus! {

/// Why a text is not accepted as a position in Forsyth-Edwards notation.
#[derive(Debug, Copy, Clone, PartialEq, Eq)]
pub enum ParseFenError {
    /// The text does not have six fields; the payload is the number it has, 255 at most.
    PartMissing(u8),
    /// The placement has fewer than eight ranks, or the men do not make a position.
    BadPlacement,
    NoSuchSide,
    BadCastlingRights,
    BadEnPassant,
    BadHalfMoveClock,
    BadFullMoveNumber,
    /// A rank of the placement runs past the h-file.
    TooManyFiles,
    /// The placement has more than eight ranks.
    TooManyRanks,
    /// The placement holds a character that is neither a digit nor the letter of a man.
    InvalidPiece(char),
}

/// The fields of `s` from position `j` on, where the field that `j` is in starts at `start`:
/// a field ends before each separator and at the end of the text.
pub open spec fn fields_from(s: Seq<char>, sep: char, start: int, j: int) -> Seq<Seq<char>>
    decreases s.len() - j,
{
    if j >= s.len() {
        seq![s.subrange(start, s.len() as int)]
    } else if s[j] == sep {
        seq![s.subrange(start, j)] + fields_from(s, sep, j + 1, j + 1)
    } else {
        fields_from(s, sep, start, j + 1)
    }
}

/// The fields of a text: what stands between its separators. A text without a separator is
/// one field, and an empty text is one empty field.
pub open spec fn split(s: Seq<char>, sep: char) -> Seq<Seq<char>> {
    fields_from(s, sep, 0, 0)
}

/// The characters of a text.
pub fn to_chars(text: &str) -> (r: Vec<char>)
    ensures
        r@ == text@,
{
    let n: usize = text.unicode_len();
    let mut out: Vec<char> = Vec::new();
    let mut i: usize = 0;
    while i < n
        invariant
            0 <= i <= n,
            n == text@.len(),
            out@ == text@.subrange(0, i as int),
        decreases n - i,
    {
        let c = text.get_char(i);
        out.push(c);
        i = i + 1;
        assert(out@ =~= text@.subrange(0, i as int));
    }
    assert(out@ =~= text@);
    out
}

/// Where the fields of the part of `chars` between `from` and `to` begin and end.
pub fn split_bounds(chars: &Vec<char>, from: usize, to: usize, sep: char) -> (r: Vec<
    (usize, usize),
>)
    requires
        from <= to <= chars@.len(),
    ensures
        r@.len() == split(chars@.subrange(from as int, to as int), sep).len(),
        r@.len() >= 1,
        forall|k: int|
            0 <= k < r@.len() ==> from <= (#[trigger] r@[k]).0 <= r@[k].1 <= to
                && chars@.subrange(r@[k].0 as int, r@[k].1 as int) == split(
                chars@.subrange(from as int, to as int),
                sep,
            )[k],
{
    let ghost s = chars@.subrange(from as int, to as int);
    let mut out: Vec<(usize, usize)> = Vec::new();
    let mut start: usize = from;
    let mut j: usize = from;
    let ghost mut done: Seq<Seq<char>> = Seq::empty();
    assert(done + fields_from(s, sep, 0, 0) =~= split(s, sep));
    while j < to
        invariant
            from <= start <= j <= to <= chars@.len(),
            s == chars@.subrange(from as int, to as int),
            done.len() == out@.len(),
            split(s, sep) == done + fields_from(s, sep, start - from, j - from),
            forall|k: int|
                0 <= k < out@.len() ==> from <= (#[trigger] out@[k]).0 <= out@[k].1 <= to
                    && chars@.subrange(out@[k].0 as int, out@[k].1 as int) == done[k],
        decreases to - j,
    {
        if chars[j] == sep {
            let ghost field = s.subrange(start - from, j - from);
            proof {
                assert(s[j - from] == chars@[j as int]);
                assert(chars@.subrange(start as int, j as int) =~= field);
                assert(done + (seq![field] + fields_from(s, sep, j - from + 1, j - from + 1))
                    =~= done.push(field) + fields_from(s, sep, j - from + 1, j - from + 1));
                done = done.push(field);
            }
            out.push((start, j));
            start = j + 1;
        } else {
            proof {
                assert(s[j - from] == chars@[j as int]);
            }
        }
        j = j + 1;
    }
    proof {
        let field = s.subrange(start - from, s.len() as int);
        assert(chars@.subrange(start as int, to as int) =~= field);
        assert(done + seq![field] =~= done.push(field));
        done = done.push(field);
    }
    out.push((start, to));
    out
}

/// The man that a letter of the placement stands for: upper case for White, lower case for
/// Black.
pub open spec fn man_of(c: char) -> Option<(Color, Piece)> {
    if c == 'P' {
        Some((Color::White, Piece::Pawn))
    } else if c == 'N' {
        Some((Color::White, Piece::Knight))
    } else if c == 'B' {
        Some((Color::White, Piece::Bishop))
    } else if c == 'R' {
        Some((Color::White, Piece::Rook))
    } else if c == 'Q' {
        Some((Color::White, Piece::Queen))
    } else if c == 'K' {
        Some((Color::White, Piece::King))
    } else if c == 'p' {
        Some((Color::Black, Piece::Pawn))
    } else if c == 'n' {
        Some((Color::Black, Piece::Knight))
    } else if c == 'b' {
        Some((Color::Black, Piece::Bishop))
    } else if c == 'r' {
        Some((Color::Black, Piece::Rook))
    } else if c == 'q' {
        Some((Color::Black, Piece::Queen))
    } else if c == 'k' {
        Some((Color::Black, Piece::King))
    } else {
        None
    }
}

/// The value of a decimal digit.
pub open spec fn digit_of(c: char) -> Option<int> {
    if 48 <= c as u32 <= 57 {
        Some(c as u32 - 48)
    } else {
        None
    }
}

/// The empty board.
pub open spec fn no_men() -> Seq<Option<(Color, Piece)>> {
    Seq::new(64, |i: int| None)
}

/// What one character of a rank does: a digit skips that many files, a letter puts its man
/// on the next file. A rank that runs past the h-file, and a character that is neither, are
/// errors.
pub open spec fn scan_char(
    c: char,
    rank: int,
    file: int,
    men: Seq<Option<(Color, Piece)>>,
) -> Result<(int, Seq<Option<(Color, Piece)>>), ParseFenError> {
    match digit_of(c) {
        Some(d) => if file + d > 8 {
            Err(ParseFenError::TooManyFiles)
        } else {
            Ok((file + d, men))
        },
        None => match man_of(c) {
            None => Err(ParseFenError::InvalidPiece(c)),
            Some(man) => if file >= 8 {
                Err(ParseFenError::TooManyFiles)
            } else {
                Ok((file + 1, men.update(8 * rank + file, Some(man))))
            },
        },
    }
}

/// The file reached and the men placed after the first `n` characters of a rank, or the
/// first error among them.
pub open spec fn scan_row(row: Seq<char>, rank: int, n: int, men: Seq<Option<(Color, Piece)>>)
    -> Result<(int, Seq<Option<(Color, Piece)>>), ParseFenError>
    decreases n,
{
    if n <= 0 {
        Ok((0, men))
    } else {
        match scan_row(row, rank, n - 1, men) {
            Err(e) => Err(e),
            Ok((file, so_far)) => scan_char(row[n - 1], rank, file, so_far),
        }
    }
}

/// The men placed by the `n` lowest ranks, or the first error in them, the first rank first.
/// The ranks stand in `rows` from the eighth down to the first.
pub open spec fn scan_rows(rows: Seq<Seq<char>>, n: int) -> Result<
    Seq<Option<(Color, Piece)>>,
    ParseFenError,
>
    decreases n,
{
    if n <= 0 {
        Ok(no_men())
    } else {
        match scan_rows(rows, n - 1) {
            Err(e) => Err(e),
            Ok(men) => match scan_row(rows[8 - n], n - 1, rows[8 - n].len() as int, men) {
                Err(e) => Err(e),
                Ok((_, placed)) => Ok(placed),
            },
        }
    }
}

/// The side that the second field names.
pub open spec fn side_of(field: Seq<char>) -> Option<Color> {
    if field =~= seq!['w'] {
        Some(Color::White)
    } else if field =~= seq!['b'] {
        Some(Color::Black)
    } else {
        None
    }
}

/// The right that a letter of the third field stands for.
pub open spec fn right_of(c: char) -> Option<u8> {
    if c == 'K' {
        Some(WHITE_KING_SIDE)
    } else if c == 'Q' {
        Some(WHITE_QUEEN_SIDE)
    } else if c == 'k' {
        Some(BLACK_KING_SIDE)
    } else if c == 'q' {
        Some(BLACK_QUEEN_SIDE)
    } else {
        None
    }
}

/// The rights that the first `n` letters of a field name, if all of them name one.
pub open spec fn rights_in(field: Seq<char>, n: int) -> Option<u8>
    decreases n,
{
    if n <= 0 {
        Some(0u8)
    } else {
        match (rights_in(field, n - 1), right_of(field[n - 1])) {
            (Some(rights), Some(right)) => Some(rights | right),
            _ => None,
        }
    }
}

/// The castling rights that the third field names: none for `-`, else those of its letters.
pub open spec fn rights_of(field: Seq<char>) -> Option<u8> {
    if field =~= seq!['-'] {
        Some(0u8)
    } else if field.len() == 0 {
        None
    } else {
        rights_in(field, field.len() as int)
    }
}

/// The en-passant target that the fourth field names: none for `-`, else a square from a3
/// to h6, written as the letter of its file and the digit of its rank.
pub open spec fn target_of(field: Seq<char>) -> Option<Option<Square>> {
    if field =~= seq!['-'] {
        Some(None)
    } else if field.len() == 2 && 97 <= field[0] as u32 <= 104 && 51 <= field[1] as u32 <= 54 {
        Some(Some(Square::at_rank(field[1] as u32 - 49, field[0] as u32 - 97)))
    } else {
        None
    }
}

/// The number that the first `n` characters of a field write, if all of them are digits.
pub open spec fn digits_value(field: Seq<char>, n: int) -> Option<int>
    decreases n,
{
    if n <= 0 {
        Some(0int)
    } else {
        match (digits_value(field, n - 1), digit_of(field[n - 1])) {
            (Some(value), Some(d)) => Some(10 * value + d),
            _ => None,
        }
    }
}

/// The number that a field writes in decimal digits, if it is not above `limit`.
pub open spec fn number_of(field: Seq<char>, limit: int) -> Option<int> {
    if field.len() == 0 {
        None
    } else {
        match digits_value(field, field.len() as int) {
            Some(value) => if value <= limit {
                Some(value)
            } else {
                None
            },
            None => None,
        }
    }
}

/// Whether men can be a position with `side` to move: one king of that side, at most one of
/// the other, and no pawn on the first or last rank.
pub open spec fn placement_sound(men: Seq<Option<(Color, Piece)>>, side: Color) -> bool {
    &&& one_king(men, side)
    &&& at_most_one_king(men, side.flip())
    &&& pawns_calm(men)
}

/// What the six fields of a text say.
pub struct FenRecord {
    pub men: Seq<Option<(Color, Piece)>>,
    pub side: Color,
    pub rights: u8,
    pub target: Option<Square>,
    pub halfmove: u8,
    pub fullmove: u16,
}

/// What the five fields after the placement say.
#[derive(Debug, Copy, Clone)]
pub struct FenSettings {
    pub side: Color,
    pub rights: CastlingRights,
    pub target: Option<Square>,
    pub halfmove: u8,
    pub fullmove: u16,
}

/// The largest full-move number whose plies still fit the ply counter.
pub const MAX_FULL_MOVE: u16 = 32768;

/// The men that the placement field puts on the board, or why the field is rejected: it
/// has to have eight ranks, and they are read from the first rank up.
pub open spec fn placement_of(field: Seq<char>) -> Result<
    Seq<Option<(Color, Piece)>>,
    ParseFenError,
> {
    let rows = split(field, '/');
    if rows.len() < 8 {
        Err(ParseFenError::BadPlacement)
    } else if rows.len() > 8 {
        Err(ParseFenError::TooManyRanks)
    } else {
        scan_rows(rows, 8)
    }
}

/// What the fields after the placement say, or the first of them that is rejected.
pub open spec fn settings_of(parts: Seq<Seq<char>>) -> Result<FenSettings, ParseFenError> {
    match side_of(parts[1]) {
        None => Err(ParseFenError::NoSuchSide),
        Some(side) => match rights_of(parts[2]) {
            None => Err(ParseFenError::BadCastlingRights),
            Some(rights) => match target_of(parts[3]) {
                None => Err(ParseFenError::BadEnPassant),
                Some(target) => match number_of(parts[4], 255) {
                    None => Err(ParseFenError::BadHalfMoveClock),
                    Some(halfmove) => match number_of(parts[5], MAX_FULL_MOVE as int) {
                        None => Err(ParseFenError::BadFullMoveNumber),
                        Some(fullmove) => if fullmove < 1 {
                            Err(ParseFenError::BadFullMoveNumber)
                        } else {
                            Ok(
                                FenSettings {
                                    side,
                                    rights: CastlingRights(rights),
                                    target,
                                    halfmove: halfmove as u8,
                                    fullmove: fullmove as u16,
                                },
                            )
                        },
                    },
                },
            },
        },
    }
}

/// What a text in Forsyth-Edwards notation says, or why it is rejected. The fields are
/// looked at in their order; whether the men make a position, and whether the en-passant
/// target stands behind a pawn, is asked last.
pub open spec fn parse_fen(text: Seq<char>) -> Result<FenRecord, ParseFenError> {
    let parts = split(text, ' ');
    if parts.len() != 6 {
        Err(
            ParseFenError::PartMissing(
                if parts.len() < 255 {
                    parts.len() as u8
                } else {
                    255u8
                },
            ),
        )
    } else {
        match placement_of(parts[0]) {
            Err(e) => Err(e),
            Ok(men) => match settings_of(parts) {
                Err(e) => Err(e),
                Ok(settings) => if !placement_sound(men, settings.side) {
                    Err(ParseFenError::BadPlacement)
                } else if !target_fits(men, settings.side, settings.target) {
                    Err(ParseFenError::BadEnPassant)
                } else {
                    Ok(
                        FenRecord {
                            men,
                            side: settings.side,
                            rights: settings.rights.0,
                            target: settings.target,
                            halfmove: settings.halfmove,
                            fullmove: settings.fullmove,
                        },
                    )
                },
            },
        }
    }
}

/// The position that a record describes: no move has been made in it, and hash, checkers
/// and pinned men are what the placement gives.
pub open spec fn position_of(record: FenRecord) -> Position {
    Position {
        men: record.men,
        side_to_move: record.side,
        state: BoardState {
            hash: position_hash(
                record.men,
                record.side,
                CastlingRights(record.rights),
                record.target,
            ),
            en_passant_target: record.target,
            castling_rights: CastlingRights(record.rights),
            rule50: record.halfmove,
            ply: 0,
            checkers: BitBoard(checkers_of(record.men, record.side)),
            pinned: BitBoard(pinned_of(record.men, record.side)),
            last_move: None,
            captured_piece: None,
        },
        history: Seq::empty(),
        game_ply: (2 * (record.fullmove - 1) + record.side.index()) as u16,
    }
}

/// Reads the field that names the side to move.
pub fn read_side(chars: &Vec<char>, from: usize, to: usize) -> (r: Option<Color>)
    requires
        from <= to <= chars@.len(),
    ensures
        r == side_of(chars@.subrange(from as int, to as int)),
{
    let ghost field = chars@.subrange(from as int, to as int);
    if to - from != 1 {
        return None;
    }
    assert(field[0] == chars@[from as int]);
    if chars[from] == 'w' {
        assert(field =~= seq!['w']);
        Some(Color::White)
    } else if chars[from] == 'b' {
        assert(field =~= seq!['b']);
        Some(Color::Black)
    } else {
        None
    }
}

/// A right added to a 4-bit mask leaves a 4-bit mask.
proof fn lemma_add_right(rights: u8, right: u8)
    requires
        rights < 16,
        right == 1 || right == 2 || right == 4 || right == 8,
    ensures
        (rights | right) < 16,
{
    assert(rights < 16 && (right == 1 || right == 2 || right == 4 || right == 8) ==> (rights
        | right) < 16) by (bit_vector);
}

/// Reads the field that names the castling rights.
pub fn read_rights(chars: &Vec<char>, from: usize, to: usize) -> (r: Option<CastlingRights>)
    requires
        from <= to <= chars@.len(),
    ensures
        match r {
            Some(rights) => rights_of(chars@.subrange(from as int, to as int)) == Some(rights.0)
                && rights.wf(),
            None => rights_of(chars@.subrange(from as int, to as int)).is_none(),
        },
{
    let ghost field = chars@.subrange(from as int, to as int);
    if to == from {
        return None;
    }
    assert(field[0] == chars@[from as int]);
    if to - from == 1 && chars[from] == '-' {
        assert(field =~= seq!['-']);
        return Some(CastlingRights(0));
    }
    let mut rights: u8 = 0;
    let mut i: usize = from;
    while i < to
        invariant
            from <= i <= to <= chars@.len(),
            field == chars@.subrange(from as int, to as int),
            rights_in(field, i - from) == Some(rights),
            rights < 16,
            to - from > 1 || chars@[from as int] != '-',
        decreases to - i,
    {
        let c = chars[i];
        assert(field[i - from] == c);
        let right: u8 = if c == 'K' {
            WHITE_KING_SIDE
        } else if c == 'Q' {
            WHITE_QUEEN_SIDE
        } else if c == 'k' {
            BLACK_KING_SIDE
        } else if c == 'q' {
            BLACK_QUEEN_SIDE
        } else {
            proof {
                assert(right_of(c).is_none());
                assert(rights_in(field, i - from + 1).is_none());
                lemma_rights_stay_none(field, i - from + 1, field.len() as int);
                assert(!(field =~= seq!['-'])) by {
                    if field.len() == 1 {
                        assert(field[0] != '-');
                    }
                }
            }
            return None;
        };
        proof {
            lemma_add_right(rights, right);
        }
        rights = rights | right;
        i = i + 1;
    }
    proof {
        assert(!(field =~= seq!['-'])) by {
            if field.len() == 1 {
                assert(field[0] != '-');
            }
        }
    }
    Some(CastlingRights(rights))
}

/// Once a letter names no right, no longer part of the field names rights.
proof fn lemma_rights_stay_none(field: Seq<char>, n: int, m: int)
    requires
        0 <= n <= m,
        rights_in(field, n).is_none(),
    ensures
        rights_in(field, m).is_none(),
    decreases m - n,
{
    if n < m {
        lemma_rights_stay_none(field, n, m - 1);
    }
}

/// Reads the field that names the en-passant target.
pub fn read_target(chars: &Vec<char>, from: usize, to: usize) -> (r: Option<Option<Square>>)
    requires
        from <= to <= chars@.len(),
    ensures
        r == target_of(chars@.subrange(from as int, to as int)),
{
    let ghost field = chars@.subrange(from as int, to as int);
    if to - from == 1 {
        assert(field[0] == chars@[from as int]);
        if chars[from] == '-' {
            assert(field =~= seq!['-']);
            return Some(None);
        }
        return None;
    }
    if to - from != 2 {
        return None;
    }
    assert(field[0] == chars@[from as int]);
    assert(field[1] == chars@[from as int + 1]);
    let file: u32 = chars[from] as u32;
    let rank: u32 = chars[from + 1] as u32;
    if 97 <= file && file <= 104 && 51 <= rank && rank <= 54 {
        Some(Some(Square::from((rank - 49) as u8, (file - 97) as u8)))
    } else {
        None
    }
}

/// A number only grows with further digits, and stays no number once a character is no
/// digit.
proof fn lemma_digits_grow(field: Seq<char>, n: int, m: int)
    requires
        0 <= n <= m,
    ensures
        digits_value(field, n).is_none() ==> digits_value(field, m).is_none(),
        digits_value(field, n).is_some() ==> digits_value(field, n).unwrap() >= 0,
        digits_value(field, n).is_some() && digits_value(field, m).is_some() ==> digits_value(
            field,
            m,
        ).unwrap() >= digits_value(field, n).unwrap(),
    decreases m,
{
    if n < m {
        lemma_digits_grow(field, n, m - 1);
    } else if n > 0 {
        lemma_digits_grow(field, n - 1, n - 1);
    }
}

/// Reads a field that holds a number in decimal digits, up to `limit`.
pub fn read_number(chars: &Vec<char>, from: usize, to: usize, limit: u32) -> (r: Option<u32>)
    requires
        from <= to <= chars@.len(),
        limit <= 100_000,
    ensures
        match r {
            Some(value) => number_of(chars@.subrange(from as int, to as int), limit as int)
                == Some(value as int),
            None => number_of(chars@.subrange(from as int, to as int), limit as int).is_none(),
        },
{
    let ghost field = chars@.subrange(from as int, to as int);
    if to == from {
        return None;
    }
    let mut value: u32 = 0;
    let mut i: usize = from;
    while i < to
        invariant
            from <= i <= to <= chars@.len(),
            field == chars@.subrange(from as int, to as int),
            digits_value(field, i - from) == Some(value as int),
            value <= limit <= 100_000,
        decreases to - i,
    {
        let c: u32 = chars[i] as u32;
        assert(field[i - from] == chars@[i as int]);
        if !(48 <= c && c <= 57) {
            proof {
                lemma_digits_grow(field, i - from + 1, field.len() as int);
            }
            return None;
        }
        let next: u32 = 10 * value + (c - 48);
        if next > limit {
            proof {
                lemma_digits_grow(field, i - from + 1, field.len() as int);
            }
            return None;
        }
        value = next;
        i = i + 1;
    }
    Some(value)
}

/// The man that a letter of the placement stands for.
pub fn read_man(c: char) -> (r: Option<(Color, Piece)>)
    ensures
        r == man_of(c),
{
    if c == 'P' {
        Some((Color::White, Piece::Pawn))
    } else if c == 'N' {
        Some((Color::White, Piece::Knight))
    } else if c == 'B' {
        Some((Color::White, Piece::Bishop))
    } else if c == 'R' {
        Some((Color::White, Piece::Rook))
    } else if c == 'Q' {
        Some((Color::White, Piece::Queen))
    } else if c == 'K' {
        Some((Color::White, Piece::King))
    } else if c == 'p' {
        Some((Color::Black, Piece::Pawn))
    } else if c == 'n' {
        Some((Color::Black, Piece::Knight))
    } else if c == 'b' {
        Some((Color::Black, Piece::Bishop))
    } else if c == 'r' {
        Some((Color::Black, Piece::Rook))
    } else if c == 'q' {
        Some((Color::Black, Piece::Queen))
    } else if c == 'k' {
        Some((Color::Black, Piece::King))
    } else {
        None
    }
}

/// The parts of `chars` that the bounds mark.
pub open spec fn parts_of(chars: Seq<char>, bounds: Seq<(usize, usize)>) -> Seq<Seq<char>> {
    Seq::new(bounds.len(), |k: int| chars.subrange(bounds[k].0 as int, bounds[k].1 as int))
}

/// An error in a rank stays the result however far the rank goes on.
proof fn lemma_row_error_stays(
    row: Seq<char>,
    rank: int,
    n: int,
    m: int,
    men: Seq<Option<(Color, Piece)>>,
)
    requires
        0 <= n <= m,
        scan_row(row, rank, n, men).is_err(),
    ensures
        scan_row(row, rank, m, men) == scan_row(row, rank, n, men),
    decreases m - n,
{
    if n < m {
        lemma_row_error_stays(row, rank, n, m - 1, men);
    }
}

/// An error in a rank stays the result however many ranks follow.
proof fn lemma_rows_error_stays(rows: Seq<Seq<char>>, n: int, m: int)
    requires
        0 <= n <= m,
        scan_rows(rows, n).is_err(),
    ensures
        scan_rows(rows, m) == scan_rows(rows, n),
    decreases m - n,
{
    if n < m {
        lemma_rows_error_stays(rows, n, m - 1);
    }
}

/// Reads one rank of the placement and puts its men on the board.
#[verifier::rlimit(60)]
fn read_row(chars: &Vec<char>, from: usize, to: usize, rank: u8, board: &mut Board) -> (r: Result<
    (),
    ParseFenError,
>)
    requires
        from <= to <= chars@.len(),
        rank < 8,
        old(board).squares_ok(),
        forall|i: int| 8 * rank <= i < 64 ==> old(board).men()[i].is_none(),
    ensures
        match r {
            Ok(()) => scan_row(
                chars@.subrange(from as int, to as int),
                rank as int,
                to - from,
                old(board).men(),
            ) matches Ok((_, men)) && men == final(board).men() && final(board).squares_ok()
                && forall|i: int| 8 * rank + 8 <= i < 64 ==> final(board).men()[i].is_none(),
            Err(e) => scan_row(
                chars@.subrange(from as int, to as int),
                rank as int,
                to - from,
                old(board).men(),
            ) == Err::<(int, Seq<Option<(Color, Piece)>>), ParseFenError>(e),
        },
        final(board).history == old(board).history,
{
    let ghost row = chars@.subrange(from as int, to as int);
    let ghost men0 = board.men();
    let mut file: u8 = 0;
    let mut j: usize = from;
    while j < to
        invariant
            from <= j <= to <= chars@.len(),
            rank < 8,
            0 <= file <= 8,
            row == chars@.subrange(from as int, to as int),
            men0 == old(board).men(),
            board.squares_ok(),
            board.history == old(board).history,
            scan_row(row, rank as int, j - from, men0) == Ok::<
                (int, Seq<Option<(Color, Piece)>>),
                ParseFenError,
            >((file as int, board.men())),
            forall|i: int| 8 * rank + file <= i < 64 ==> board.men()[i].is_none(),
        decreases to - j,
    {
        let c = chars[j];
        let code: u32 = c as u32;
        assert(row[j - from] == c);
        let ghost so_far = board.men();
        if 48 <= code && code <= 57 {
            // blanks
            let d: u8 = (code - 48) as u8;
            if file + d > 8 {
                proof {
                    assert(digit_of(c) == Some(d as int));
                    assert(scan_row(row, rank as int, j - from + 1, men0) == scan_char(
                        c,
                        rank as int,
                        file as int,
                        so_far,
                    ));
                    assert(scan_row(row, rank as int, j - from + 1, men0).is_err());
                    lemma_row_error_stays(row, rank as int, j - from + 1, to - from, men0);
                }
                return Err(ParseFenError::TooManyFiles);
            }
            file = file + d;
        } else {
            // piece
            match read_man(c) {
                None => {
                    proof {
                        assert(digit_of(c).is_none());
                        assert(scan_row(row, rank as int, j - from + 1, men0) == scan_char(
                            c,
                            rank as int,
                            file as int,
                            so_far,
                        ));
                        assert(scan_row(row, rank as int, j - from + 1, men0).is_err());
                        lemma_row_error_stays(row, rank as int, j - from + 1, to - from, men0);
                    }
                    return Err(ParseFenError::InvalidPiece(c));
                },
                Some((color, piece)) => {
                    if file >= 8 {
                        proof {
                            assert(digit_of(c).is_none());
                            assert(scan_row(row, rank as int, j - from + 1, men0) == scan_char(
                                c,
                                rank as int,
                                file as int,
                                so_far,
                            ));
                            assert(scan_row(row, rank as int, j - from + 1, men0).is_err());
                            lemma_row_error_stays(row, rank as int, j - from + 1, to - from, men0);
                        }
                        return Err(ParseFenError::TooManyFiles);
                    }
                    let square = Square::from(rank, file);
                    assert(board.men()[square.index()] == board.content(square.index()));
                    // place piece
                    board.place(color, piece, square);
                    file = file + 1;
                },
            }
        }
        j = j + 1;
    }
    Ok(())
}

/// Reads the eight ranks of the placement, the first rank first, onto an empty board.
#[verifier::rlimit(60)]
pub fn read_rows(chars: &Vec<char>, rows: &Vec<(usize, usize)>, board: &mut Board) -> (r: Result<
    (),
    ParseFenError,
>)
    requires
        rows@.len() == 8,
        forall|k: int| 0 <= k < 8 ==> (#[trigger] rows@[k]).0 <= rows@[k].1 <= chars@.len(),
        old(board).squares_ok(),
        old(board).men() == no_men(),
    ensures
        match r {
            Ok(()) => scan_rows(parts_of(chars@, rows@), 8) == Ok::<
                Seq<Option<(Color, Piece)>>,
                ParseFenError,
            >(final(board).men()) && final(board).squares_ok(),
            Err(e) => scan_rows(parts_of(chars@, rows@), 8) == Err::<
                Seq<Option<(Color, Piece)>>,
                ParseFenError,
            >(e),
        },
        final(board).history == old(board).history,
{
    let ghost lines = parts_of(chars@, rows@);
    let mut n: u8 = 0;
    while n < 8
        invariant
            0 <= n <= 8,
            rows@.len() == 8,
            forall|k: int| 0 <= k < 8 ==> (#[trigger] rows@[k]).0 <= rows@[k].1 <= chars@.len(),
            lines == parts_of(chars@, rows@),
            board.squares_ok(),
            board.history == old(board).history,
            scan_rows(lines, n as int) == Ok::<Seq<Option<(Color, Piece)>>, ParseFenError>(
                board.men(),
            ),
            forall|i: int| 8 * n <= i < 64 ==> board.men()[i].is_none(),
        decreases 8 - n,
    {
        // the ranks stand from the eighth down, so the first rank is the last of them
        let (from, to) = rows[7 - n as usize];
        assert(lines[7 - n] == chars@.subrange(from as int, to as int));
        match read_row(chars, from, to, n, board) {
            Err(e) => {
                proof {
                    assert(scan_rows(lines, n + 1).is_err());
                    lemma_rows_error_stays(lines, n + 1, 8);
                }
                return Err(e);
            },
            Ok(()) => {},
        }
        n = n + 1;
    }
    Ok(())
}

/// Whether no pawn stands on the first or the last rank.
pub open spec fn pawns_calm(men: Seq<Option<(Color, Piece)>>) -> bool {
    forall|i: int|
        0 <= i < 64 && (#[trigger] men[i] matches Some((_, piece)) && piece == Piece::Pawn) ==> 8
            <= i < 56
}

/// The kings of a color stand on the squares that are both a king's and of that color.
proof fn lemma_kings_members(board: &Board, color: Color)
    requires
        board.squares_ok(),
    ensures
        forall|i: int|
            member(board.pieces[5].0 & board.occupancies[color.index()].0, i) == king_at(
                board.men(),
                color,
                i,
            ),
{
    assert forall|i: int|
        member(board.pieces[5].0 & board.occupancies[color.index()].0, i) == king_at(
            board.men(),
            color,
            i,
        ) by {
        if 0 <= i < 64 {
            lemma_class_members(
                board.pieces,
                board.occupancies,
                board.combined,
                color,
                Piece::King,
                i,
            );
        } else {
            broadcast use group_member;

        }
    }
}

/// A side has one king exactly if the set of its kings has one member.
proof fn lemma_single_is_one_king(men: Seq<Option<(Color, Piece)>>, color: Color, kings: u64)
    requires
        forall|i: int| member(kings, i) == king_at(men, color, i),
    ensures
        one_king(men, color) == (exists|k: int| only_member(kings, k)),
{
    if one_king(men, color) {
        let k = choose|k: int| #[trigger]
            king_at(men, color, k) && forall|j: int| #[trigger] king_at(men, color, j) ==> j == k;
        assert forall|i: int| member(kings, i) == (i == k) by {
            if member(kings, i) {
                assert(king_at(men, color, i));
            }
        }
        assert(only_member(kings, k));
    }
    if exists|k: int| only_member(kings, k) {
        let k = choose|k: int| only_member(kings, k);
        assert(member(kings, k));
        assert(king_at(men, color, k));
        assert forall|j: int| #[trigger] king_at(men, color, j) implies j == k by {
            assert(member(kings, j));
        }
    }
}

/// No pawn stands on the first or the last rank exactly if the pawns share no square with
/// those ranks.
proof fn lemma_calm_pawns(board: &Board)
    requires
        board.squares_ok(),
    ensures
        pawns_calm(board.men()) == (board.pieces[0].0 & EDGE_RANKS == 0),
{
    let men = board.men();
    let edge_pawns = board.pieces[0].0 & EDGE_RANKS;
    assert forall|i: int| 0 <= i < 64 implies member(edge_pawns, i) == ((men[i] matches Some(
        (_, piece),
    ) && piece == Piece::Pawn) && !(8 <= i < 56)) by {
        broadcast use group_member;

        lemma_file_masks(i);
        lemma_class_members(
            board.pieces,
            board.occupancies,
            board.combined,
            Color::White,
            Piece::Pawn,
            i,
        );
        lemma_class_members(
            board.pieces,
            board.occupancies,
            board.combined,
            Color::Black,
            Piece::Pawn,
            i,
        );
    }
    if edge_pawns == 0 {
        assert forall|i: int|
            0 <= i < 64 && (#[trigger] men[i] matches Some((_, piece)) && piece
                == Piece::Pawn) implies 8 <= i < 56 by {
            crate::bitboard::lemma_member_zero(i);
            assert(!member(edge_pawns, i));
        }
    } else {
        crate::bitboard::lemma_lowest(edge_pawns);
        let w = edge_pawns.trailing_zeros() as int;
        assert(member(edge_pawns, w));
        assert(men[w] matches Some((_, piece)) && piece == Piece::Pawn);
    }
}

/// A side has at most one king exactly if the set of its kings is empty or has one member.
proof fn lemma_few_kings(men: Seq<Option<(Color, Piece)>>, color: Color, kings: u64)
    requires
        forall|i: int| member(kings, i) == king_at(men, color, i),
    ensures
        at_most_one_king(men, color) == (kings == 0 || exists|k: int| only_member(kings, k)),
{
    lemma_single_is_one_king(men, color, kings);
    if kings == 0 {
        assert forall|j: int, k: int| #[trigger]
            king_at(men, color, j) && #[trigger] king_at(men, color, k) implies j == k by {
            crate::bitboard::lemma_member_zero(j);
            assert(member(kings, j));
        }
    } else {
        crate::bitboard::lemma_lowest(kings);
        let w = kings.trailing_zeros() as int;
        assert(king_at(men, color, w));
        if at_most_one_king(men, color) {
            assert forall|i: int| member(kings, i) == (i == w) by {
                if member(kings, i) {
                    assert(king_at(men, color, i));
                }
            }
            assert(only_member(kings, w));
        }
        if exists|k: int| only_member(kings, k) {
            crate::laws::lemma_one_is_at_most_one(men, color);
        }
    }
}

/// Whether the men on the board can be a position with `side` to move.
pub fn placement_is_sound(board: &Board, side: Color) -> (r: bool)
    requires
        board.squares_ok(),
    ensures
        r == placement_sound(board.men(), side),
{
    let own_kings = BitBoard(board.pieces[5].0 & board.occupancies(side).0);
    let other_kings = BitBoard(board.pieces[5].0 & board.occupancies(side.opposite()).0);
    let edge_pawns: u64 = board.pieces[0].0 & EDGE_RANKS;
    let one_own = own_kings.is_single();
    let few_others = other_kings.0 == 0 || other_kings.is_single();
    proof {
        lemma_kings_members(board, side);
        lemma_kings_members(board, side.flip());
        lemma_single_is_one_king(board.men(), side, own_kings.0);
        lemma_few_kings(board.men(), side.flip(), other_kings.0);
        lemma_calm_pawns(board);
    }
    one_own && few_others && edge_pawns == 0
}

impl Board {
    /// Makes a board that holds only men into the position that the other fields of a text
    /// describe: hash, checkers and pinned men are worked out from the men.
    pub(crate) fn set_up(
        &mut self,
        side_to_move: Color,
        castling_rights: CastlingRights,
        en_passant_target: Option<Square>,
        halfmove_clock: u8,
        fullmove_number: u16,
    )
        requires
            old(self).squares_ok(),
            old(self).history@.len() == 0,
            castling_rights.wf(),
            1 <= fullmove_number <= MAX_FULL_MOVE,
            placement_sound(old(self).men(), side_to_move),
            target_fits(old(self).men(), side_to_move, en_passant_target),
        ensures
            final(self).wf(),
            final(self)@ == position_of(
                FenRecord {
                    men: old(self).men(),
                    side: side_to_move,
                    rights: castling_rights.0,
                    target: en_passant_target,
                    halfmove: halfmove_clock,
                    fullmove: fullmove_number,
                },
            ),
    {
        let partial_board = PartialBoard {
            pieces: self.pieces,
            occupancies: self.occupancies,
            en_passant_target,
            castling_rights,
            combined: self.combined,
            side_to_move,
        };
        let (pinned, checkers) = calculate_pinned_checkers(&partial_board);
        self.side_to_move = side_to_move;
        self.state = BoardState {
            hash: partial_board.generate_hash_key(),
            en_passant_target,
            castling_rights,
            rule50: halfmove_clock,
            ply: 0,
            checkers,
            pinned,
            last_move: None,
            captured_piece: None,
        };
        self.game_ply = 2 * (fullmove_number - 1) + (side_to_move.to_index() as u16);
        proof {
            assert(self@.history =~= Seq::<BoardState>::empty());
            crate::laws::lemma_sound_start_wf(self@);
        }
    }

    /// Reads a position in Forsyth-Edwards notation: six fields, with one blank between each
    /// two, for the placement, the side to move, the castling rights, the en-passant target,
    /// the half-move clock and the full-move number.
    #[verifier::rlimit(60)]
    pub fn from_str(fen: &str) -> (r: Result<Board, ParseFenError>)
        ensures
            match r {
                Ok(board) => parse_fen(fen@) matches Ok(record) && board@ == position_of(record)
                    && board.wf(),
                Err(e) => parse_fen(fen@) == Err::<FenRecord, ParseFenError>(e),
            },
    {
        let chars = to_chars(fen);
        assert(chars@.subrange(0, chars@.len() as int) =~= chars@);
        let parts = split_bounds(&chars, 0, chars.len(), ' ');
        if parts.len() != 6 {
            let found: u8 = if parts.len() < 255 {
                parts.len() as u8
            } else {
                255
            };
            return Err(ParseFenError::PartMissing(found));
        }
        assert(parts_of(chars@, parts@) =~= split(fen@, ' '));
        let mut board = Board::blank();
        match read_placement(&chars, parts[0].0, parts[0].1, &mut board) {
            Err(e) => {
                return Err(e);
            },
            Ok(()) => {},
        }
        let settings = match read_settings(&chars, &parts) {
            Err(e) => {
                return Err(e);
            },
            Ok(settings) => settings,
        };
        if !placement_is_sound(&board, settings.side) {
            return Err(ParseFenError::BadPlacement);
        }
        if !target_is_fit(&board, settings.side, settings.target) {
            return Err(ParseFenError::BadEnPassant);
        }
        board.set_up(
            settings.side,
            settings.rights,
            settings.target,
            settings.halfmove,
            settings.fullmove,
        );
        Ok(board)
    }
}

/// Reads the placement field onto an empty board.
pub fn read_placement(chars: &Vec<char>, from: usize, to: usize, board: &mut Board) -> (r: Result<
    (),
    ParseFenError,
>)
    requires
        from <= to <= chars@.len(),
        old(board).squares_ok(),
        old(board).men() == no_men(),
    ensures
        match r {
            Ok(()) => placement_of(chars@.subrange(from as int, to as int)) == Ok::<
                Seq<Option<(Color, Piece)>>,
                ParseFenError,
            >(final(board).men()) && final(board).squares_ok(),
            Err(e) => placement_of(chars@.subrange(from as int, to as int)) == Err::<
                Seq<Option<(Color, Piece)>>,
                ParseFenError,
            >(e),
        },
        final(board).history == old(board).history,
{
    let rows = split_bounds(chars, from, to, '/');
    if rows.len() < 8 {
        return Err(ParseFenError::BadPlacement);
    }
    if rows.len() > 8 {
        return Err(ParseFenError::TooManyRanks);
    }
    proof {
        assert(parts_of(chars@, rows@) =~= split(chars@.subrange(from as int, to as int), '/'));
    }
    read_rows(chars, &rows, board)
}

/// Reads the five fields after the placement.
pub fn read_settings(chars: &Vec<char>, parts: &Vec<(usize, usize)>) -> (r: Result<
    FenSettings,
    ParseFenError,
>)
    requires
        parts@.len() == 6,
        forall|k: int| 0 <= k < 6 ==> (#[trigger] parts@[k]).0 <= parts@[k].1 <= chars@.len(),
    ensures
        r == settings_of(parts_of(chars@, parts@)),
        r matches Ok(settings) ==> settings.rights.wf() && 1 <= settings.fullmove
            <= MAX_FULL_MOVE,
{
    let ghost fields = parts_of(chars@, parts@);
    assert(fields[1] == chars@.subrange(parts@[1].0 as int, parts@[1].1 as int));
    assert(fields[2] == chars@.subrange(parts@[2].0 as int, parts@[2].1 as int));
    assert(fields[3] == chars@.subrange(parts@[3].0 as int, parts@[3].1 as int));
    assert(fields[4] == chars@.subrange(parts@[4].0 as int, parts@[4].1 as int));
    assert(fields[5] == chars@.subrange(parts@[5].0 as int, parts@[5].1 as int));
    let side = match read_side(chars, parts[1].0, parts[1].1) {
        None => {
            return Err(ParseFenError::NoSuchSide);
        },
        Some(side) => side,
    };
    let rights = match read_rights(chars, parts[2].0, parts[2].1) {
        None => {
            return Err(ParseFenError::BadCastlingRights);
        },
        Some(rights) => rights,
    };
    let target = match read_target(chars, parts[3].0, parts[3].1) {
        None => {
            return Err(ParseFenError::BadEnPassant);
        },
        Some(target) => target,
    };
    let halfmove = match read_number(chars, parts[4].0, parts[4].1, 255) {
        None => {
            return Err(ParseFenError::BadHalfMoveClock);
        },
        Some(value) => value,
    };
    let fullmove = match read_number(chars, parts[5].0, parts[5].1, 32768) {
        None => {
            return Err(ParseFenError::BadFullMoveNumber);
        },
        Some(value) => value,
    };
    if fullmove < 1 {
        return Err(ParseFenError::BadFullMoveNumber);
    }
    Ok(FenSettings { side, rights, target, halfmove: halfmove as u8, fullmove: fullmove as u16 })
}

/// Whether the en-passant target fits the men on the board with `side` to move.
pub fn target_is_fit(board: &Board, side: Color, target: Option<Square>) -> (r: bool)
    requires
        board.squares_ok(),
    ensures
        r == target_fits(board.men(), side, target),
{
    match target {
        None => true,
        Some(target) => match target.forward(side.opposite()) {
            Some(victim) => {
                proof {
                    assert(board.men()[target.index()] == board.content(target.index()));
                    assert(board.men()[victim.index()] == board.content(victim.index()));
                    lemma_class_members(
                        board.pieces,
                        board.occupancies,
                        board.combined,
                        Color::White,
                        Piece::Pawn,
                        target.index(),
                    );
                    lemma_class_members(
                        board.pieces,
                        board.occupancies,
                        board.combined,
                        Color::White,
                        Piece::Pawn,
                        victim.index(),
                    );
                }
                2 <= target.rank() && target.rank() <= 5 && board.piece_on_square(target).is_none()
                    && board.piece_on_square(victim) == Some(Piece::Pawn)
                    && board.color_on_square(victim) == Some(side.opposite())
            },
            None => false,
        },
    }
}

} // verus!
