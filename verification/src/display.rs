use vstd::prelude::*;
use vstd::string::StrSliceExecFns;
use crate::board::{lemma_class_members, Board};
use crate::castling_rights::{
    CastlingRights, BLACK_KING_SIDE, BLACK_QUEEN_SIDE, WHITE_KING_SIDE, WHITE_QUEEN_SIDE,
};
use crate::chess_move::Move;
use crate::color::Color;
use crate::evaluation::{mate_plies, mate_score, Evaluation};
use crate::piece::Piece;
use crate::square::Square;

verus! {

/// The text made of the given characters.
///
/// Wraps `String::from_iter` of the standard library over the characters of a vector: the
/// string holds those characters in their order.
#[verifier::external_body]
fn collect_text(chars: &Vec<char>) -> (r: String)
    ensures
        r@ == chars@,
{
    chars.iter().collect()
}

/// Adds the characters of a text to the end of `out`.
pub fn push_text(out: &mut Vec<char>, text: &str)
    ensures
        final(out)@ == old(out)@ + text@,
{
    let n: usize = text.unicode_len();
    let mut i: usize = 0;
    while i < n
        invariant
            0 <= i <= n,
            n == text@.len(),
            out@ == old(out)@ + text@.subrange(0, i as int),
        decreases n - i,
    {
        let c = text.get_char(i);
        out.push(c);
        i = i + 1;
        assert(out@ =~= old(out)@ + text@.subrange(0, i as int));
    }
    assert(text@.subrange(0, n as int) =~= text@);
}

/// The character that shows what stands on a square: the letter of the man, or a dot.
pub open spec fn symbol_of(content: Option<(Color, Piece)>) -> char {
    match content {
        Some((color, piece)) => piece.ascii_symbol(color),
        None => '.',
    }
}

/// The letter of a file, `a` to `h`.
pub open spec fn file_letter(file: int) -> char {
    if file == 0 {
        'a'
    } else if file == 1 {
        'b'
    } else if file == 2 {
        'c'
    } else if file == 3 {
        'd'
    } else if file == 4 {
        'e'
    } else if file == 5 {
        'f'
    } else if file == 6 {
        'g'
    } else {
        'h'
    }
}

/// The digit of a rank, `1` to `8`.
pub open spec fn rank_digit(rank: int) -> char {
    if rank == 0 {
        '1'
    } else if rank == 1 {
        '2'
    } else if rank == 2 {
        '3'
    } else if rank == 3 {
        '4'
    } else if rank == 4 {
        '5'
    } else if rank == 5 {
        '6'
    } else if rank == 6 {
        '7'
    } else {
        '8'
    }
}

/// The line of the diagram for a rank: its digit, three blanks, and each square's symbol
/// with a blank after it.
pub open spec fn rank_line(men: Seq<Option<(Color, Piece)>>, rank: int) -> Seq<char> {
    seq![rank_digit(rank), ' ', ' ', ' '] + Seq::new(
        16,
        |j: int|
            if j % 2 == 0 {
                symbol_of(men[8 * rank + j / 2])
            } else {
                ' '
            },
    ) + seq!['\n']
}

/// The lines of the diagram for the ranks below `n`, the highest of them first.
pub open spec fn rank_lines(men: Seq<Option<(Color, Piece)>>, n: int) -> Seq<char>
    decreases n,
{
    if n <= 0 {
        Seq::empty()
    } else {
        rank_line(men, n - 1) + rank_lines(men, n - 1)
    }
}

/// The name of a square in capitals, as in `E4`.
pub open spec fn square_name(sq: Square) -> Seq<char> {
    seq![file_capital(sq.file_index()), rank_digit(sq.rank_index())]
}

/// The capital letter of a file, `A` to `H`.
pub open spec fn file_capital(file: int) -> char {
    if file == 0 {
        'A'
    } else if file == 1 {
        'B'
    } else if file == 2 {
        'C'
    } else if file == 3 {
        'D'
    } else if file == 4 {
        'E'
    } else if file == 5 {
        'F'
    } else if file == 6 {
        'G'
    } else {
        'H'
    }
}

/// The name of a square in small letters, as in `e4`.
pub open spec fn square_text(sq: Square) -> Seq<char> {
    seq![file_letter(sq.file_index()), rank_digit(sq.rank_index())]
}

/// A move as the engine protocol writes it: the two squares, and the letter of the
/// promotion where there is one.
pub open spec fn move_text(m: Move) -> Seq<char> {
    square_text(m.from) + square_text(m.to) + match m.promotion {
        Some(p) => seq![p.letter()],
        None => Seq::empty(),
    }
}

/// The name of a kind of piece.
pub open spec fn piece_name(piece: Piece) -> Seq<char> {
    match piece {
        Piece::Pawn => "Pawn"@,
        Piece::Knight => "Knight"@,
        Piece::Bishop => "Bishop"@,
        Piece::Rook => "Rook"@,
        Piece::Queen => "Queen"@,
        Piece::King => "King"@,
    }
}

/// The name of a side.
pub open spec fn color_name(color: Color) -> Seq<char> {
    match color {
        Color::White => "White"@,
        Color::Black => "Black"@,
    }
}

/// `None`, or `Some(..)` around a text.
pub open spec fn optional(inner: Option<Seq<char>>) -> Seq<char> {
    match inner {
        Some(text) => "Some("@ + text + ")"@,
        None => "None"@,
    }
}

/// The letter of a right where it is held, else nothing.
pub open spec fn right_text(rights: CastlingRights, flag: u8, letter: char) -> Seq<char> {
    if rights.holds(flag) {
        seq![letter]
    } else {
        Seq::empty()
    }
}

/// The castling rights as letters in the order `KQkq`, or `-` where none is held.
pub open spec fn rights_text(rights: CastlingRights) -> Seq<char> {
    let letters = right_text(rights, WHITE_KING_SIDE, 'K') + right_text(
        rights,
        WHITE_QUEEN_SIDE,
        'Q',
    ) + right_text(rights, BLACK_KING_SIDE, 'k') + right_text(rights, BLACK_QUEEN_SIDE, 'q');
    if letters.len() == 0 {
        seq!['-']
    } else {
        letters
    }
}

/// The hexadecimal digit of a number below 16.
pub open spec fn hex_digit(n: int) -> char {
    if n == 0 {
        '0'
    } else if n == 1 {
        '1'
    } else if n == 2 {
        '2'
    } else if n == 3 {
        '3'
    } else if n == 4 {
        '4'
    } else if n == 5 {
        '5'
    } else if n == 6 {
        '6'
    } else if n == 7 {
        '7'
    } else if n == 8 {
        '8'
    } else if n == 9 {
        '9'
    } else if n == 10 {
        'a'
    } else if n == 11 {
        'b'
    } else if n == 12 {
        'c'
    } else if n == 13 {
        'd'
    } else if n == 14 {
        'e'
    } else {
        'f'
    }
}

/// The `i`-th of the 16 hexadecimal digits of a word, the highest first.
pub open spec fn hex_place(value: u64, i: int) -> int {
    ((value >> ((60 - 4 * i) as u64)) & 15) as int
}

/// A word as `0x` and 16 hexadecimal digits.
pub open spec fn hex_text(value: u64) -> Seq<char> {
    seq!['0', 'x'] + Seq::new(16, |i: int| hex_digit(hex_place(value, i)))
}

/// The diagram: an empty line, the eight ranks from the eighth down, an empty line and the
/// letters of the files.
pub open spec fn diagram_text(men: Seq<Option<(Color, Piece)>>) -> Seq<char> {
    seq!['\n'] + rank_lines(men, 8) + "\n    a b c d e f g h \n\n"@
}

/// The line that tells the en-passant target.
pub open spec fn target_line(target: Option<Square>) -> Seq<char> {
    "En passant square:\t"@ + optional(
        match target {
            Some(t) => Some(square_name(t)),
            None => None,
        },
    ) + seq!['\n']
}

/// The line that tells the side to move.
pub open spec fn side_line(side: Color) -> Seq<char> {
    "Side to move:\t\t"@ + color_name(side) + seq!['\n']
}

/// The line that tells the castling rights.
pub open spec fn rights_line(rights: CastlingRights) -> Seq<char> {
    "Castling rights:\t"@ + rights_text(rights) + seq!['\n']
}

/// The line that tells the piece that the last move captured.
pub open spec fn captured_line(captured: Option<Piece>) -> Seq<char> {
    "Captured piece:\t"@ + optional(
        match captured {
            Some(p) => Some(piece_name(p)),
            None => None,
        },
    ) + seq!['\n']
}

/// The line that tells the last move.
pub open spec fn last_move_line(last_move: Option<Move>) -> Seq<char> {
    "Last move:\t"@ + optional(
        match last_move {
            Some(m) => Some(move_text(m)),
            None => None,
        },
    ) + seq!['\n']
}

/// The line that tells the hash.
pub open spec fn hash_line(hash: u64) -> Seq<char> {
    "Hash: \t"@ + hex_text(hash) + seq!['\n']
}

/// The text that shows a position: the diagram and a line each for the en-passant target,
/// the side to move, the castling rights, the captured piece, the last move and the hash.
pub open spec fn board_text(board: &Board) -> Seq<char> {
    diagram_text(board.men()) + target_line(board.state.en_passant_target) + side_line(
        board.side_to_move,
    ) + rights_line(board.state.castling_rights) + captured_line(board.state.captured_piece)
        + last_move_line(board.state.last_move) + hash_line(board.state.hash)
}

fn file_char(file: u8, capital: bool) -> (r: char)
    requires
        file < 8,
    ensures
        r == if capital {
            file_capital(file as int)
        } else {
            file_letter(file as int)
        },
{
    if capital {
        match file {
            0 => 'A',
            1 => 'B',
            2 => 'C',
            3 => 'D',
            4 => 'E',
            5 => 'F',
            6 => 'G',
            _ => 'H',
        }
    } else {
        match file {
            0 => 'a',
            1 => 'b',
            2 => 'c',
            3 => 'd',
            4 => 'e',
            5 => 'f',
            6 => 'g',
            _ => 'h',
        }
    }
}

fn rank_char(rank: u8) -> (r: char)
    requires
        rank < 8,
    ensures
        r == rank_digit(rank as int),
{
    match rank {
        0 => '1',
        1 => '2',
        2 => '3',
        3 => '4',
        4 => '5',
        5 => '6',
        6 => '7',
        _ => '8',
    }
}

fn hex_char(n: u8) -> (r: char)
    requires
        n < 16,
    ensures
        r == hex_digit(n as int),
{
    match n {
        0 => '0',
        1 => '1',
        2 => '2',
        3 => '3',
        4 => '4',
        5 => '5',
        6 => '6',
        7 => '7',
        8 => '8',
        9 => '9',
        10 => 'a',
        11 => 'b',
        12 => 'c',
        13 => 'd',
        14 => 'e',
        _ => 'f',
    }
}

/// Adds the name of a square to the end of `out`.
pub fn push_square(out: &mut Vec<char>, sq: Square, capital: bool)
    ensures
        final(out)@ == old(out)@ + if capital {
            square_name(sq)
        } else {
            square_text(sq)
        },
{
    out.push(file_char(sq.file(), capital));
    out.push(rank_char(sq.rank()));
    assert(out@ =~= old(out)@ + if capital {
        square_name(sq)
    } else {
        square_text(sq)
    });
}

/// A move as the engine protocol writes it, as in `e2e4` or `e7e8q`.
pub fn uci_text(m: Move) -> (r: Vec<char>)
    ensures
        r@ == move_text(m),
{
    let mut out: Vec<char> = Vec::new();
    push_square(&mut out, m.from, false);
    push_square(&mut out, m.to, false);
    if let Some(p) = m.promotion {
        out.push(p.to_char());
    }
    assert(out@ =~= move_text(m));
    out
}

/// Adds a word as `0x` and 16 hexadecimal digits to the end of `out`.
pub fn push_hex(out: &mut Vec<char>, value: u64)
    ensures
        final(out)@ == old(out)@ + hex_text(value),
{
    out.push('0');
    out.push('x');
    let mut i: u8 = 0;
    while i < 16
        invariant
            0 <= i <= 16,
            out@ == old(out)@ + seq!['0', 'x'] + Seq::new(
                i as nat,
                |j: int| hex_digit(hex_place(value, j)),
            ),
        decreases 16 - i,
    {
        let shift: u64 = (60 - 4 * i) as u64;
        let place: u64 = (value >> shift) & 15;
        assert((value >> shift) & 15 < 16) by (bit_vector);
        out.push(hex_char(place as u8));
        i = i + 1;
        assert(out@ =~= old(out)@ + seq!['0', 'x'] + Seq::new(
            i as nat,
            |j: int| hex_digit(hex_place(value, j)),
        ));
    }
    assert(out@ =~= old(out)@ + hex_text(value));
}

/// Adds the letters of the castling rights to the end of `out`.
pub fn push_rights(out: &mut Vec<char>, rights: CastlingRights)
    ensures
        final(out)@ == old(out)@ + rights_text(rights),
{
    let ghost start = out@;
    let mut any = false;
    if rights.contains(WHITE_KING_SIDE) {
        out.push('K');
        any = true;
    }
    if rights.contains(WHITE_QUEEN_SIDE) {
        out.push('Q');
        any = true;
    }
    if rights.contains(BLACK_KING_SIDE) {
        out.push('k');
        any = true;
    }
    if rights.contains(BLACK_QUEEN_SIDE) {
        out.push('q');
        any = true;
    }
    if !any {
        out.push('-');
    }
    assert(out@ =~= start + rights_text(rights));
}

fn push_target_line(out: &mut Vec<char>, target: Option<Square>)
    ensures
        final(out)@ == old(out)@ + target_line(target),
{
    let mut line: Vec<char> = Vec::new();
    push_text(&mut line, "En passant square:\t");
    match target {
        Some(t) => {
            push_text(&mut line, "Some(");
            push_square(&mut line, t, true);
            push_text(&mut line, ")");
        },
        None => {
            push_text(&mut line, "None");
        },
    }
    line.push('\n');
    assert(line@ =~= target_line(target));
    out.append(&mut line);
}

fn push_side_line(out: &mut Vec<char>, side: Color)
    ensures
        final(out)@ == old(out)@ + side_line(side),
{
    let mut line: Vec<char> = Vec::new();
    push_text(&mut line, "Side to move:\t\t");
    match side {
        Color::White => push_text(&mut line, "White"),
        Color::Black => push_text(&mut line, "Black"),
    }
    line.push('\n');
    assert(line@ =~= side_line(side));
    out.append(&mut line);
}

fn push_rights_line(out: &mut Vec<char>, rights: CastlingRights)
    ensures
        final(out)@ == old(out)@ + rights_line(rights),
{
    let mut line: Vec<char> = Vec::new();
    push_text(&mut line, "Castling rights:\t");
    push_rights(&mut line, rights);
    line.push('\n');
    assert(line@ =~= rights_line(rights));
    out.append(&mut line);
}

fn push_captured_line(out: &mut Vec<char>, captured: Option<Piece>)
    ensures
        final(out)@ == old(out)@ + captured_line(captured),
{
    let mut line: Vec<char> = Vec::new();
    push_text(&mut line, "Captured piece:\t");
    match captured {
        Some(piece) => {
            push_text(&mut line, "Some(");
            match piece {
                Piece::Pawn => push_text(&mut line, "Pawn"),
                Piece::Knight => push_text(&mut line, "Knight"),
                Piece::Bishop => push_text(&mut line, "Bishop"),
                Piece::Rook => push_text(&mut line, "Rook"),
                Piece::Queen => push_text(&mut line, "Queen"),
                Piece::King => push_text(&mut line, "King"),
            }
            push_text(&mut line, ")");
        },
        None => {
            push_text(&mut line, "None");
        },
    }
    line.push('\n');
    assert(line@ =~= captured_line(captured));
    out.append(&mut line);
}

fn push_last_move_line(out: &mut Vec<char>, last_move: Option<Move>)
    ensures
        final(out)@ == old(out)@ + last_move_line(last_move),
{
    let mut line: Vec<char> = Vec::new();
    push_text(&mut line, "Last move:\t");
    match last_move {
        Some(m) => {
            push_text(&mut line, "Some(");
            let mut text = uci_text(m);
            line.append(&mut text);
            push_text(&mut line, ")");
        },
        None => {
            push_text(&mut line, "None");
        },
    }
    line.push('\n');
    assert(line@ =~= last_move_line(last_move));
    out.append(&mut line);
}

fn push_hash_line(out: &mut Vec<char>, hash: u64)
    ensures
        final(out)@ == old(out)@ + hash_line(hash),
{
    let mut line: Vec<char> = Vec::new();
    push_text(&mut line, "Hash: \t");
    push_hex(&mut line, hash);
    line.push('\n');
    assert(line@ =~= hash_line(hash));
    out.append(&mut line);
}

impl Board {
    /// Adds the line of the diagram for a rank to the end of `out`.
    fn push_rank(&self, out: &mut Vec<char>, rank: u8)
        requires
            rank < 8,
            self.squares_ok(),
        ensures
            final(out)@ == old(out)@ + rank_line(self.men(), rank as int),
    {
        let ghost start = out@;
        out.push(rank_char(rank));
        out.push(' ');
        out.push(' ');
        out.push(' ');
        let mut file: u8 = 0;
        while file < 8
            invariant
                0 <= file <= 8,
                rank < 8,
                self.squares_ok(),
                out@ == start + seq![rank_digit(rank as int), ' ', ' ', ' '] + Seq::new(
                    2 * file as nat,
                    |j: int|
                        if j % 2 == 0 {
                            symbol_of(self.men()[8 * rank + j / 2])
                        } else {
                            ' '
                        },
                ),
            decreases 8 - file,
        {
            let square = Square::from_index(rank * 8 + file);
            proof {
                assert(self.men()[square.index()] == self.content(square.index()));
                lemma_class_members(
                    self.pieces,
                    self.occupancies,
                    self.combined,
                    Color::White,
                    Piece::Pawn,
                    square.index(),
                );
            }
            let symbol = match self.piece_on_square(square) {
                Some(piece) => match self.color_on_square(square) {
                    Some(color) => piece.to_ascii(color),
                    None => '.',
                },
                None => '.',
            };
            out.push(symbol);
            out.push(' ');
            file = file + 1;
            assert(out@ =~= start + seq![rank_digit(rank as int), ' ', ' ', ' '] + Seq::new(
                2 * file as nat,
                |j: int|
                    if j % 2 == 0 {
                        symbol_of(self.men()[8 * rank + j / 2])
                    } else {
                        ' '
                    },
            ));
        }
        out.push('\n');
        assert(out@ =~= start + rank_line(self.men(), rank as int));
    }

    /// The characters of the diagram.
    fn diagram(&self) -> (r: Vec<char>)
        requires
            self.squares_ok(),
        ensures
            r@ == diagram_text(self.men()),
    {
        let mut out: Vec<char> = Vec::new();
        out.push('\n');
        let mut n: u8 = 8;
        while n > 0
            invariant
                0 <= n <= 8,
                self.squares_ok(),
                out@ + rank_lines(self.men(), n as int) == seq!['\n'] + rank_lines(self.men(), 8),
            decreases n,
        {
            let ghost before = out@;
            self.push_rank(&mut out, n - 1);
            n = n - 1;
            assert(out@ + rank_lines(self.men(), n as int) =~= before + rank_lines(
                self.men(),
                n + 1,
            ));
        }
        assert(out@ =~= seq!['\n'] + rank_lines(self.men(), 8));
        push_text(&mut out, "\n    a b c d e f g h \n\n");
        out
    }

    /// The characters of the text that shows the position.
    pub fn render(&self) -> (r: Vec<char>)
        requires
            self.squares_ok(),
        ensures
            r@ == board_text(self),
    {
        let mut out = self.diagram();
        push_target_line(&mut out, self.state.en_passant_target);
        push_side_line(&mut out, self.side_to_move);
        push_rights_line(&mut out, self.state.castling_rights);
        push_captured_line(&mut out, self.state.captured_piece);
        push_last_move_line(&mut out, self.state.last_move);
        push_hash_line(&mut out, self.state.hash);
        out
    }

    /// The text that shows the position.
    pub fn to_string(&self) -> (r: String)
        requires
            self.squares_ok(),
        ensures
            r@ == board_text(self),
    {
        let chars = self.render();
        collect_text(&chars)
    }
}

/// The decimal digit of a number below ten.
pub open spec fn decimal_digit(n: int) -> char {
    hex_digit(n)
}

/// A natural number in decimal digits, without leading zeros.
pub open spec fn digits_text(n: nat) -> Seq<char>
    decreases n,
{
    if n < 10 {
        seq![decimal_digit(n as int)]
    } else {
        digits_text(n / 10) + seq![decimal_digit((n % 10) as int)]
    }
}

/// A whole number in decimal digits, with a minus sign before a negative one.
pub open spec fn number_text(i: int) -> Seq<char> {
    if i < 0 {
        seq!['-'] + digits_text((-i) as nat)
    } else {
        digits_text(i as nat)
    }
}

/// A score as text: the centipawns in decimal digits, or, for a mate score, a hash sign and
/// the plies to the mate.
pub open spec fn score_text(score: int) -> Seq<char> {
    if mate_score(score) {
        seq!['#'] + number_text(mate_plies(score))
    } else {
        number_text(score)
    }
}

/// Adds a natural number in decimal digits to the end of `out`.
pub fn push_digits(out: &mut Vec<char>, n: u32)
    ensures
        final(out)@ == old(out)@ + digits_text(n as nat),
    decreases n,
{
    if n < 10 {
        out.push(hex_char(n as u8));
        assert(out@ =~= old(out)@ + digits_text(n as nat));
    } else {
        push_digits(out, n / 10);
        out.push(hex_char((n % 10) as u8));
        assert(out@ =~= old(out)@ + digits_text(n as nat));
    }
}

/// Adds a whole number in decimal digits to the end of `out`.
pub fn push_number(out: &mut Vec<char>, i: i32)
    requires
        i > i32::MIN,
    ensures
        final(out)@ == old(out)@ + number_text(i as int),
{
    if i < 0 {
        out.push('-');
        push_digits(out, (-i) as u32);
        assert(out@ =~= old(out)@ + number_text(i as int));
    } else {
        push_digits(out, i as u32);
    }
}

impl Evaluation {
    /// The score as text.
    pub fn to_string(&self) -> (r: String)
        requires
            self.0 > i32::MIN,
            mate_score(self.0 as int) ==> -128 <= mate_plies(self.0 as int) <= 127,
        ensures
            r@ == score_text(self.0 as int),
    {
        let mut out: Vec<char> = Vec::new();
        if self.is_mate() {
            out.push('#');
            push_number(&mut out, self.mate_num_ply() as i32);
        } else {
            push_number(&mut out, self.0);
        }
        assert(out@ =~= score_text(self.0 as int));
        collect_text(&out)
    }
}

} // verus!
