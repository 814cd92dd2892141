//! Chess positions, read by the `chess` crate from their FEN.
//!
//! A [`Position`] holds as plain values what the rest of the library asks of a
//! position. Everything in it comes from the `chess` crate; the contracts name
//! what that crate returns for a FEN and speak of those names.
use std::str::FromStr;
use vstd::prelude::*;
use vstd::string::*;
use crate::text::{characters, push_char};

verus! {

/// A kind of piece.
#[derive(Clone, Copy, Debug, PartialEq, Eq, Structural)]
pub enum Kind {
    Pawn,
    Knight,
    Bishop,
    Rook,
    Queen,
    King,
}

impl Kind {
    /// The place of the kind in the order pawn, knight, bishop, rook, queen, king.
    pub open spec fn index_spec(self) -> int {
        match self {
            Kind::Pawn => 0,
            Kind::Knight => 1,
            Kind::Bishop => 2,
            Kind::Rook => 3,
            Kind::Queen => 4,
            Kind::King => 5,
        }
    }

    pub fn index(self) -> (i: usize)
        ensures
            i == self.index_spec(),
    {
        match self {
            Kind::Pawn => 0,
            Kind::Knight => 1,
            Kind::Bishop => 2,
            Kind::Rook => 3,
            Kind::Queen => 4,
            Kind::King => 5,
        }
    }

    /// The kind at a place; the king from place 5 on.
    pub fn at(i: usize) -> (kind: Kind)
        ensures
            i < 6 ==> kind.index_spec() == i,
            i >= 5 ==> kind is King,
    {
        if i == 0 {
            Kind::Pawn
        } else if i == 1 {
            Kind::Knight
        } else if i == 2 {
            Kind::Bishop
        } else if i == 3 {
            Kind::Rook
        } else if i == 4 {
            Kind::Queen
        } else {
            Kind::King
        }
    }

    /// The letter of the kind in a move.
    pub open spec fn letter_spec(self) -> char {
        match self {
            Kind::Pawn => 'p',
            Kind::Knight => 'n',
            Kind::Bishop => 'b',
            Kind::Rook => 'r',
            Kind::Queen => 'q',
            Kind::King => 'k',
        }
    }

    fn letter(self) -> (c: char)
        ensures
            c == self.letter_spec(),
    {
        match self {
            Kind::Pawn => 'p',
            Kind::Knight => 'n',
            Kind::Bishop => 'b',
            Kind::Rook => 'r',
            Kind::Queen => 'q',
            Kind::King => 'k',
        }
    }
}

/// A move: from a square to a square, squares counted from a1 along the ranks, and what a
/// pawn turns into.
#[derive(Clone, Copy, Debug, PartialEq, Eq, Structural)]
pub struct Move {
    pub source: u8,
    pub dest: u8,
    pub promotion: Option<Kind>,
}

/// The letter of a file.
pub open spec fn file_char(square: int) -> char {
    let file = square % 8;
    if file == 0 {
        'a'
    } else if file == 1 {
        'b'
    } else if file == 2 {
        'c'
    } else if file == 3 {
        'd'
    } else if file == 4 {
        'e'
    } else if file == 5 {
        'f'
    } else if file == 6 {
        'g'
    } else {
        'h'
    }
}

/// The digit of a rank.
pub open spec fn rank_char(square: int) -> char {
    let rank = square / 8;
    if rank == 0 {
        '1'
    } else if rank == 1 {
        '2'
    } else if rank == 2 {
        '3'
    } else if rank == 3 {
        '4'
    } else if rank == 4 {
        '5'
    } else if rank == 5 {
        '6'
    } else if rank == 6 {
        '7'
    } else {
        '8'
    }
}

fn file_of(square: u8) -> (c: char)
    ensures
        c == file_char(square as int),
{
    let file: u8 = square % 8;
    if file == 0 {
        'a'
    } else if file == 1 {
        'b'
    } else if file == 2 {
        'c'
    } else if file == 3 {
        'd'
    } else if file == 4 {
        'e'
    } else if file == 5 {
        'f'
    } else if file == 6 {
        'g'
    } else {
        'h'
    }
}

fn rank_of(square: u8) -> (c: char)
    ensures
        c == rank_char(square as int),
{
    let rank: u8 = square / 8;
    if rank == 0 {
        '1'
    } else if rank == 1 {
        '2'
    } else if rank == 2 {
        '3'
    } else if rank == 3 {
        '4'
    } else if rank == 4 {
        '5'
    } else if rank == 5 {
        '6'
    } else if rank == 6 {
        '7'
    } else {
        '8'
    }
}

impl Move {
    /// A move as a chess program writes it: both squares, and the letter of a promotion.
    pub open spec fn uci_spec(self) -> Seq<char> {
        let squares = seq![
            file_char(self.source as int),
            rank_char(self.source as int),
            file_char(self.dest as int),
            rank_char(self.dest as int),
        ];
        match self.promotion {
            Some(kind) => squares.push(kind.letter_spec()),
            None => squares,
        }
    }

    /// The move in the notation of chess programs, such as `e2e4` or `e7e8q`.
    pub fn uci(&self) -> (s: String)
        ensures
            s@ == self.uci_spec(),
    {
        let mut s: String = String::new();
        push_char(&mut s, file_of(self.source));
        push_char(&mut s, rank_of(self.source));
        push_char(&mut s, file_of(self.dest));
        push_char(&mut s, rank_of(self.dest));
        match self.promotion {
            Some(kind) => {
                push_char(&mut s, kind.letter());
            },
            None => {},
        }
        assert(s@ =~= self.uci_spec());
        s
    }

    /// Whether the squares are on the board.
    pub open spec fn on_board(self) -> bool {
        self.source < 64 && self.dest < 64
    }

    /// A move from the numbers of its squares and of the piece that a pawn turns into. What is
    /// no square counts as the first one, and what is no piece as the king.
    pub fn from_indices(source: usize, dest: usize, promotion: Option<usize>) -> (m: Move)
        ensures
            m.source == (if source < 64 {
                source as int
            } else {
                0
            }),
            m.dest == (if dest < 64 {
                dest as int
            } else {
                0
            }),
            promotion is None <==> m.promotion is None,
            promotion matches Some(i) ==> m.promotion->0.index_spec() == (if i < 6 {
                i as int
            } else {
                5
            }),
    {
        Move {
            source: if source < 64 {
                source as u8
            } else {
                0
            },
            dest: if dest < 64 {
                dest as u8
            } else {
                0
            },
            promotion: match promotion {
                Some(i) => Some(Kind::at(i)),
                None => None,
            },
        }
    }

    /// The move with a promotion to a queen.
    pub open spec fn queening(self) -> Move {
        Move { promotion: Some(Kind::Queen), ..self }
    }

    /// Whether a pawn turns into something other than a queen.
    pub open spec fn underpromotes(self) -> bool {
        self.promotion is Some && !(self.promotion->0 is Queen)
    }
}

/// The number of a file by its letter.
pub open spec fn file_number(c: char) -> Option<int> {
    if 'a' <= c && c <= 'h' {
        Some(c as int - 'a' as int)
    } else {
        None
    }
}

/// The number of a rank by its digit.
pub open spec fn rank_number(c: char) -> Option<int> {
    if '1' <= c && c <= '8' {
        Some(c as int - '1' as int)
    } else {
        None
    }
}

/// The piece that a pawn turns into, by its letter.
pub open spec fn promotion_letter(c: char) -> Option<Kind> {
    if c == 'q' {
        Some(Kind::Queen)
    } else if c == 'r' {
        Some(Kind::Rook)
    } else if c == 'n' {
        Some(Kind::Knight)
    } else if c == 'b' {
        Some(Kind::Bishop)
    } else {
        None
    }
}

/// The move that a notation names, legal or not: two squares, and a promotion where just one
/// plain letter follows. More than that is passed over.
pub open spec fn named_move(uci: Seq<char>) -> Option<Move> {
    if uci.len() >= 4 && file_number(uci[0]) is Some && rank_number(uci[1]) is Some && file_number(
        uci[2],
    ) is Some && rank_number(uci[3]) is Some {
        let source = (rank_number(uci[1])->0 * 8 + file_number(uci[0])->0) as u8;
        let dest = (rank_number(uci[3])->0 * 8 + file_number(uci[2])->0) as u8;
        if uci.len() == 5 && (uci[4] as int) < 128 {
            match promotion_letter(uci[4]) {
                Some(kind) => Some(Move { source, dest, promotion: Some(kind) }),
                None => None,
            }
        } else {
            Some(Move { source, dest, promotion: None })
        }
    } else {
        None
    }
}

/// The move that a notation names, by `chess::ChessMove::from_str`: it reads two squares, and
/// the letter of a promotion where the text is five bytes long.
#[verifier::external_body]
pub(crate) fn parse_move(uci: &str) -> (m: Option<Move>)
    ensures
        m == named_move(uci@),
{
    chess::ChessMove::from_str(uci).ok().map(|m| {
        Move::from_indices(
            m.get_source().to_index(),
            m.get_dest().to_index(),
            m.get_promotion().map(|p| p.to_index()),
        )
    })
}

/// A notation names the move that it was written for.
pub proof fn notation_is_read_back(m: Move)
    requires
        m.on_board(),
        m.promotion matches Some(kind) ==> !(kind is Pawn) && !(kind is King),
    ensures
        named_move(m.uci_spec()) == Some(m),
{
    let s = m.uci_spec();
    assert(file_number(s[0]) == Some(m.source as int % 8));
    assert(rank_number(s[1]) == Some(m.source as int / 8));
    assert(file_number(s[2]) == Some(m.dest as int % 8));
    assert(rank_number(s[3]) == Some(m.dest as int / 8));
}

/// Two moves with the same squares and the same promotion have the same notation, and
/// moves with different notations differ.
pub proof fn notation_tells_moves_apart(a: Move, b: Move)
    requires
        a.on_board(),
        b.on_board(),
    ensures
        a.uci_spec() == b.uci_spec() <==> a == b,
{
    if a.uci_spec() == b.uci_spec() {
        let s = a.uci_spec();
        let t = b.uci_spec();
        assert(s[0] == t[0] && s[1] == t[1] && s[2] == t[2] && s[3] == t[3]);
        assert(s.len() == t.len());
        assert(a.source % 8 == b.source % 8 && a.source / 8 == b.source / 8);
        assert(a.dest % 8 == b.dest % 8 && a.dest / 8 == b.dest / 8);
        if a.promotion is Some {
            assert(s[4] == t[4]);
        }
    }
}

/// No position has more legal moves than this.
pub const MOST_MOVES: usize = 4608;

/// How a position stands.
#[derive(Clone, Copy, Debug, PartialEq, Eq, Structural)]
pub enum Status {
    Ongoing,
    Stalemate,
    Checkmate,
}

/// Part `n` of a text, counted from 0, where single spaces separate the parts; empty where
/// there is none.
pub open spec fn space_part(text: Seq<char>, n: nat) -> Seq<char>
    decreases n, text.len(),
{
    let end = first_space(text, 0);
    if n == 0 {
        text.take(end)
    } else if end < text.len() {
        space_part(text.skip(end + 1), (n - 1) as nat)
    } else {
        Seq::empty()
    }
}

/// The first space of a text from a place on, or its end.
pub open spec fn first_space(text: Seq<char>, from: int) -> int
    decreases text.len() - from,
{
    if from < 0 || from >= text.len() || text[from] == ' ' {
        if from > text.len() {
            text.len() as int
        } else {
            from
        }
    } else {
        first_space(text, from + 1)
    }
}

/// The letters on the squares of a board while its placement is read, and the next square.
pub struct Scan {
    pub rank: int,
    pub file: int,
    pub letters: Seq<char>,
}

/// Whether a letter stands for a piece.
pub open spec fn is_piece(c: char) -> bool {
    kind_letter(c) is Some
}

/// The kind of piece that a letter stands for.
pub open spec fn kind_letter(c: char) -> Option<int> {
    if c == 'p' || c == 'P' {
        Some(0)
    } else if c == 'n' || c == 'N' {
        Some(1)
    } else if c == 'b' || c == 'B' {
        Some(2)
    } else if c == 'r' || c == 'R' {
        Some(3)
    } else if c == 'q' || c == 'Q' {
        Some(4)
    } else if c == 'k' || c == 'K' {
        Some(5)
    } else {
        None
    }
}

/// Whether a letter stands for a white piece: those are the capital ones.
pub open spec fn is_white_piece(c: char) -> bool {
    c == 'P' || c == 'N' || c == 'B' || c == 'R' || c == 'Q' || c == 'K'
}

/// The board once the first `end` characters of a placement are read, from the eighth rank
/// down and from the first file on. A digit leaves squares out, a slash goes to the next
/// rank, and beyond the last file or rank comes the first.
pub open spec fn scan(text: Seq<char>, end: int) -> Scan
    decreases end,
{
    if end <= 0 {
        Scan { rank: 7, file: 0, letters: Seq::new(64, |square: int| ' ') }
    } else {
        let before = scan(text, end - 1);
        let c = text[end - 1];
        if c == '/' {
            Scan { rank: (before.rank + 7) % 8, file: 0, letters: before.letters }
        } else if '1' <= c && c <= '8' {
            Scan { file: (before.file + (c as u32 - 0x30)) % 8, ..before }
        } else if is_piece(c) {
            Scan {
                rank: before.rank,
                file: (before.file + 1) % 8,
                letters: before.letters.update(before.rank * 8 + before.file, c),
            }
        } else {
            before
        }
    }
}

/// The letter on a square of the board of a FEN, or a space where it is empty.
pub open spec fn letter_at(fen: Seq<char>, square: int) -> char {
    let placement = space_part(fen, 0);
    scan(placement, placement.len() as int).letters[square]
}

/// Whether both sides have a king.
pub open spec fn has_kings(fen: Seq<char>) -> bool {
    &&& exists|square: int| 0 <= square < 64 && #[trigger] letter_at(fen, square) == 'K'
    &&& exists|square: int| 0 <= square < 64 && #[trigger] letter_at(fen, square) == 'k'
}

/// Whether `chess::Board::from_str` accepts a FEN where both sides have a king.
pub uninterp spec fn board_reads(fen: Seq<char>) -> bool;

/// Whether a FEN is accepted: both sides have a king, and the `chess` crate can read it.
pub open spec fn fen_accepted(fen: Seq<char>) -> bool {
    has_kings(fen) && board_reads(fen)
}

/// A board with a bit for each of the first `n` squares that is marked.
pub open spec fn marked(marks: Seq<bool>, n: int) -> u64
    decreases n,
{
    if n <= 0 {
        0
    } else if marks[n - 1] {
        marked(marks, n - 1) | (1u64 << ((n - 1) as u64))
    } else {
        marked(marks, n - 1)
    }
}

/// Which squares have a letter for a piece of one colour.
pub open spec fn color_marks(fen: Seq<char>, white: bool) -> Seq<bool> {
    Seq::new(
        64,
        |square: int|
            is_piece(letter_at(fen, square)) && is_white_piece(letter_at(fen, square)) == white,
    )
}

/// Which squares have a letter for one kind of piece.
pub open spec fn piece_marks(fen: Seq<char>, kind: int) -> Seq<bool> {
    Seq::new(64, |square: int| kind_letter(letter_at(fen, square)) == Some(kind))
}

/// The squares of one colour's pieces, one bit for each.
pub open spec fn color_board_of(fen: Seq<char>, white: bool) -> u64 {
    marked(color_marks(fen, white), 64)
}

/// The squares of one kind of piece, one bit for each.
pub open spec fn piece_board_of(fen: Seq<char>, kind: int) -> u64 {
    marked(piece_marks(fen, kind), 64)
}

/// A board has a bit exactly where there is a mark.
proof fn lemma_marked(marks: Seq<bool>, n: int, square: int)
    requires
        0 <= n <= 64,
        marks.len() == 64,
        0 <= square < 64,
    ensures
        has_bit(marked(marks, n), square) == (square < n && marks[square]),
    decreases n,
{
    let k = square as u64;
    if n <= 0 {
        assert(0u64 & (1u64 << k) == 0) by (bit_vector);
    } else {
        lemma_marked(marks, n - 1, square);
        let before = marked(marks, n - 1);
        let m = (n - 1) as u64;
        if marks[n - 1] {
            assert(((before | (1u64 << m)) & (1u64 << k) != 0) == (before & (1u64 << k) != 0 || k
                == m)) by (bit_vector)
                requires
                    k < 64,
                    m < 64,
            ;
        }
    }
}

/// Boards without a mark in common have no bit in common.
proof fn lemma_marked_apart(a: Seq<bool>, b: Seq<bool>, n: int)
    requires
        0 <= n <= 64,
        a.len() == 64,
        b.len() == 64,
        forall|square: int| 0 <= square < 64 ==> !(#[trigger] a[square] && b[square]),
    ensures
        marked(a, n) & marked(b, n) == 0,
    decreases n,
{
    if n <= 0 {
        assert(0u64 & 0u64 == 0) by (bit_vector);
    } else {
        lemma_marked_apart(a, b, n - 1);
        lemma_marked(a, n - 1, n - 1);
        lemma_marked(b, n - 1, n - 1);
        let x = marked(a, n - 1);
        let y = marked(b, n - 1);
        let m = (n - 1) as u64;
        assert(x & y == 0 && x & (1u64 << m) == 0 && y & (1u64 << m) == 0 ==> (x | (1u64 << m))
            & y == 0 && x & (y | (1u64 << m)) == 0) by (bit_vector);
        assert(!(a[n - 1] && b[n - 1]));
    }
}

/// Whether white is to move: the second part of a FEN says so.
pub open spec fn white_to_move_of(fen: Seq<char>) -> bool {
    let side = space_part(fen, 1);
    side == seq!['w'] || side == seq!['W']
}

/// Whether one side may still castle, on the king's and on the queen's side: the third part
/// of a FEN has a letter for each, capital ones for white.
pub open spec fn castle_rights_of(fen: Seq<char>, white: bool) -> (bool, bool) {
    let rights = space_part(fen, 2);
    if white {
        (rights.contains('K'), rights.contains('Q'))
    } else {
        (rights.contains('k'), rights.contains('q'))
    }
}

/// Whether a pawn of the side to move stands on a file of the rank where it could take in
/// passing.
pub open spec fn pawn_beside(fen: Seq<char>, file: int) -> bool {
    if white_to_move_of(fen) {
        0 <= file < 8 && letter_at(fen, 4 * 8 + file) == 'P'
    } else {
        0 <= file < 8 && letter_at(fen, 3 * 8 + file) == 'p'
    }
}

/// Whether a pawn can be taken in passing: the fourth part of a FEN begins with a square, and
/// on a file next to it stands a pawn that could take. Of the square only the file counts.
pub open spec fn en_passant_of(fen: Seq<char>) -> bool {
    let square = space_part(fen, 3);
    &&& square.len() >= 2
    &&& file_number(square[0]) is Some
    &&& rank_number(square[1]) is Some
    &&& pawn_beside(fen, file_number(square[0])->0 - 1) || pawn_beside(
        fen,
        file_number(square[0])->0 + 1,
    )
}

/// The legal moves.
pub uninterp spec fn legal_moves_of(fen: Seq<char>) -> Seq<Move>;

/// How the position stands.
pub uninterp spec fn status_of(fen: Seq<char>) -> Status;

/// The FEN after a move.
pub uninterp spec fn after_move_of(fen: Seq<char>, m: Move) -> Seq<char>;

/// How many legal moves the other side would have if the side to move could pass; none
/// where it is in check.
pub uninterp spec fn passing_replies_of(fen: Seq<char>) -> Option<nat>;

/// The FEN that `chess::Board` writes for the position that it reads from a FEN.
pub uninterp spec fn canonical_of(fen: Seq<char>) -> Seq<char>;

/// How many of the lowest `n` bits are set.
pub open spec fn bits_set(board: u64, n: int) -> nat
    decreases n,
{
    if n <= 0 {
        0
    } else {
        bits_set(board, n - 1) + if has_bit(board, n - 1) {
            1nat
        } else {
            0nat
        }
    }
}

/// Whether a square's bit is set.
pub open spec fn has_bit(board: u64, square: int) -> bool {
    board & (1u64 << square as u64) != 0
}

/// The letters on all squares.
pub open spec fn letters_of(fen: Seq<char>) -> Seq<char> {
    Seq::new(64, |square: int| letter_at(fen, square))
}

/// Whether a square is on the board.
pub open spec fn within(file: int, rank: int) -> bool {
    0 <= file < 8 && 0 <= rank < 8
}

/// Whether a letter stands for a piece of a colour.
pub open spec fn of_color(c: char, white: bool) -> bool {
    is_piece(c) && is_white_piece(c) == white
}

/// Whether a piece of a colour could go to a square: it is on the board, and no piece of that
/// colour stands there.
pub open spec fn open_to(letters: Seq<char>, white: bool, file: int, rank: int) -> bool {
    within(file, rank) && !of_color(letters[rank * 8 + file], white)
}

/// Whether a pawn of a colour could take on a square.
pub open spec fn takes_at(letters: Seq<char>, white: bool, file: int, rank: int) -> bool {
    within(file, rank) && of_color(letters[rank * 8 + file], !white)
}

/// Whether a square next to another one along a diagonal is open to a colour.
pub open spec fn diagonal_open(letters: Seq<char>, white: bool, file: int, rank: int) -> bool {
    ||| open_to(letters, white, file - 1, rank - 1)
    ||| open_to(letters, white, file - 1, rank + 1)
    ||| open_to(letters, white, file + 1, rank - 1)
    ||| open_to(letters, white, file + 1, rank + 1)
}

/// Whether a square next to another one along a file or a rank is open to a colour.
pub open spec fn straight_open(letters: Seq<char>, white: bool, file: int, rank: int) -> bool {
    ||| open_to(letters, white, file - 1, rank)
    ||| open_to(letters, white, file + 1, rank)
    ||| open_to(letters, white, file, rank - 1)
    ||| open_to(letters, white, file, rank + 1)
}

/// Whether a square a knight's move away is open to a colour.
pub open spec fn leap_open(letters: Seq<char>, white: bool, file: int, rank: int) -> bool {
    ||| open_to(letters, white, file - 2, rank - 1)
    ||| open_to(letters, white, file - 2, rank + 1)
    ||| open_to(letters, white, file - 1, rank - 2)
    ||| open_to(letters, white, file - 1, rank + 2)
    ||| open_to(letters, white, file + 1, rank - 2)
    ||| open_to(letters, white, file + 1, rank + 2)
    ||| open_to(letters, white, file + 2, rank - 1)
    ||| open_to(letters, white, file + 2, rank + 1)
}

/// Whether a pawn can go on or take. One on the first or the last rank counts as if it could.
pub open spec fn pawn_open(letters: Seq<char>, white: bool, file: int, rank: int) -> bool {
    let ahead = if white {
        rank + 1
    } else {
        rank - 1
    };
    ||| rank == 0
    ||| rank == 7
    ||| open_to(letters, white, file, ahead) && open_to(letters, !white, file, ahead)
    ||| takes_at(letters, white, file - 1, ahead)
    ||| takes_at(letters, white, file + 1, ahead)
}

/// Whether a piece of a colour stands on a square and has somewhere to go, as far as the
/// squares next to it tell. A king counts as if it always had.
pub open spec fn has_a_step(letters: Seq<char>, white: bool, square: int) -> bool {
    let file = square % 8;
    let rank = square / 8;
    &&& of_color(letters[square], white)
    &&& match kind_letter(letters[square]) {
        Some(k) => if k == 0 {
            pawn_open(letters, white, file, rank)
        } else if k == 1 {
            leap_open(letters, white, file, rank)
        } else if k == 2 {
            diagonal_open(letters, white, file, rank)
        } else if k == 3 {
            straight_open(letters, white, file, rank)
        } else if k == 4 {
            diagonal_open(letters, white, file, rank) || straight_open(
                letters,
                white,
                file,
                rank,
            )
        } else {
            true
        },
        None => false,
    }
}

/// How many pieces of a colour on the first `n` squares have somewhere to go.
pub open spec fn movers(letters: Seq<char>, white: bool, n: int) -> nat
    decreases n,
{
    if n <= 0 {
        0
    } else {
        movers(letters, white, n - 1) + if has_a_step(letters, white, n - 1) {
            1nat
        } else {
            0nat
        }
    }
}

/// The places in the list of moving pieces of the `chess` crate.
pub const MOVING_PIECES: u32 = 18;

/// Whether the moving pieces of either side fit their list: every piece that has somewhere to
/// go takes a place at most, and so does every pawn that takes another one in passing, of
/// which there are two at most.
pub open spec fn few_pieces(fen: Seq<char>) -> bool {
    let letters = letters_of(fen);
    &&& movers(letters, true, 64) <= MOVING_PIECES
    &&& movers(letters, false, 64) <= MOVING_PIECES
    &&& en_passant_of(fen) ==> movers(letters, white_to_move_of(fen), 64) + 2 <= MOVING_PIECES
}

/// How many pieces of a colour stand on the first `n` squares.
pub open spec fn pieces_of(letters: Seq<char>, white: bool, n: int) -> nat
    decreases n,
{
    if n <= 0 {
        0
    } else {
        pieces_of(letters, white, n - 1) + if of_color(letters[n - 1], white) {
            1nat
        } else {
            0nat
        }
    }
}

proof fn lemma_movers_are_pieces(letters: Seq<char>, white: bool, n: int)
    ensures
        movers(letters, white, n) <= pieces_of(letters, white, n),
    decreases n,
{
    if n > 0 {
        lemma_movers_are_pieces(letters, white, n - 1);
    }
}

/// A position with no more pieces of a side than it starts a game with can be worked with
/// wherever it is accepted.
pub proof fn armies_of_sixteen_fit(fen: Seq<char>)
    requires
        pieces_of(letters_of(fen), true, 64) <= 16,
        pieces_of(letters_of(fen), false, 64) <= 16,
    ensures
        few_pieces(fen),
        playable_fen(fen) <==> fen_accepted(fen),
{
    lemma_movers_are_pieces(letters_of(fen), true, 64);
    lemma_movers_are_pieces(letters_of(fen), false, 64);
}

/// Whether a move can be made in a position, legal or not: a piece stands where it starts, and
/// neither there nor where it ends is the king of the side that has moved last.
pub open spec fn can_be_made(fen: Seq<char>, m: Move) -> bool {
    let their_king = if white_to_move_of(fen) {
        'k'
    } else {
        'K'
    };
    &&& fen_accepted(fen)
    &&& m.on_board()
    &&& is_piece(letter_at(fen, m.source as int))
    &&& letter_at(fen, m.source as int) != their_king
    &&& letter_at(fen, m.dest as int) != their_king
}

/// Whether a position can be worked with: the `chess` crate accepts it, and has the places for
/// the moving pieces of either side.
pub open spec fn playable_fen(fen: Seq<char>) -> bool {
    fen_accepted(fen) && few_pieces(fen)
}

pub(crate) fn is_piece_letter(c: char) -> (piece: bool)
    ensures
        piece == is_piece(c),
{
    c == 'p' || c == 'P' || c == 'n' || c == 'N' || c == 'b' || c == 'B' || c == 'r' || c == 'R'
        || c == 'q' || c == 'Q' || c == 'k' || c == 'K'
}

proof fn lemma_first_space(text: Seq<char>, from: int)
    requires
        0 <= from <= text.len(),
    ensures
        from <= first_space(text, from) <= text.len(),
        forall|i: int| from <= i < first_space(text, from) ==> text[i] != ' ',
        first_space(text, from) < text.len() ==> text[first_space(text, from)] == ' ',
    decreases text.len() - from,
{
    if from < text.len() && text[from] != ' ' {
        lemma_first_space(text, from + 1);
    }
}

/// Whether a letter is among others.
fn has_letter(letters: &Vec<char>, c: char) -> (found: bool)
    ensures
        found == exists|i: int| 0 <= i < letters@.len() && #[trigger] letters@[i] == c,
{
    let mut i: usize = 0;
    while i < letters.len()
        invariant
            i <= letters@.len(),
            forall|j: int| 0 <= j < i ==> #[trigger] letters@[j] != c,
        decreases letters@.len() - i,
    {
        if letters[i] == c {
            assert(letters@[i as int] == c);
            return true;
        }
        i = i + 1;
    }
    false
}

/// The letters on all squares of the board of a FEN.
pub(crate) fn board_letters(fen: &str) -> (letters: Vec<char>)
    ensures
        letters@ == letters_of(fen@),
{
    let chars: Vec<char> = characters(fen);
    let ghost placement = space_part(fen@, 0);
    proof {
        lemma_first_space(fen@, 0);
    }
    let mut letters: Vec<char> = Vec::new();
    while letters.len() < 64
        invariant
            letters@.len() <= 64,
            forall|j: int| 0 <= j < letters@.len() ==> letters@[j] == ' ',
        decreases 64 - letters@.len(),
    {
        letters.push(' ');
    }
    let mut rank: usize = 7;
    let mut file: usize = 0;
    let mut i: usize = 0;
    assert(letters@ =~= Seq::new(64, |square: int| ' '));
    while i < chars.len() && chars[i] != ' '
        invariant
            chars@ == fen@,
            placement == fen@.take(first_space(fen@, 0)),
            0 <= first_space(fen@, 0) <= fen@.len(),
            forall|j: int| 0 <= j < first_space(fen@, 0) ==> fen@[j] != ' ',
            first_space(fen@, 0) < fen@.len() ==> fen@[first_space(fen@, 0)] == ' ',
            i <= first_space(fen@, 0),
            rank < 8,
            file < 8,
            letters@.len() == 64,
            scan(placement, i as int) == (Scan {
                rank: rank as int,
                file: file as int,
                letters: letters@,
            }),
        decreases chars@.len() - i,
    {
        let c: char = chars[i];
        assert(i < first_space(fen@, 0));
        assert(placement[i as int] == c);
        if c == '/' {
            rank = (rank + 7) % 8;
            file = 0;
        } else if '1' <= c && c <= '8' {
            file = (file + (c as usize - 0x30)) % 8;
        } else if is_piece_letter(c) {
            letters.set(rank * 8 + file, c);
            file = (file + 1) % 8;
        }
        i = i + 1;
    }
    proof {
        assert(i == first_space(fen@, 0));
        assert(placement.len() == i);
        assert forall|square: int| 0 <= square < 64 implies #[trigger] letters@[square]
            == letter_at(fen@, square) by {}
    }
    assert(letters@ =~= letters_of(fen@));
    letters
}

/// Whether both sides have a king.
fn kings_stand(fen: &str) -> (stand: bool)
    ensures
        stand == has_kings(fen@),
{
    let letters: Vec<char> = board_letters(fen);
    let white: bool = has_letter(&letters, 'K');
    let black: bool = has_letter(&letters, 'k');
    proof {
        if white {
            let square = choose|square: int|
                0 <= square < letters@.len() && #[trigger] letters@[square] == 'K';
            assert(letter_at(fen@, square) == 'K');
        }
        if black {
            let square = choose|square: int|
                0 <= square < letters@.len() && #[trigger] letters@[square] == 'k';
            assert(letter_at(fen@, square) == 'k');
        }
        if has_kings(fen@) {
            let square = choose|square: int|
                0 <= square < 64 && #[trigger] letter_at(fen@, square) == 'K';
            assert(letters@[square] == 'K');
            let square = choose|square: int|
                0 <= square < 64 && #[trigger] letter_at(fen@, square) == 'k';
            assert(letters@[square] == 'k');
        }
    }
    white && black
}

/// Whether a FEN can be read, by `chess::Board::from_str`. It looks squares up by the king of
/// the side to move before it tests that there is one, so both kings have to stand.
#[verifier::external_body]
fn reads(fen: &str) -> (accepted: bool)
    requires
        has_kings(fen@),
    ensures
        accepted == board_reads(fen@),
{
    chess::Board::from_str(fen).is_ok()
}

/// Whether a FEN is accepted.
pub(crate) fn is_accepted(fen: &str) -> (accepted: bool)
    ensures
        accepted == fen_accepted(fen@),
{
    kings_stand(fen) && reads(fen)
}

/// A FEN as the `chess` crate writes it, by the `to_string` of `chess::Board`; none where
/// `chess::Board::from_str` does not accept it.
pub(crate) fn canonical(fen: &str) -> (text: Option<String>)
    ensures
        text is Some <==> fen_accepted(fen@),
        text matches Some(t) ==> t@ == canonical_of(fen@),
{
    if is_accepted(fen) {
        Some(rewritten(fen))
    } else {
        None
    }
}

/// The FEN of a position, by `chess::Board::to_string`.
#[verifier::external_body]
fn rewritten(fen: &str) -> (text: String)
    requires
        fen_accepted(fen@),
    ensures
        text@ == canonical_of(fen@),
{
    chess::Board::from_str(fen).unwrap().to_string()
}

/// The squares of one colour, by `chess::Board::color_combined`: those with a letter for a
/// piece of that colour.
#[verifier::external_body]
fn color_board(fen: &str, white: bool) -> (board: u64)
    requires
        fen_accepted(fen@),
    ensures
        board == color_board_of(fen@, white),
{
    let color = if white { chess::Color::White } else { chess::Color::Black };
    chess::Board::from_str(fen).unwrap().color_combined(color).0
}

/// The squares of one kind of piece, by `chess::Board::pieces`: those with a letter for it.
#[verifier::external_body]
fn piece_board(fen: &str, kind: usize) -> (board: u64)
    requires
        fen_accepted(fen@),
        kind < 6,
    ensures
        board == piece_board_of(fen@, kind as int),
{
    chess::Board::from_str(fen).unwrap().pieces(chess::ALL_PIECES[kind]).0
}

/// The side to move, by `chess::Board::side_to_move`: the one that the FEN names.
#[verifier::external_body]
pub(crate) fn white_to_move(fen: &str) -> (white: bool)
    requires
        fen_accepted(fen@),
    ensures
        white == white_to_move_of(fen@),
{
    chess::Board::from_str(fen).unwrap().side_to_move() == chess::Color::White
}

/// The castling rights of one side, by `chess::Board::castle_rights`: those that the FEN names.
#[verifier::external_body]
fn castle_rights(fen: &str, white: bool) -> (rights: (bool, bool))
    requires
        fen_accepted(fen@),
    ensures
        rights == castle_rights_of(fen@, white),
{
    let color = if white { chess::Color::White } else { chess::Color::Black };
    let rights = chess::Board::from_str(fen).unwrap().castle_rights(color);
    (rights.has_kingside(), rights.has_queenside())
}

/// Whether there is a square to take in passing, by `chess::Board::en_passant`: a FEN that names
/// one has it kept only where a pawn beside it could take.
#[verifier::external_body]
fn en_passant_open(fen: &str) -> (open: bool)
    requires
        fen_accepted(fen@),
    ensures
        open == en_passant_of(fen@),
{
    chess::Board::from_str(fen).unwrap().en_passant().is_some()
}

/// The legal moves, by `chess::MoveGen::new_legal`, in the order in which it gives them.
/// Its list of moving pieces has 18 places, and nothing tests that they are enough. Each has at
/// most 64 squares to go to and four promotions there, which bounds the number of moves. All
/// squares are on the board. A pawn that promotes has all four promotions on each square, that
/// to a queen among them.
#[verifier::external_body]
fn legal_moves(fen: &str) -> (moves: Vec<Move>)
    requires
        playable_fen(fen@),
    ensures
        moves@ == legal_moves_of(fen@),
        moves@.len() <= MOST_MOVES,
        forall|i: int| 0 <= i < moves@.len() ==> (#[trigger] moves@[i]).on_board(),
        forall|i: int|
            0 <= i < moves@.len() && (#[trigger] moves@[i]).underpromotes() ==> moves@.contains(
                moves@[i].queening(),
            ),
{
    chess::MoveGen::new_legal(&chess::Board::from_str(fen).unwrap())
        .map(|m| {
            Move::from_indices(
                m.get_source().to_index(),
                m.get_dest().to_index(),
                m.get_promotion().map(|p| p.to_index()),
            )
        })
        .collect()
}

/// How a position stands, by `chess::Board::status`: it is ongoing exactly where there is a
/// legal move.
#[verifier::external_body]
fn board_status(fen: &str) -> (status: Status)
    requires
        playable_fen(fen@),
    ensures
        status == status_of(fen@),
        status is Ongoing <==> legal_moves_of(fen@).len() > 0,
{
    match chess::Board::from_str(fen).unwrap().status() {
        chess::BoardStatus::Ongoing => Status::Ongoing,
        chess::BoardStatus::Stalemate => Status::Stalemate,
        chess::BoardStatus::Checkmate => Status::Checkmate,
    }
}

/// The FEN after a move, by `chess::Board::make_move_new`. It panics where there is no piece to
/// move, looks squares up by the king of the side that has moved last, and tests nothing else:
/// moves that are not legal are made too.
#[verifier::external_body]
pub(crate) fn after_move(fen: &str, m: &Move) -> (after: String)
    requires
        m.on_board(),
        can_be_made(fen@, *m) || playable_fen(fen@) && legal_moves_of(fen@).contains(*m),
    ensures
        after@ == after_move_of(fen@, *m),
{
    let played = chess::ChessMove::new(
        chess::ALL_SQUARES[m.source as usize],
        chess::ALL_SQUARES[m.dest as usize],
        m.promotion.map(|kind| chess::ALL_PIECES[kind.index()]),
    );
    chess::Board::from_str(fen).unwrap().make_move_new(played).to_string()
}

/// The number of the other side's legal moves after a pass, by `chess::Board::null_move`,
/// which gives none where the side to move is in check.
#[verifier::external_body]
fn passing_replies(fen: &str) -> (replies: Option<usize>)
    requires
        playable_fen(fen@),
    ensures
        passing_replies_of(fen@) == (match replies {
            Some(n) => Some(n as nat),
            None => None,
        }),
{
    chess::Board::from_str(fen).unwrap().null_move().map(|b| chess::MoveGen::new_legal(&b).len())
}

/// The hash of a position, by `chess::Board::get_hash`. Its tables are drawn when the crate is
/// built, by a generator that differs with the machine that builds it, so nothing is said of
/// the hash.
#[verifier::external_body]
fn board_hash(fen: &str) -> (hash: u64)
    requires
        fen_accepted(fen@),
{
    chess::Board::from_str(fen).unwrap().get_hash()
}

/// A chess position.
#[derive(Debug)]
pub struct Position {
    pub fen: String,
    /// The squares of each kind of piece.
    pub pieces: Vec<u64>,
    pub white: u64,
    pub black: u64,
    pub white_to_move: bool,
    /// Whether white and black may castle, each on the king's and on the queen's side.
    pub white_castles: (bool, bool),
    pub black_castles: (bool, bool),
    pub en_passant: bool,
    pub moves: Vec<Move>,
    pub status: Status,
    /// The key under which evaluations of the position are kept.
    pub hash: u64,
}

impl Position {
    /// Whether the squares are those of the letters in the FEN.
    pub open spec fn as_written(&self) -> bool {
        &&& forall|square: int|
            0 <= square < 64 ==> #[trigger] has_bit(self.white, square) == is_white_piece(
                letter_at(self.fen@, square),
            )
        &&& forall|square: int|
            0 <= square < 64 ==> #[trigger] has_bit(self.black, square) == (is_piece(
                letter_at(self.fen@, square),
            ) && !is_white_piece(letter_at(self.fen@, square)))
        &&& forall|k: int, square: int|
            0 <= k < 6 && 0 <= square < 64 ==> #[trigger] has_bit(self.pieces@[k], square) == (
            kind_letter(letter_at(self.fen@, square)) == Some(k))
    }

    /// Whether everything is as the `chess` crate has it for the FEN.
    pub open spec fn wf(&self) -> bool {
        &&& playable_fen(self.fen@)
        &&& self.pieces@.len() == 6
        &&& forall|k: int|
            0 <= k < 6 ==> #[trigger] self.pieces@[k] == piece_board_of(self.fen@, k)
        &&& self.white == color_board_of(self.fen@, true)
        &&& self.black == color_board_of(self.fen@, false)
        &&& self.white & self.black == 0
        &&& self.as_written()
        &&& self.white_to_move == white_to_move_of(self.fen@)
        &&& self.white_castles == castle_rights_of(self.fen@, true)
        &&& self.black_castles == castle_rights_of(self.fen@, false)
        &&& self.en_passant == en_passant_of(self.fen@)
        &&& self.moves@ == legal_moves_of(self.fen@)
        &&& self.moves@.len() <= MOST_MOVES
        &&& forall|i: int| 0 <= i < self.moves@.len() ==> (#[trigger] self.moves@[i]).on_board()
        &&& forall|i: int|
            0 <= i < self.moves@.len() && (#[trigger] self.moves@[i]).underpromotes()
                ==> self.moves@.contains(self.moves@[i].queening())
        &&& self.status == status_of(self.fen@)
        &&& self.status is Ongoing <==> self.moves@.len() > 0
    }

    /// Reads a position; none where the FEN is malformed, or more pieces of a side have
    /// somewhere to go than there are places for in a list of moves.
    pub fn read(fen: &str) -> (position: Option<Position>)
        ensures
            position is Some <==> playable_fen(fen@),
            position matches Some(p) ==> p.wf() && p.fen@ == fen@,
    {
        if !is_accepted(fen) {
            return None;
        }
        let white: u64 = color_board(fen, true);
        let black: u64 = color_board(fen, false);
        let en_passant: bool = en_passant_open(fen);
        let letters: Vec<char> = board_letters(fen);
        let white_movers: u32 = count_movers(&letters, true);
        let black_movers: u32 = count_movers(&letters, false);
        let mover: u32 = if white_to_move(fen) {
            white_movers
        } else {
            black_movers
        };
        if white_movers > MOVING_PIECES || black_movers > MOVING_PIECES || (en_passant && mover
            > MOVING_PIECES - 2) {
            return None;
        }
        let mut pieces: Vec<u64> = Vec::new();
        let mut k: usize = 0;
        while k < 6
            invariant
                k <= 6,
                fen_accepted(fen@),
                pieces@.len() == k,
                forall|j: int| 0 <= j < k ==> #[trigger] pieces@[j] == piece_board_of(fen@, j),
            decreases 6 - k,
        {
            pieces.push(piece_board(fen, k));
            k = k + 1;
        }
        proof {
            lemma_marked_apart(color_marks(fen@, true), color_marks(fen@, false), 64);
            assert forall|square: int| 0 <= square < 64 implies #[trigger] has_bit(white, square)
                == is_white_piece(letter_at(fen@, square)) by {
                lemma_marked(color_marks(fen@, true), 64, square);
            }
            assert forall|square: int| 0 <= square < 64 implies #[trigger] has_bit(black, square)
                == (is_piece(letter_at(fen@, square)) && !is_white_piece(
                letter_at(fen@, square),
            )) by {
                lemma_marked(color_marks(fen@, false), 64, square);
            }
            assert forall|j: int, square: int| 0 <= j < 6 && 0 <= square < 64 implies
                #[trigger] has_bit(pieces@[j], square) == (kind_letter(letter_at(fen@, square))
                == Some(j)) by {
                lemma_marked(piece_marks(fen@, j), 64, square);
            }
        }
        Some(
            Position {
                fen: fen.to_owned(),
                pieces,
                white,
                black,
                white_to_move: white_to_move(fen),
                white_castles: castle_rights(fen, true),
                black_castles: castle_rights(fen, false),
                en_passant,
                moves: legal_moves(fen),
                status: board_status(fen),
                hash: board_hash(fen),
            },
        )
    }

    /// The FEN after one of the legal moves.
    pub fn after(&self, m: &Move) -> (fen: String)
        requires
            self.wf(),
            self.moves@.contains(*m),
        ensures
            fen@ == after_move_of(self.fen@, *m),
    {
        after_move(self.fen.as_str(), m)
    }

    /// How many moves either side has: the side to move, and the other one if it could move
    /// now. The other one has none while the side to move is in check.
    pub fn mobility(&self) -> (counts: (usize, usize))
        requires
            self.wf(),
        ensures
            counts.0 == legal_moves_of(self.fen@).len(),
            counts.1 == (match passing_replies_of(self.fen@) {
                Some(n) => n,
                None => 0,
            }),
    {
        let replies: usize = match passing_replies(self.fen.as_str()) {
            Some(n) => n,
            None => 0,
        };
        (self.moves.len(), replies)
    }
}

fn is_of_color(c: char, white: bool) -> (of: bool)
    ensures
        of == of_color(c, white),
{
    let capital: bool = c == 'P' || c == 'N' || c == 'B' || c == 'R' || c == 'Q' || c == 'K';
    is_piece_letter(c) && capital == white
}

fn is_open_to(letters: &Vec<char>, white: bool, file: i32, rank: i32) -> (open: bool)
    requires
        letters@.len() == 64,
    ensures
        open == open_to(letters@, white, file as int, rank as int),
{
    0 <= file && file < 8 && 0 <= rank && rank < 8 && !is_of_color(
        letters[(rank * 8 + file) as usize],
        white,
    )
}

fn can_take_at(letters: &Vec<char>, white: bool, file: i32, rank: i32) -> (takes: bool)
    requires
        letters@.len() == 64,
    ensures
        takes == takes_at(letters@, white, file as int, rank as int),
{
    0 <= file && file < 8 && 0 <= rank && rank < 8 && is_of_color(
        letters[(rank * 8 + file) as usize],
        !white,
    )
}

fn is_diagonal_open(letters: &Vec<char>, white: bool, file: i32, rank: i32) -> (open: bool)
    requires
        letters@.len() == 64,
        within(file as int, rank as int),
    ensures
        open == diagonal_open(letters@, white, file as int, rank as int),
{
    is_open_to(letters, white, file - 1, rank - 1) || is_open_to(letters, white, file - 1, rank + 1)
        || is_open_to(letters, white, file + 1, rank - 1) || is_open_to(
        letters,
        white,
        file + 1,
        rank + 1,
    )
}

fn is_straight_open(letters: &Vec<char>, white: bool, file: i32, rank: i32) -> (open: bool)
    requires
        letters@.len() == 64,
        within(file as int, rank as int),
    ensures
        open == straight_open(letters@, white, file as int, rank as int),
{
    is_open_to(letters, white, file - 1, rank) || is_open_to(letters, white, file + 1, rank)
        || is_open_to(letters, white, file, rank - 1) || is_open_to(
        letters,
        white,
        file,
        rank + 1,
    )
}

fn is_leap_open(letters: &Vec<char>, white: bool, file: i32, rank: i32) -> (open: bool)
    requires
        letters@.len() == 64,
        within(file as int, rank as int),
    ensures
        open == leap_open(letters@, white, file as int, rank as int),
{
    is_open_to(letters, white, file - 2, rank - 1) || is_open_to(letters, white, file - 2, rank + 1)
        || is_open_to(letters, white, file - 1, rank - 2) || is_open_to(
        letters,
        white,
        file - 1,
        rank + 2,
    ) || is_open_to(letters, white, file + 1, rank - 2) || is_open_to(
        letters,
        white,
        file + 1,
        rank + 2,
    ) || is_open_to(letters, white, file + 2, rank - 1) || is_open_to(
        letters,
        white,
        file + 2,
        rank + 1,
    )
}

fn is_pawn_open(letters: &Vec<char>, white: bool, file: i32, rank: i32) -> (open: bool)
    requires
        letters@.len() == 64,
        within(file as int, rank as int),
    ensures
        open == pawn_open(letters@, white, file as int, rank as int),
{
    let ahead: i32 = if white {
        rank + 1
    } else {
        rank - 1
    };
    rank == 0 || rank == 7 || (is_open_to(letters, white, file, ahead) && is_open_to(
        letters,
        !white,
        file,
        ahead,
    )) || can_take_at(letters, white, file - 1, ahead) || can_take_at(
        letters,
        white,
        file + 1,
        ahead,
    )
}

fn can_step(letters: &Vec<char>, white: bool, square: usize) -> (steps: bool)
    requires
        letters@.len() == 64,
        square < 64,
    ensures
        steps == has_a_step(letters@, white, square as int),
{
    let c: char = letters[square];
    if !is_of_color(c, white) {
        return false;
    }
    let file: i32 = (square % 8) as i32;
    let rank: i32 = (square / 8) as i32;
    if c == 'p' || c == 'P' {
        is_pawn_open(letters, white, file, rank)
    } else if c == 'n' || c == 'N' {
        is_leap_open(letters, white, file, rank)
    } else if c == 'b' || c == 'B' {
        is_diagonal_open(letters, white, file, rank)
    } else if c == 'r' || c == 'R' {
        is_straight_open(letters, white, file, rank)
    } else if c == 'q' || c == 'Q' {
        is_diagonal_open(letters, white, file, rank) || is_straight_open(
            letters,
            white,
            file,
            rank,
        )
    } else {
        true
    }
}

fn count_movers(letters: &Vec<char>, white: bool) -> (n: u32)
    requires
        letters@.len() == 64,
    ensures
        n == movers(letters@, white, 64),
        n <= 64,
{
    let mut n: u32 = 0;
    let mut square: usize = 0;
    while square < 64
        invariant
            square <= 64,
            n <= square,
            letters@.len() == 64,
            n == movers(letters@, white, square as int),
        decreases 64 - square,
    {
        if can_step(letters, white, square) {
            n = n + 1;
        }
        square = square + 1;
    }
    n
}

/// What the boards of a FEN hold on a square.
pub(crate) proof fn lemma_squares(fen: Seq<char>, square: int)
    requires
        0 <= square < 64,
    ensures
        has_bit(color_board_of(fen, true), square) == of_color(letter_at(fen, square), true),
        has_bit(color_board_of(fen, false), square) == of_color(letter_at(fen, square), false),
        has_bit(piece_board_of(fen, 0), square) == (kind_letter(letter_at(fen, square)) == Some(
            0int,
        )),
{
    lemma_marked(color_marks(fen, true), 64, square);
    lemma_marked(color_marks(fen, false), 64, square);
    lemma_marked(piece_marks(fen, 0), 64, square);
}

/// How many bits of a board are set.
pub fn count_bits(board: u64) -> (n: u32)
    ensures
        n == bits_set(board, 64),
        n <= 64,
{
    let mut n: u32 = 0;
    let mut square: u64 = 0;
    while square < 64
        invariant
            square <= 64,
            n <= square,
            n == bits_set(board, square as int),
        decreases 64 - square,
    {
        if board & (1u64 << square) != 0 {
            n = n + 1;
        }
        square = square + 1;
    }
    n
}

/// A square is named by the letter of its file and the digit of its rank, and a move by its two
/// squares, first the one that it starts from; the letter of a promotion comes last.
pub proof fn squares_are_named_by_file_and_rank(m: Move)
    requires
        m.on_board(),
    ensures
        m.uci_spec().len() == if m.promotion is None {
            4int
        } else {
            5
        },
        m.uci_spec()[0] as int == 'a' as int + m.source % 8,
        m.uci_spec()[1] as int == '1' as int + m.source / 8,
        m.uci_spec()[2] as int == 'a' as int + m.dest % 8,
        m.uci_spec()[3] as int == '1' as int + m.dest / 8,
        m.promotion == Some(Kind::Knight) ==> m.uci_spec()[4] == 'n',
        m.promotion == Some(Kind::Bishop) ==> m.uci_spec()[4] == 'b',
        m.promotion == Some(Kind::Rook) ==> m.uci_spec()[4] == 'r',
        m.promotion == Some(Kind::Queen) ==> m.uci_spec()[4] == 'q',
{
}

/// Whether a text writes out the letters of a board: rank by rank from the eighth down, file by
/// file from the first on, a digit one for each empty square and a slash between two ranks.
pub open spec fn writes_out(text: Seq<char>, letters: Seq<char>) -> bool {
    &&& text.len() == 71
    &&& forall|rank: int, file: int|
        #![trigger text[(7 - rank) * 9 + file]]
        0 <= rank < 8 && 0 <= file < 8 ==> text[(7 - rank) * 9 + file] == if letters[rank * 8
            + file] == ' ' {
            '1'
        } else {
            letters[rank * 8 + file]
        }
    &&& forall|rank: int| 1 <= rank < 8 ==> #[trigger] text[(7 - rank) * 9 + 8] == '/'
}

/// The letters that are read up to a place of a board: those of the ranks above, and of the files
/// before it.
spec fn read_up_to(letters: Seq<char>, rank: int, file: int) -> Seq<char> {
    Seq::new(
        64,
        |square: int|
            if square / 8 > rank || square / 8 == rank && square % 8 < file {
                letters[square]
            } else {
                ' '
            },
    )
}

proof fn lemma_one_more_square(letters: Seq<char>, rank: int, file: int)
    requires
        letters.len() == 64,
        0 <= rank < 8,
        0 < file <= 8,
    ensures
        ({
            let before = read_up_to(letters, rank, file - 1);
            let at = rank * 8 + (file - 1);
            read_up_to(letters, rank, file) == if letters[at] == ' ' {
                before
            } else {
                before.update(at, letters[at])
            }
        }),
{
    let before = read_up_to(letters, rank, file - 1);
    let after = read_up_to(letters, rank, file);
    let at = rank * 8 + (file - 1);
    assert(before.len() == 64 && after.len() == 64);
    assert forall|square: int| 0 <= square < 64 && square != at implies after[square]
        == before[square] by {
        assert(square / 8 == rank && square % 8 == file - 1 ==> square == at);
    }
    assert(at / 8 == rank && at % 8 == file - 1);
    assert(before[at] == ' ' && after[at] == letters[at]);
    assert(after =~= if letters[at] == ' ' {
        before
    } else {
        before.update(at, letters[at])
    });
}

proof fn lemma_boards_are_read(text: Seq<char>, letters: Seq<char>, rank: int, file: int)
    requires
        letters.len() == 64,
        forall|square: int|
            0 <= square < 64 ==> letters[square] == ' ' || is_piece(#[trigger] letters[square]),
        writes_out(text, letters),
        0 <= rank < 8,
        0 <= file <= 8,
    ensures
        scan(text, (7 - rank) * 9 + file) == (Scan {
            rank,
            file: file % 8,
            letters: read_up_to(letters, rank, file),
        }),
    decreases 7 - rank, file,
{
    let end = (7 - rank) * 9 + file;
    if file > 0 {
        lemma_boards_are_read(text, letters, rank, file - 1);
        let at = rank * 8 + (file - 1);
        let c = text[(7 - rank) * 9 + (file - 1)];
        assert(is_piece(letters[at]) || letters[at] == ' ');
        assert(end - 1 == (7 - rank) * 9 + (file - 1));
        assert(c == if letters[at] == ' ' {
            '1'
        } else {
            letters[at]
        });
        lemma_one_more_square(letters, rank, file);
        assert((file - 1) % 8 == file - 1);
        assert(('1' as u32 - 0x30) == 1);
        assert(!is_piece('1') && !is_piece('/') && !is_piece(' '));
    } else if rank < 7 {
        lemma_boards_are_read(text, letters, rank + 1, 8);
        assert(text[(7 - (rank + 1)) * 9 + 8] == '/');
        assert(end - 1 == (7 - (rank + 1)) * 9 + 8);
        assert((rank + 1 + 7) % 8 == rank);
        assert(read_up_to(letters, rank, 0) =~= read_up_to(letters, rank + 1, 8));
    } else {
        assert(end == 0);
        assert(read_up_to(letters, 7, 0) =~= Seq::new(64, |square: int| ' '));
    }
}

/// A board that is written out is read as what it was: from the eighth rank down, and on each
/// rank from the first file on.
pub proof fn boards_are_read_as_written(text: Seq<char>, letters: Seq<char>)
    requires
        letters.len() == 64,
        forall|square: int|
            0 <= square < 64 ==> letters[square] == ' ' || seq![
                'P', 'N', 'B', 'R', 'Q', 'K', 'p', 'n', 'b', 'r', 'q', 'k',
            ].contains(#[trigger] letters[square]),
        writes_out(text, letters),
    ensures
        scan(text, text.len() as int).letters == letters,
{
    assert forall|square: int| 0 <= square < 64 implies letters[square] == ' ' || is_piece(
        #[trigger] letters[square],
    ) by {
        assert(letters[square] == letters[square]);
    }
    lemma_boards_are_read(text, letters, 0, 8);
    assert(read_up_to(letters, 0, 8) =~= letters);
}

/// A digit stands for as many empty squares: it is read as the digit below it and a one.
pub proof fn digits_count_empty_squares(front: Seq<char>, digit: char, less: char)
    requires
        '2' <= digit && digit <= '8',
        less as u32 + 1 == digit as u32,
    ensures
        scan(front.push(digit), front.len() as int + 1) == scan(
            front.push(less).push('1'),
            front.len() as int + 2,
        ),
{
    let end = front.len() as int;
    let one = front.push(digit);
    let two = front.push(less).push('1');
    lemma_scan_of_the_front(one, front, end);
    lemma_scan_of_the_front(two, front, end);
    let before = scan(front, end);
    let between = scan(two, end + 1);
    assert(one[end] == digit);
    assert(two[end] == less);
    assert(two[end + 1] == '1');
    lemma_steps_add_up(before.file, less as int - 0x30);
    assert(between == (Scan { file: (before.file + (less as u32 - 0x30)) % 8, ..before }));
    assert(scan(two, end + 2) == (Scan { file: (between.file + 1) % 8, ..between }));
    assert(scan(one, end + 1) == (Scan { file: (before.file + (digit as u32 - 0x30)) % 8, ..before }));
}

proof fn lemma_steps_add_up(file: int, n: int)
    ensures
        ((file + n) % 8 + 1) % 8 == (file + (n + 1)) % 8,
{
}

proof fn lemma_scan_of_the_front(text: Seq<char>, front: Seq<char>, end: int)
    requires
        0 <= end <= front.len() <= text.len(),
        forall|i: int| 0 <= i < end ==> #[trigger] text[i] == front[i],
    ensures
        scan(text, end) == scan(front, end),
    decreases end,
{
    if end > 0 {
        lemma_scan_of_the_front(text, front, end - 1);
        assert(text[end - 1] == front[end - 1]);
    }
}

/// How far two numbers are apart.
pub open spec fn apart(a: int, b: int) -> int {
    if a < b {
        b - a
    } else {
        a - b
    }
}

/// Whether two squares are so many files and ranks apart.
pub open spec fn squares_apart(a: int, b: int, files: int, ranks: int) -> bool {
    apart(a % 8, b % 8) == files && apart(a / 8, b / 8) == ranks
}

/// Whether a piece of a colour could go from a square to one so many files and ranks away, one
/// way or the other, as no piece of its colour stands there.
pub open spec fn can_reach(
    letters: Seq<char>,
    white: bool,
    square: int,
    files: int,
    ranks: int,
) -> bool {
    exists|to: int|
        0 <= to < 64 && squares_apart(square, to, files, ranks) && !of_color(
            #[trigger] letters[to],
            white,
        )
}

proof fn lemma_reaches(
    letters: Seq<char>,
    white: bool,
    square: int,
    files: int,
    ranks: int,
)
    requires
        letters.len() == 64,
        0 <= square < 64,
        0 <= files <= 2,
        0 <= ranks <= 2,
    ensures
        can_reach(letters, white, square, files, ranks) <==> ({
            let file = square % 8;
            let rank = square / 8;
            ||| open_to(letters, white, file - files, rank - ranks)
            ||| open_to(letters, white, file - files, rank + ranks)
            ||| open_to(letters, white, file + files, rank - ranks)
            ||| open_to(letters, white, file + files, rank + ranks)
        }),
{
    let file = square % 8;
    let rank = square / 8;
    lemma_reaches_one(letters, white, square, file - files, rank - ranks, files, ranks);
    lemma_reaches_one(letters, white, square, file - files, rank + ranks, files, ranks);
    lemma_reaches_one(letters, white, square, file + files, rank - ranks, files, ranks);
    lemma_reaches_one(letters, white, square, file + files, rank + ranks, files, ranks);
    if can_reach(letters, white, square, files, ranks) {
        let to = choose|to: int|
            0 <= to < 64 && squares_apart(square, to, files, ranks) && !of_color(
                #[trigger] letters[to],
                white,
            );
        assert((to / 8) * 8 + to % 8 == to);
        assert(open_to(letters, white, to % 8, to / 8));
    }
}

proof fn lemma_reaches_one(
    letters: Seq<char>,
    white: bool,
    square: int,
    file: int,
    rank: int,
    files: int,
    ranks: int,
)
    requires
        0 <= square < 64,
        0 <= files <= 2,
        0 <= ranks <= 2,
        apart(square % 8, file) == files,
        apart(square / 8, rank) == ranks,
    ensures
        open_to(letters, white, file, rank) ==> can_reach(letters, white, square, files, ranks),
{
    if open_to(letters, white, file, rank) {
        let to = rank * 8 + file;
        assert(to % 8 == file && to / 8 == rank);
        assert(!of_color(letters[to], white));
    }
}

/// Where the pieces step to: a knight two squares one way and one the other, a bishop along a
/// diagonal, a rook along a file or a rank, and a queen along any of these, each to a square
/// where no piece of its colour stands. A piece of the other colour has no step.
pub proof fn pieces_step_their_own_way(letters: Seq<char>, white: bool, square: int)
    requires
        letters.len() == 64,
        0 <= square < 64,
    ensures
        ({
            let piece = letters[square];
            let own = has_a_step(letters, white, square);
            &&& piece == (if white {
                'N'
            } else {
                'n'
            }) ==> own == (can_reach(letters, white, square, 1, 2) || can_reach(
                letters,
                white,
                square,
                2,
                1,
            ))
            &&& piece == (if white {
                'B'
            } else {
                'b'
            }) ==> own == can_reach(letters, white, square, 1, 1)
            &&& piece == (if white {
                'R'
            } else {
                'r'
            }) ==> own == (can_reach(letters, white, square, 0, 1) || can_reach(
                letters,
                white,
                square,
                1,
                0,
            ))
            &&& piece == (if white {
                'Q'
            } else {
                'q'
            }) ==> own == (can_reach(letters, white, square, 0, 1) || can_reach(
                letters,
                white,
                square,
                1,
                0,
            ) || can_reach(letters, white, square, 1, 1))
            &&& piece == (if white {
                'K'
            } else {
                'k'
            }) ==> own
            &&& own ==> of_color(piece, white)
        }),
{
    lemma_reaches(letters, white, square, 1, 2);
    lemma_reaches(letters, white, square, 2, 1);
    lemma_reaches(letters, white, square, 1, 1);
    lemma_reaches(letters, white, square, 0, 1);
    lemma_reaches(letters, white, square, 1, 0);
}

/// Pawns step away from their own side: a white one up the board and a black one down. The
/// square before a pawn has to be empty, and on the squares beside that one it takes a piece of
/// the other colour.
pub proof fn pawns_step_away_from_their_side(letters: Seq<char>, white: bool, square: int)
    requires
        letters.len() == 64,
        8 <= square < 56,
        letters[square] == if white {
            'P'
        } else {
            'p'
        },
    ensures
        ({
            let ahead = if white {
                square + 8
            } else {
                square - 8
            };
            has_a_step(letters, white, square) <==> {
                ||| !is_piece(letters[ahead])
                ||| square % 8 > 0 && of_color(letters[ahead - 1], !white)
                ||| square % 8 < 7 && of_color(letters[ahead + 1], !white)
            }
        }),
{
}

/// The parts of a text are what stands between its spaces: the first one is what comes before the
/// first space, and the others are those of the rest. Without a space there is one part alone.
pub proof fn parts_stand_between_spaces(first: Seq<char>, rest: Seq<char>, n: nat)
    requires
        forall|i: int| 0 <= i < first.len() ==> #[trigger] first[i] != ' ',
    ensures
        space_part(first.push(' ') + rest, 0) == first,
        space_part(first.push(' ') + rest, n + 1) == space_part(rest, n),
        space_part(first, 0) == first,
        space_part(first, n + 1) == Seq::<char>::empty(),
{
    let text = first.push(' ') + rest;
    lemma_space_is_first(text, 0, first.len() as int);
    assert(text.take(first.len() as int) =~= first);
    assert(text.skip(first.len() as int + 1) =~= rest);
    lemma_space_is_first(first, 0, first.len() as int);
    assert(first.take(first.len() as int) =~= first);
}

proof fn lemma_space_is_first(text: Seq<char>, from: int, end: int)
    requires
        0 <= from <= end <= text.len(),
        forall|i: int| from <= i < end ==> #[trigger] text[i] != ' ',
        end < text.len() ==> text[end] == ' ',
    ensures
        first_space(text, from) == end,
    decreases end - from,
{
    if from < end {
        assert(text[from] != ' ');
        lemma_space_is_first(text, from + 1, end);
    }
}

/// A move can be made in a position that is accepted, from a square with a piece on it. The king of
/// the side that has moved last neither moves nor is taken.
pub proof fn moves_are_made_with_a_piece(fen: Seq<char>, m: Move)
    requires
        fen_accepted(fen),
        m.source < 64,
        m.dest < 64,
    ensures
        ({
            let source = letter_at(fen, m.source as int);
            let dest = letter_at(fen, m.dest as int);
            let white = space_part(fen, 1) == seq!['w'] || space_part(fen, 1) == seq!['W'];
            &&& can_be_made(fen, m) <==> {
                &&& source == 'P' || source == 'N' || source == 'B' || source == 'R' || source == 'Q'
                    || source == 'K' || source == 'p' || source == 'n' || source == 'b' || source
                    == 'r' || source == 'q' || source == 'k'
                &&& white ==> source != 'k' && dest != 'k'
                &&& !white ==> source != 'K' && dest != 'K'
            }
        }),
{
}

/// Moving pieces have eighteen places for either side, and two of them are left for pawns that take
/// in passing where the side to move has a pawn that could.
pub proof fn moving_pieces_have_their_places(fen: Seq<char>)
    ensures
        ({
            let white = movers(letters_of(fen), true, 64);
            let black = movers(letters_of(fen), false, 64);
            &&& white > 18 || black > 18 ==> !few_pieces(fen)
            &&& white <= 16 && black <= 16 ==> few_pieces(fen)
            &&& white <= 18 && black <= 18 && !en_passant_of(fen) ==> few_pieces(fen)
            &&& en_passant_of(fen) && white_to_move_of(fen) && white > 16 ==> !few_pieces(fen)
            &&& en_passant_of(fen) && !white_to_move_of(fen) && black > 16 ==> !few_pieces(fen)
        }),
{
}

/// Letters stand for kinds of pieces in either case; capital ones are white.
pub proof fn letters_stand_for_pieces(c: char)
    ensures
        kind_letter(c) == Some(0int) <==> c == 'P' || c == 'p',
        kind_letter(c) == Some(1int) <==> c == 'N' || c == 'n',
        kind_letter(c) == Some(2int) <==> c == 'B' || c == 'b',
        kind_letter(c) == Some(3int) <==> c == 'R' || c == 'r',
        kind_letter(c) == Some(4int) <==> c == 'Q' || c == 'q',
        kind_letter(c) == Some(5int) <==> c == 'K' || c == 'k',
        of_color(c, true) <==> is_piece(c) && 'A' <= c && c <= 'Z',
        of_color(c, false) <==> is_piece(c) && 'a' <= c && c <= 'z',
{
}

/// The boards of a FEN have a bit for a square exactly where its letter says so.
pub proof fn boards_show_the_letters(fen: Seq<char>, square: int, kind: int)
    requires
        0 <= square < 64,
        0 <= kind < 6,
    ensures
        ({
            let c = letter_at(fen, square);
            let bit = 1u64 << square as u64;
            &&& color_board_of(fen, true) & bit != 0 <==> seq!['P', 'N', 'B', 'R', 'Q', 'K'].contains(
                c,
            )
            &&& color_board_of(fen, false) & bit != 0 <==> seq!['p', 'n', 'b', 'r', 'q', 'k'].contains(
                c,
            )
            &&& piece_board_of(fen, kind) & bit != 0 <==> c == seq!['P', 'N', 'B', 'R', 'Q', 'K'][kind]
                || c == seq!['p', 'n', 'b', 'r', 'q', 'k'][kind]
        }),
{
    lemma_marked(color_marks(fen, true), 64, square);
    lemma_marked(color_marks(fen, false), 64, square);
    lemma_marked(piece_marks(fen, kind), 64, square);
    let c = letter_at(fen, square);
    let white = seq!['P', 'N', 'B', 'R', 'Q', 'K'];
    let black = seq!['p', 'n', 'b', 'r', 'q', 'k'];
    if kind_letter(c) is Some {
        let k = kind_letter(c)->0;
        assert(white[k] == c || black[k] == c);
    }
    assert(white.contains(c) <==> white[0] == c || white[1] == c || white[2] == c || white[3] == c
        || white[4] == c || white[5] == c);
    assert(black.contains(c) <==> black[0] == c || black[1] == c || black[2] == c || black[3] == c
        || black[4] == c || black[5] == c);
}

} // verus!
