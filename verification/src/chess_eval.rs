//! What a chess position is worth at first sight, and how a network sees it.
use vstd::prelude::*;
use vstd::string::*;
use crate::opponent::{identity, is_permutation, order, stable_order, identity_order};
use crate::position::{
    Kind, Move, Position, after_move_of, color_board_of, has_bit, legal_moves_of,
    en_passant_of, is_piece, is_white_piece, kind_letter, lemma_squares, letter_at,
    passing_replies_of, piece_board_of, playable_fen, space_part, white_to_move_of,
};
use crate::single::Single;
use crate::text::{characters, field, number_or_zero, read_number, skip_run};

verus! {

/// The value of a piece in hundredths of a pawn.
pub open spec fn piece_value_spec(kind: Kind) -> int {
    match kind {
        Kind::Pawn => 100,
        Kind::Knight => 320,
        Kind::Bishop => 330,
        Kind::Rook => 500,
        Kind::Queen => 900,
        Kind::King => 0,
    }
}

/// The value of a piece in hundredths of a pawn.
pub fn piece_value(kind: Kind) -> (value: i32)
    ensures
        value == piece_value_spec(kind),
{
    match kind {
        Kind::Pawn => 100,
        Kind::Knight => 320,
        Kind::Bishop => 330,
        Kind::Rook => 500,
        Kind::Queen => 900,
        Kind::King => 0,
    }
}

/// Where pieces stand well, as white sees it from the eighth rank down.
pub open spec fn pst_spec(kind: Kind) -> Seq<int> {
    match kind {
        Kind::Pawn => seq![
            0, 0, 0, 0, 0, 0, 0, 0,
            50, 50, 50, 50, 50, 50, 50, 50,
            10, 10, 20, 30, 30, 20, 10, 10,
            5, 5, 10, 25, 25, 10, 5, 5,
            0, 0, 0, 20, 20, 0, 0, 0,
            5, -5, -10, 0, 0, -10, -5, 5,
            5, 10, 10, -20, -20, 10, 10, 5,
            0, 0, 0, 0, 0, 0, 0, 0,
        ],
        Kind::Knight => seq![
            -50, -40, -30, -30, -30, -30, -40, -50,
            -40, -20, 0, 0, 0, 0, -20, -40,
            -30, 0, 10, 15, 15, 10, 0, -30,
            -30, 5, 15, 20, 20, 15, 5, -30,
            -30, 0, 15, 20, 20, 15, 0, -30,
            -30, 5, 10, 15, 15, 10, 5, -30,
            -40, -20, 0, 5, 5, 0, -20, -40,
            -50, -40, -30, -30, -30, -30, -40, -50,
        ],
        Kind::Bishop => seq![
            -20, -10, -10, -10, -10, -10, -10, -20,
            -10, 0, 0, 0, 0, 0, 0, -10,
            -10, 0, 5, 10, 10, 5, 0, -10,
            -10, 5, 5, 10, 10, 5, 5, -10,
            -10, 0, 10, 10, 10, 10, 0, -10,
            -10, 10, 10, 10, 10, 10, 10, -10,
            -10, 5, 0, 0, 0, 0, 5, -10,
            -20, -10, -10, -10, -10, -10, -10, -20,
        ],
        Kind::Rook => seq![
            0, 0, 0, 0, 0, 0, 0, 0,
            5, 10, 10, 10, 10, 10, 10, 5,
            -5, 0, 0, 0, 0, 0, 0, -5,
            -5, 0, 0, 0, 0, 0, 0, -5,
            -5, 0, 0, 0, 0, 0, 0, -5,
            -5, 0, 0, 0, 0, 0, 0, -5,
            -5, 0, 0, 0, 0, 0, 0, -5,
            0, 0, 0, 5, 5, 0, 0, 0,
        ],
        Kind::Queen => seq![
            -20, -10, -10, -5, -5, -10, -10, -20,
            -10, 0, 0, 0, 0, 0, 0, -10,
            -10, 0, 5, 5, 5, 5, 0, -10,
            -5, 0, 5, 5, 5, 5, 0, -5,
            0, 0, 5, 5, 5, 5, 0, -5,
            -10, 5, 5, 5, 5, 5, 0, -10,
            -10, 0, 5, 0, 0, 0, 0, -10,
            -20, -10, -10, -5, -5, -10, -10, -20,
        ],
        Kind::King => seq![
            -30, -40, -40, -50, -50, -40, -40, -30,
            -30, -40, -40, -50, -50, -40, -40, -30,
            -30, -40, -40, -50, -50, -40, -40, -30,
            -30, -40, -40, -50, -50, -40, -40, -30,
            -20, -30, -30, -40, -40, -30, -30, -20,
            -10, -20, -20, -20, -20, -20, -20, -10,
            20, 20, 0, 0, 0, 0, 20, 20,
            20, 30, 10, 0, 0, 10, 30, 20,
        ],
    }
}

/// The entries of a table as numbers.
pub open spec fn numbers(table: Seq<i32>) -> Seq<int> {
    table.map_values(|v: i32| v as int)
}

/// The table of a kind of piece, as white sees it from the eighth rank down.
pub fn pst(kind: Kind) -> (table: [i32; 64])
    ensures
        numbers(table@) == pst_spec(kind),
{
    let table: [i32; 64] = match kind {
        Kind::Pawn => [
            0, 0, 0, 0, 0, 0, 0, 0,
            50, 50, 50, 50, 50, 50, 50, 50,
            10, 10, 20, 30, 30, 20, 10, 10,
            5, 5, 10, 25, 25, 10, 5, 5,
            0, 0, 0, 20, 20, 0, 0, 0,
            5, -5, -10, 0, 0, -10, -5, 5,
            5, 10, 10, -20, -20, 10, 10, 5,
            0, 0, 0, 0, 0, 0, 0, 0,
        ],
        Kind::Knight => [
            -50, -40, -30, -30, -30, -30, -40, -50,
            -40, -20, 0, 0, 0, 0, -20, -40,
            -30, 0, 10, 15, 15, 10, 0, -30,
            -30, 5, 15, 20, 20, 15, 5, -30,
            -30, 0, 15, 20, 20, 15, 0, -30,
            -30, 5, 10, 15, 15, 10, 5, -30,
            -40, -20, 0, 5, 5, 0, -20, -40,
            -50, -40, -30, -30, -30, -30, -40, -50,
        ],
        Kind::Bishop => [
            -20, -10, -10, -10, -10, -10, -10, -20,
            -10, 0, 0, 0, 0, 0, 0, -10,
            -10, 0, 5, 10, 10, 5, 0, -10,
            -10, 5, 5, 10, 10, 5, 5, -10,
            -10, 0, 10, 10, 10, 10, 0, -10,
            -10, 10, 10, 10, 10, 10, 10, -10,
            -10, 5, 0, 0, 0, 0, 5, -10,
            -20, -10, -10, -10, -10, -10, -10, -20,
        ],
        Kind::Rook => [
            0, 0, 0, 0, 0, 0, 0, 0,
            5, 10, 10, 10, 10, 10, 10, 5,
            -5, 0, 0, 0, 0, 0, 0, -5,
            -5, 0, 0, 0, 0, 0, 0, -5,
            -5, 0, 0, 0, 0, 0, 0, -5,
            -5, 0, 0, 0, 0, 0, 0, -5,
            -5, 0, 0, 0, 0, 0, 0, -5,
            0, 0, 0, 5, 5, 0, 0, 0,
        ],
        Kind::Queen => [
            -20, -10, -10, -5, -5, -10, -10, -20,
            -10, 0, 0, 0, 0, 0, 0, -10,
            -10, 0, 5, 5, 5, 5, 0, -10,
            -5, 0, 5, 5, 5, 5, 0, -5,
            0, 0, 5, 5, 5, 5, 0, -5,
            -10, 5, 5, 5, 5, 5, 0, -10,
            -10, 0, 5, 0, 0, 0, 0, -10,
            -20, -10, -10, -5, -5, -10, -10, -20,
        ],
        Kind::King => [
            -30, -40, -40, -50, -50, -40, -40, -30,
            -30, -40, -40, -50, -50, -40, -40, -30,
            -30, -40, -40, -50, -50, -40, -40, -30,
            -30, -40, -40, -50, -50, -40, -40, -30,
            -20, -30, -30, -40, -40, -30, -30, -20,
            -10, -20, -20, -20, -20, -20, -20, -10,
            20, 20, 0, 0, 0, 0, 20, 20,
            20, 30, 10, 0, 0, 10, 30, 20,
        ],
    };
    assert(numbers(table@) =~= pst_spec(kind));
    table
}

/// The entry of a table for a square: the first row is the eighth rank for white and the
/// first for black.
pub open spec fn pst_entry(table: Seq<int>, square: int, white: bool) -> int {
    let rank = square / 8;
    let file = square % 8;
    let row = if white {
        7 - rank
    } else {
        rank
    };
    table[row * 8 + file]
}

/// The entry of a table for a piece of a colour on a square.
pub fn pst_value(table: &[i32; 64], square: usize, white: bool) -> (value: i32)
    requires
        square < 64,
    ensures
        value == pst_entry(numbers(table@), square as int, white),
{
    let rank: usize = square / 8;
    let file: usize = square % 8;
    let row: usize = if white {
        7 - rank
    } else {
        rank
    };
    table[row * 8 + file]
}

/// What the pieces of one kind and colour on the first `n` squares add up to, in material
/// and by place.
pub open spec fn kind_sum(board: u64, kind: Kind, white: bool, n: int) -> (int, int)
    decreases n,
{
    if n <= 0 {
        (0, 0)
    } else {
        let (material, positional) = kind_sum(board, kind, white, n - 1);
        if has_bit(board, n - 1) {
            (
                material + piece_value_spec(kind),
                positional + pst_entry(pst_spec(kind), n - 1, white),
            )
        } else {
            (material, positional)
        }
    }
}

/// The kind at a place in the order pawn, knight, bishop, rook, queen, king.
pub open spec fn kind_at(k: int) -> Kind {
    if k == 0 {
        Kind::Pawn
    } else if k == 1 {
        Kind::Knight
    } else if k == 2 {
        Kind::Bishop
    } else if k == 3 {
        Kind::Rook
    } else if k == 4 {
        Kind::Queen
    } else {
        Kind::King
    }
}

/// The material and the placement of the first `k` kinds, white's less black's.
pub open spec fn balance(pieces: Seq<u64>, white: u64, black: u64, k: int) -> (int, int)
    decreases k,
{
    if k <= 0 {
        (0, 0)
    } else {
        let (material, positional) = balance(pieces, white, black, k - 1);
        let kind = kind_at(k - 1);
        let ours = kind_sum(pieces[k - 1] & white, kind, true, 64);
        let theirs = kind_sum(pieces[k - 1] & black, kind, false, 64);
        (material + ours.0 - theirs.0, positional + ours.1 - theirs.1)
    }
}

/// The tables hold small numbers.
proof fn lemma_pst_bounds(kind: Kind, i: int)
    requires
        0 <= i < 64,
    ensures
        -50 <= pst_spec(kind)[i] <= 50,
        pst_spec(kind).len() == 64,
{
}

fn kind_total(board: u64, kind: Kind, white: bool) -> (sums: (i32, i32))
    ensures
        kind_sum(board, kind, white, 64) == (sums.0 as int, sums.1 as int),
        0 <= sums.0 <= 57600,
        -3200 <= sums.1 <= 3200,
{
    let table: [i32; 64] = pst(kind);
    let value: i32 = piece_value(kind);
    let mut material: i32 = 0;
    let mut positional: i32 = 0;
    let mut square: usize = 0;
    while square < 64
        invariant
            square <= 64,
            numbers(table@) == pst_spec(kind),
            value == piece_value_spec(kind),
            kind_sum(board, kind, white, square as int) == (material as int, positional as int),
            0 <= material <= 900 * square,
            -50 * square <= positional <= 50 * square,
        decreases 64 - square,
    {
        let bit: u64 = 1u64 << (square as u64);
        if board & bit != 0 {
            proof {
                let rank = square as int / 8;
                let row = if white {
                    7 - rank
                } else {
                    rank
                };
                lemma_pst_bounds(kind, row * 8 + square as int % 8);
            }
            material = material + value;
            positional = positional + pst_value(&table, square, white);
        }
        square = square + 1;
    }
    (material, positional)
}

/// The material and the placement of all pieces, white's less black's.
pub fn material_and_positional(pieces: &Vec<u64>, white: u64, black: u64) -> (sums: (i32, i32))
    requires
        pieces@.len() == 6,
    ensures
        balance(pieces@, white, black, 6) == (sums.0 as int, sums.1 as int),
{
    let mut material: i32 = 0;
    let mut positional: i32 = 0;
    let mut k: usize = 0;
    while k < 6
        invariant
            k <= 6,
            pieces@.len() == 6,
            balance(pieces@, white, black, k as int) == (material as int, positional as int),
            -57600 * k <= material <= 57600 * k,
            -6400 * k <= positional <= 6400 * k,
        decreases 6 - k,
    {
        let kind: Kind = Kind::at(k);
        assert(kind == kind_at(k as int));
        let ours: (i32, i32) = kind_total(pieces[k] & white, kind, true);
        let theirs: (i32, i32) = kind_total(pieces[k] & black, kind, false);
        material = material + ours.0 - theirs.0;
        positional = positional + ours.1 - theirs.1;
        k = k + 1;
    }
    (material, positional)
}

/// What the evaluation of a position is made of.
#[derive(Clone, Copy, Debug, PartialEq, Eq, Structural)]
pub struct Features {
    pub material: i32,
    pub positional: i32,
    pub white_to_move: bool,
    pub my_moves: usize,
    pub opp_moves: usize,
}

/// What the evaluation of a position is made of.
pub fn features(position: &Position) -> (f: Features)
    requires
        position.wf(),
    ensures
        balance(position.pieces@, position.white, position.black, 6) == (
            f.material as int,
            f.positional as int,
        ),
        f.white_to_move == white_to_move_of(position.fen@),
        f.my_moves == legal_moves_of(position.fen@).len(),
        f.opp_moves == (match passing_replies_of(position.fen@) {
            Some(n) => n,
            None => 0,
        }),
{
    let (material, positional): (i32, i32) = material_and_positional(
        &position.pieces,
        position.white,
        position.black,
    );
    let (my_moves, opp_moves): (usize, usize) = position.mobility();
    Features { material, positional, white_to_move: position.white_to_move, my_moves, opp_moves }
}

/// The material and the placement of the position of a FEN.
pub open spec fn fen_balance(fen: Seq<char>) -> (int, int) {
    balance(
        Seq::new(6, |k: int| piece_board_of(fen, k)),
        color_board_of(fen, true),
        color_board_of(fen, false),
        6,
    )
}

/// The two colours are treated alike: a black piece is placed as well as a white one on
/// the square that mirrors its own.
pub proof fn placement_is_mirrored(table: Seq<int>, square: int)
    requires
        0 <= square < 64,
    ensures
        pst_entry(table, square, true) == pst_entry(
            table,
            (7 - square / 8) * 8 + square % 8,
            false,
        ),
{
}

/// The square that mirrors another one: on the same file, as far from the other side.
pub open spec fn mirror(square: int) -> int {
    (7 - square / 8) * 8 + square % 8
}

/// Whether a board has its pieces where another one has them in the mirror.
#[verifier::opaque]
pub open spec fn mirrored(board: u64, other: u64) -> bool {
    forall|square: int|
        0 <= square < 64 ==> has_bit(other, mirror(square)) == #[trigger] has_bit(board, square)
}

/// What a square adds to the sums of a kind and colour.
spec fn square_share(board: u64, kind: Kind, white: bool, square: int) -> (int, int) {
    if has_bit(board, square) {
        (piece_value_spec(kind), pst_entry(pst_spec(kind), square, white))
    } else {
        (0, 0)
    }
}

/// What the first `n` squares of a rank add to the sums of a kind and colour.
spec fn rank_share(board: u64, kind: Kind, white: bool, rank: int, n: int) -> (int, int)
    decreases n,
{
    if n <= 0 {
        (0, 0)
    } else {
        let before = rank_share(board, kind, white, rank, n - 1);
        let share = square_share(board, kind, white, rank * 8 + n - 1);
        (before.0 + share.0, before.1 + share.1)
    }
}

proof fn lemma_rank(board: u64, kind: Kind, white: bool, rank: int, n: int)
    requires
        0 <= rank < 8,
        0 <= n <= 8,
    ensures
        ({
            let before = kind_sum(board, kind, white, rank * 8);
            let share = rank_share(board, kind, white, rank, n);
            kind_sum(board, kind, white, rank * 8 + n) == (before.0 + share.0, before.1 + share.1)
        }),
    decreases n,
{
    if n > 0 {
        lemma_rank(board, kind, white, rank, n - 1);
    }
}

proof fn lemma_mirrored_rank(board: u64, other: u64, kind: Kind, rank: int, n: int)
    requires
        mirrored(board, other),
        0 <= rank < 8,
        0 <= n <= 8,
    ensures
        rank_share(board, kind, true, rank, n) == rank_share(other, kind, false, 7 - rank, n),
    decreases n,
{
    reveal(mirrored);
    if n > 0 {
        lemma_mirrored_rank(board, other, kind, rank, n - 1);
        let square = rank * 8 + n - 1;
        assert(square / 8 == rank && square % 8 == n - 1);
        assert(mirror(square) == (7 - rank) * 8 + n - 1);
        assert(has_bit(other, mirror(square)) == has_bit(board, square));
        placement_is_mirrored(pst_spec(kind), square);
    }
}

proof fn lemma_mirrored_sum(board: u64, other: u64, kind: Kind)
    requires
        mirrored(board, other),
    ensures
        kind_sum(board, kind, true, 64) == kind_sum(other, kind, false, 64),
{
    lemma_rank(board, kind, true, 0, 8);
    lemma_rank(board, kind, true, 1, 8);
    lemma_rank(board, kind, true, 2, 8);
    lemma_rank(board, kind, true, 3, 8);
    lemma_rank(board, kind, true, 4, 8);
    lemma_rank(board, kind, true, 5, 8);
    lemma_rank(board, kind, true, 6, 8);
    lemma_rank(board, kind, true, 7, 8);
    lemma_rank(other, kind, false, 0, 8);
    lemma_rank(other, kind, false, 1, 8);
    lemma_rank(other, kind, false, 2, 8);
    lemma_rank(other, kind, false, 3, 8);
    lemma_rank(other, kind, false, 4, 8);
    lemma_rank(other, kind, false, 5, 8);
    lemma_rank(other, kind, false, 6, 8);
    lemma_rank(other, kind, false, 7, 8);
    lemma_mirrored_rank(board, other, kind, 0, 8);
    lemma_mirrored_rank(board, other, kind, 1, 8);
    lemma_mirrored_rank(board, other, kind, 2, 8);
    lemma_mirrored_rank(board, other, kind, 3, 8);
    lemma_mirrored_rank(board, other, kind, 4, 8);
    lemma_mirrored_rank(board, other, kind, 5, 8);
    lemma_mirrored_rank(board, other, kind, 6, 8);
    lemma_mirrored_rank(board, other, kind, 7, 8);
}

proof fn lemma_mirrored_both(a: u64, b: u64, c: u64, d: u64)
    requires
        mirrored(a, b),
        mirrored(c, d),
    ensures
        mirrored(a & c, b & d),
        mirrored(b & d, a & c),
{
    reveal(mirrored);
    assert forall|square: int| 0 <= square < 64 implies has_bit(b & d, mirror(square))
        == #[trigger] has_bit(a & c, square) by {
        lemma_both(a, c, square);
        lemma_both(b, d, mirror(square));
        assert(has_bit(b, mirror(square)) == has_bit(a, square));
        assert(has_bit(d, mirror(square)) == has_bit(c, square));
    }
    assert forall|square: int| 0 <= square < 64 implies has_bit(a & c, mirror(square))
        == #[trigger] has_bit(b & d, square) by {
        let other = mirror(square);
        assert(mirror(other) == square);
        assert(has_bit(b & d, mirror(other)) == has_bit(a & c, other));
    }
}

proof fn lemma_both(a: u64, b: u64, square: int)
    requires
        0 <= square < 64,
    ensures
        has_bit(a & b, square) == (has_bit(a, square) && has_bit(b, square)),
{
    let k = square as u64;
    assert(((a & b) & (1u64 << k) != 0) == (a & (1u64 << k) != 0 && b & (1u64 << k) != 0))
        by (bit_vector)
        requires
            k < 64,
    ;
}

/// A position in the mirror, with the colours exchanged, has the opposite balance.
pub proof fn mirrored_position_has_opposite_balance(
    pieces: Seq<u64>,
    white: u64,
    black: u64,
    other_pieces: Seq<u64>,
    other_white: u64,
    other_black: u64,
    k: int,
)
    requires
        0 <= k <= 6,
        forall|j: int| 0 <= j < 6 ==> mirrored(#[trigger] pieces[j], other_pieces[j]),
        mirrored(white, other_black),
        mirrored(black, other_white),
    ensures
        ({
            let (material, positional) = balance(pieces, white, black, k);
            balance(other_pieces, other_white, other_black, k) == (-material, -positional)
        }),
    decreases k,
{
    if k > 0 {
        mirrored_position_has_opposite_balance(
            pieces,
            white,
            black,
            other_pieces,
            other_white,
            other_black,
            k - 1,
        );
        assert(mirrored(pieces[k - 1], other_pieces[k - 1]));
        lemma_mirrored_both(pieces[k - 1], other_pieces[k - 1], white, other_black);
        lemma_mirrored_both(pieces[k - 1], other_pieces[k - 1], black, other_white);
        lemma_mirrored_sum(
            pieces[k - 1] & white,
            other_pieces[k - 1] & other_black,
            kind_at(k - 1),
        );
        lemma_mirrored_sum(
            other_pieces[k - 1] & other_white,
            pieces[k - 1] & black,
            kind_at(k - 1),
        );
    }
}

/// What the evaluation of the position of a FEN is made of, and none where it cannot be
/// read.
pub fn features_of_fen(fen: &str) -> (f: Option<Features>)
    ensures
        f is Some <==> playable_fen(fen@),
        f matches Some(found) ==> {
            &&& fen_balance(fen@) == (found.material as int, found.positional as int)
            &&& found.white_to_move == white_to_move_of(fen@)
            &&& found.my_moves == legal_moves_of(fen@).len()
            &&& found.opp_moves == (match passing_replies_of(fen@) {
                Some(n) => n,
                None => 0,
            })
        },
{
    match Position::read(fen) {
        Some(position) => {
            assert(position.pieces@ =~= Seq::new(6, |k: int| piece_board_of(fen@, k)));
            Some(features(&position))
        },
        None => None,
    }
}

/// The FEN after a move of the position of a FEN; none where it cannot be read or the
/// move is not legal.
pub fn play(fen: &str, m: &Move) -> (after: Option<String>)
    ensures
        after is Some <==> playable_fen(fen@) && legal_moves_of(fen@).contains(*m),
        after matches Some(s) ==> s@ == after_move_of(fen@, *m),
{
    match Position::read(fen) {
        Some(position) => {
            if contains_move(&position.moves, m) {
                Some(position.after(m))
            } else {
                None
            }
        },
        None => None,
    }
}

/// Whether a move is among others.
pub(crate) fn contains_move(moves: &Vec<Move>, m: &Move) -> (found: bool)
    ensures
        found == moves@.contains(*m),
{
    let mut i: usize = 0;
    while i < moves.len()
        invariant
            i <= moves@.len(),
            forall|j: int| 0 <= j < i ==> #[trigger] moves@[j] != *m,
        decreases moves@.len() - i,
    {
        if moves[i] == *m {
            assert(moves@[i as int] == *m);
            return true;
        }
        i = i + 1;
    }
    false
}

/// Whether a piece stands on a square.
pub open spec fn occupied(white: u64, black: u64, square: int) -> bool {
    has_bit(white, square) || has_bit(black, square)
}

/// Whether a pawn stands on a square.
pub open spec fn pawn_on(pieces: Seq<u64>, white: u64, black: u64, square: int) -> bool {
    has_bit(pieces[0], square) && occupied(white, black, square)
}

fn bit_at(board: u64, square: u8) -> (set: bool)
    requires
        square < 64,
    ensures
        set == has_bit(board, square as int),
{
    board & (1u64 << (square as u64)) != 0
}

/// The clock of moves without a pawn move or a capture, after a move. A pawn taken in
/// passing is a pawn move too.
pub open spec fn clock_spec(pieces: Seq<u64>, white: u64, black: u64, m: Move, prev: int) -> int {
    if pawn_on(pieces, white, black, m.source as int) || occupied(white, black, m.dest as int) {
        0
    } else {
        prev + 1
    }
}

/// The clock after a move in the position of a FEN.
pub open spec fn clock_after(fen: Seq<char>, m: Move, prev: int) -> int {
    clock_spec(
        Seq::new(6, |k: int| piece_board_of(fen, k)),
        color_board_of(fen, true),
        color_board_of(fen, false),
        m,
        prev,
    )
}

/// The clock of moves without a pawn move or a capture, after a move.
pub fn advance_halfmove_clock(position: &Position, m: &Move, prev: u32) -> (clock: u32)
    requires
        position.pieces@.len() == 6,
        m.on_board(),
        prev < u32::MAX,
    ensures
        clock == clock_spec(
            position.pieces@,
            position.white,
            position.black,
            *m,
            prev as int,
        ),
        position.wf() ==> clock == clock_after(position.fen@, *m, prev as int),
{
    proof {
        if position.wf() {
            assert(position.pieces@ =~= Seq::new(6, |k: int| piece_board_of(position.fen@, k)));
        }
    }
    let is_pawn_move: bool = bit_at(position.pieces[0], m.source) && (bit_at(
        position.white,
        m.source,
    ) || bit_at(position.black, m.source));
    let is_capture: bool = bit_at(position.white, m.dest) || bit_at(position.black, m.dest);
    if is_pawn_move || is_capture {
        0
    } else {
        prev + 1
    }
}

/// The clock of a FEN, from its fifth field; 0 where that is no number.
pub fn halfmove_clock(fen: &str) -> (clock: u32)
    ensures
        clock == number_or_zero(field(fen@, 0, 4)),
{
    let chars: Vec<char> = characters(fen);
    let mut at: usize = 0;
    let mut n: usize = 0;
    while n < 4
        invariant
            n <= 4,
            at <= chars@.len(),
            chars@ == fen@,
            field(fen@, 0, 4) == field(fen@, at as int, (4 - n) as nat),
        decreases 4 - n,
    {
        let start: usize = skip_run(&chars, at, true);
        at = skip_run(&chars, start, false);
        n = n + 1;
    }
    let start: usize = skip_run(&chars, at, true);
    let end: usize = skip_run(&chars, start, false);
    match read_number(&chars, start, end) {
        Some(clock) => clock,
        None => 0,
    }
}

/// The channels of a square: six kinds of white and of black pieces, and eight more.
pub const IN_DIM: usize = 20;

/// Channel `channel` of a square: a one for the piece on it, and then, the same for every
/// square, the castling rights, whether a pawn can be taken in passing, the scaled clock,
/// whether white is to move, and a zero.
pub open spec fn plane_spec(position: Position, clock: Single, square: int, channel: int) -> Single {
    let one_if = |b: bool|
        if b {
            Single::one_spec()
        } else {
            Single::zero_spec()
        };
    if channel < 6 {
        one_if(has_bit(position.pieces@[channel], square) && has_bit(position.white, square))
    } else if channel < 12 {
        one_if(has_bit(position.pieces@[channel - 6], square) && has_bit(position.black, square))
    } else if channel == 12 {
        one_if(position.white_castles.0)
    } else if channel == 13 {
        one_if(position.white_castles.1)
    } else if channel == 14 {
        one_if(position.black_castles.0)
    } else if channel == 15 {
        one_if(position.black_castles.1)
    } else if channel == 16 {
        one_if(position.en_passant)
    } else if channel == 17 {
        clock
    } else if channel == 18 {
        one_if(position.white_to_move)
    } else {
        Single::zero_spec()
    }
}

fn one_if(b: bool) -> (s: Single)
    ensures
        s == (if b {
            Single::one_spec()
        } else {
            Single::zero_spec()
        }),
{
    if b {
        Single::one()
    } else {
        Single::zero()
    }
}

/// A position as a network sees it: all channels of one square after those of the one
/// before. `clock` is the clock of the position, scaled.
pub fn encode_board(position: &Position, clock: Single) -> (planes: Vec<Single>)
    requires
        position.pieces@.len() == 6,
    ensures
        planes@.len() == 64 * IN_DIM,
        forall|i: int|
            0 <= i < 64 * IN_DIM ==> #[trigger] planes@[i] == plane_spec(
                *position,
                clock,
                i / 20,
                i % 20,
            ),
        position.wf() ==> forall|square: int|
            0 <= square < 64 ==> #[trigger] planes@[square * 20 + 18] == (if white_to_move_of(
                position.fen@,
            ) {
                Single::one_spec()
            } else {
                Single::zero_spec()
            }),
{
    let mut planes: Vec<Single> = Vec::new();
    let mut square: u8 = 0;
    while square < 64
        invariant
            square <= 64,
            position.pieces@.len() == 6,
            planes@.len() == square * 20,
            forall|i: int|
                0 <= i < square * 20 ==> #[trigger] planes@[i] == plane_spec(
                    *position,
                    clock,
                    i / 20,
                    i % 20,
                ),
        decreases 64 - square,
    {
        let mut channel: usize = 0;
        while channel < 20
            invariant
                square < 64,
                channel <= 20,
                position.pieces@.len() == 6,
                planes@.len() == square * 20 + channel,
                forall|i: int|
                    0 <= i < square * 20 + channel ==> #[trigger] planes@[i] == plane_spec(
                        *position,
                        clock,
                        i / 20,
                        i % 20,
                    ),
            decreases 20 - channel,
        {
            let entry: Single = if channel < 6 {
                one_if(bit_at(position.pieces[channel], square) && bit_at(position.white, square))
            } else if channel < 12 {
                one_if(
                    bit_at(position.pieces[channel - 6], square) && bit_at(
                        position.black,
                        square,
                    ),
                )
            } else if channel == 12 {
                one_if(position.white_castles.0)
            } else if channel == 13 {
                one_if(position.white_castles.1)
            } else if channel == 14 {
                one_if(position.black_castles.0)
            } else if channel == 15 {
                one_if(position.black_castles.1)
            } else if channel == 16 {
                one_if(position.en_passant)
            } else if channel == 17 {
                clock
            } else if channel == 18 {
                one_if(position.white_to_move)
            } else {
                Single::zero()
            };
            planes.push(entry);
            assert((square * 20 + channel) / 20 == square && (square * 20 + channel) % 20
                == channel);
            channel = channel + 1;
        }
        square = square + 1;
    }
    planes
}

/// The moves that a policy over squares can tell apart: those that do not turn a pawn
/// into less than a queen.
pub open spec fn pruned(moves: Seq<Move>) -> Seq<Move> {
    moves.filter(|m: Move| !m.underpromotes())
}

/// The moves that a policy over squares can tell apart.
pub fn prune_underpromotions(moves: &Vec<Move>) -> (kept: Vec<Move>)
    ensures
        kept@ == pruned(moves@),
{
    let ghost keep = |m: Move| !m.underpromotes();
    let mut kept: Vec<Move> = Vec::new();
    let mut i: usize = 0;
    proof {
        reveal(Seq::filter);
        assert(moves@.take(0).filter(keep) =~= Seq::<Move>::empty());
    }
    while i < moves.len()
        invariant
            i <= moves@.len(),
            keep == (|m: Move| !m.underpromotes()),
            kept@ == moves@.take(i as int).filter(keep),
        decreases moves@.len() - i,
    {
        let m: Move = moves[i];
        let underpromotes: bool = match m.promotion {
            Some(kind) => kind != Kind::Queen,
            None => false,
        };
        proof {
            reveal(Seq::filter);
            assert(moves@.take(i + 1).drop_last() =~= moves@.take(i as int));
            assert(moves@.take(i + 1).last() == m);
        }
        if !underpromotes {
            kept.push(m);
        }
        i = i + 1;
    }
    assert(moves@.take(moves@.len() as int) =~= moves@);
    kept
}

/// The place of a move in a policy over pairs of squares.
pub open spec fn policy_index(m: Move) -> int {
    m.source * 64 + m.dest
}

/// The policy's entries for moves.
pub open spec fn move_scores(moves: Seq<Move>, policy: Seq<Single>) -> Seq<Single> {
    moves.map_values(|m: Move| policy[policy_index(m)])
}

/// The policy's entries for moves.
pub fn scores_of(moves: &Vec<Move>, policy: &Vec<Single>) -> (scores: Vec<Single>)
    requires
        policy@.len() == 4096,
        forall|i: int| 0 <= i < moves@.len() ==> (#[trigger] moves@[i]).on_board(),
    ensures
        scores@ == move_scores(moves@, policy@),
{
    let ghost whole = move_scores(moves@, policy@);
    let mut scores: Vec<Single> = Vec::new();
    let mut i: usize = 0;
    while i < moves.len()
        invariant
            i <= moves@.len(),
            policy@.len() == 4096,
            forall|j: int| 0 <= j < moves@.len() ==> (#[trigger] moves@[j]).on_board(),
            whole == move_scores(moves@, policy@),
            scores@ == whole.take(i as int),
        decreases moves@.len() - i,
    {
        let m: Move = moves[i];
        assert(moves@[i as int].on_board());
        scores.push(policy[(m.source as usize) * 64 + m.dest as usize]);
        i = i + 1;
        assert(scores@ =~= whole.take(i as int));
    }
    assert(scores@ =~= whole);
    scores
}

/// Moves from the highest policy entry to the lowest, equals in the order given.
pub fn rank_moves(moves: &Vec<Move>, policy: &Vec<Single>) -> (ranked: Vec<Move>)
    requires
        policy@.len() == 4096,
        forall|i: int| 0 <= i < moves@.len() ==> (#[trigger] moves@[i]).on_board(),
    ensures
        ranked@.len() == moves@.len(),
        exists|order: Seq<usize>|
            #[trigger] stable_order(
                move_scores(moves@, policy@),
                identity(moves@.len()),
                order,
            ) && order.len() == moves@.len() && forall|i: int|
                0 <= i < ranked@.len() ==> #[trigger] ranked@[i] == moves@[order[i] as int],
{
    let scores: Vec<Single> = scores_of(moves, policy);
    let start: Vec<usize> = identity_order(scores.len());
    let sequence: Vec<usize> = order(&scores, &start);
    let mut ranked: Vec<Move> = Vec::new();
    let mut i: usize = 0;
    while i < sequence.len()
        invariant
            i <= sequence@.len(),
            is_permutation(sequence@, moves@.len() as int),
            ranked@.len() == i,
            forall|j: int| 0 <= j < i ==> #[trigger] ranked@[j] == moves@[sequence@[j] as int],
        decreases sequence@.len() - i,
    {
        ranked.push(moves[sequence[i]]);
        i = i + 1;
    }
    assert(stable_order(move_scores(moves@, policy@), identity(moves@.len()), sequence@));
    ranked
}

/// The moves of a position in the order of a policy, in the notation of chess programs;
/// none where the FEN cannot be read.
pub fn ranked_moves(fen: &str, policy: &Vec<Single>) -> (ranked: Vec<String>)
    requires
        policy@.len() == 4096,
    ensures
        !playable_fen(fen@) ==> ranked@.len() == 0,
        ranked@.len() > 0 <==> playable_fen(fen@) && legal_moves_of(fen@).len() > 0,
        playable_fen(fen@) ==> ranked@.len() == pruned(legal_moves_of(fen@)).len() && exists|
            order: Seq<usize>,
        |
            #[trigger] stable_order(
                move_scores(pruned(legal_moves_of(fen@)), policy@),
                identity(pruned(legal_moves_of(fen@)).len()),
                order,
            ) && order.len() == ranked@.len() && forall|i: int|
                0 <= i < ranked@.len() ==> (#[trigger] ranked@[i])@ == pruned(
                    legal_moves_of(fen@),
                )[order[i] as int].uci_spec(),
{
    let mut ranked: Vec<String> = Vec::new();
    match Position::read(fen) {
        None => ranked,
        Some(position) => {
            let moves: Vec<Move> = prune_underpromotions(&position.moves);
            proof {
                lemma_pruned_on_board(position.moves@);
                if position.moves@.len() > 0 {
                    lemma_pruned_leaves_one(position.moves@);
                } else {
                    position.moves@.lemma_filter_len(|m: Move| !m.underpromotes());
                }
            }
            let in_order: Vec<Move> = rank_moves(&moves, policy);
            let mut i: usize = 0;
            while i < in_order.len()
                invariant
                    i <= in_order@.len(),
                    ranked@.len() == i,
                    forall|j: int|
                        0 <= j < i ==> (#[trigger] ranked@[j])@ == in_order@[j].uci_spec(),
                decreases in_order@.len() - i,
            {
                ranked.push(in_order[i].uci());
                i = i + 1;
            }
            proof {
                let order = choose|order: Seq<usize>|
                    #[trigger] stable_order(
                        move_scores(moves@, policy@),
                        identity(moves@.len()),
                        order,
                    ) && order.len() == moves@.len() && forall|i: int|
                        0 <= i < in_order@.len() ==> #[trigger] in_order@[i]
                            == moves@[order[i] as int];
                assert forall|i: int| 0 <= i < ranked@.len() implies (#[trigger] ranked@[i])@
                    == moves@[order[i] as int].uci_spec() by {
                    assert(in_order@[i] == moves@[order[i] as int]);
                }
            }
            ranked
        },
    }
}

pub(crate) proof fn lemma_pruned_on_board(moves: Seq<Move>)
    requires
        forall|i: int| 0 <= i < moves.len() ==> (#[trigger] moves[i]).on_board(),
    ensures
        forall|i: int| 0 <= i < pruned(moves).len() ==> (#[trigger] pruned(moves)[i]).on_board(),
        forall|i: int| 0 <= i < pruned(moves).len() ==> moves.contains(#[trigger] pruned(moves)[i]),
{
    let keep = |m: Move| !m.underpromotes();
    assert forall|i: int| 0 <= i < pruned(moves).len() implies (
    #[trigger] pruned(moves)[i]).on_board() && moves.contains(pruned(moves)[i]) by {
        assert(moves.filter(keep).contains(pruned(moves)[i]));
        moves.lemma_filter_contains_rev(keep, pruned(moves)[i]);
    }
}

/// Something is left of moves, as long as a pawn that can promote can become a queen.
pub(crate) proof fn lemma_pruned_leaves_one(moves: Seq<Move>)
    requires
        moves.len() > 0,
        forall|i: int|
            0 <= i < moves.len() && (#[trigger] moves[i]).underpromotes() ==> moves.contains(
                moves[i].queening(),
            ),
    ensures
        pruned(moves).len() > 0,
{
    let keep = |m: Move| !m.underpromotes();
    let first = moves[0];
    let kept = if first.underpromotes() {
        first.queening()
    } else {
        first
    };
    assert(moves.contains(first));
    let i = choose|i: int| 0 <= i < moves.len() && moves[i] == kept;
    assert(keep(moves[i]));
    moves.lemma_filter_contains(keep, i);
}

/// The depth that the bot searches to: between one and four plies.
pub fn bot_depth(depth: u32) -> (plies: usize)
    ensures
        plies == (if depth < 1 {
            1
        } else if depth > 4 {
            4
        } else {
            depth as int
        }),
{
    if depth < 1 {
        1
    } else if depth > 4 {
        4
    } else {
        depth as usize
    }
}

/// The seed of the bot: never zero.
pub fn bot_seed(seed: u64) -> (s: u64)
    ensures
        s == (if seed == 0 {
            1
        } else {
            seed
        }),
{
    if seed == 0 {
        1
    } else {
        seed
    }
}

/// Adding a bit to a board changes that square alone.
pub(crate) proof fn lemma_one_more_bit(board: u64, square: int, other: int)
    requires
        0 <= square < 64,
        0 <= other < 64,
    ensures
        has_bit(board | (1u64 << square as u64), other) == (other == square || has_bit(
            board,
            other,
        )),
{
    let k = square as u64;
    let m = other as u64;
    assert(((board | (1u64 << k)) & (1u64 << m) != 0) == (m == k || board & (1u64 << m) != 0))
        by (bit_vector)
        requires
            k < 64,
            m < 64,
    ;
}

/// What one more piece on an empty square adds to the sums of its kind and colour.
proof fn lemma_kind_sum_grows(
    before: u64,
    after: u64,
    kind: Kind,
    white: bool,
    square: int,
    n: int,
)
    requires
        0 <= square < 64,
        0 <= n <= 64,
        !has_bit(before, square),
        forall|q: int|
            0 <= q < 64 ==> #[trigger] has_bit(after, q) == (q == square || has_bit(before, q)),
    ensures
        kind_sum(after, kind, white, n).0 == kind_sum(before, kind, white, n).0 + if square < n {
            piece_value_spec(kind)
        } else {
            0
        },
        kind_sum(after, kind, white, n).1 == kind_sum(before, kind, white, n).1 + if square < n {
            pst_entry(pst_spec(kind), square, white)
        } else {
            0
        },
    decreases n,
{
    if n > 0 {
        lemma_kind_sum_grows(before, after, kind, white, square, n - 1);
        assert(has_bit(after, n - 1) == (n - 1 == square || has_bit(before, n - 1)));
    }
}

/// Boards with the same bits have the same sums.
proof fn lemma_kind_sum_same(a: u64, b: u64, kind: Kind, white: bool, n: int)
    requires
        0 <= n <= 64,
        forall|q: int| 0 <= q < 64 ==> #[trigger] has_bit(a, q) == has_bit(b, q),
    ensures
        kind_sum(a, kind, white, n) == kind_sum(b, kind, white, n),
    decreases n,
{
    if n > 0 {
        lemma_kind_sum_same(a, b, kind, white, n - 1);
        assert(has_bit(a, n - 1) == has_bit(b, n - 1));
    }
}

proof fn lemma_empty_sum(board: u64, kind: Kind, white: bool, n: int)
    requires
        0 <= n <= 64,
        forall|q: int| 0 <= q < 64 ==> !#[trigger] has_bit(board, q),
    ensures
        kind_sum(board, kind, white, n) == (0int, 0int),
    decreases n,
{
    if n > 0 {
        lemma_empty_sum(board, kind, white, n - 1);
        assert(!has_bit(board, n - 1));
    }
}

/// An empty board is worth nothing.
pub proof fn empty_boards_are_balanced(pieces: Seq<u64>, k: int)
    requires
        0 <= k <= 6,
    ensures
        balance(pieces, 0, 0, k) == (0int, 0int),
    decreases k,
{
    if k > 0 {
        empty_boards_are_balanced(pieces, k - 1);
        let board = pieces[k - 1];
        assert(board & 0u64 == 0) by (bit_vector);
        assert forall|q: int| 0 <= q < 64 implies !#[trigger] has_bit(0u64, q) by {
            let m = q as u64;
            assert(0u64 & (1u64 << m) == 0) by (bit_vector);
        }
        lemma_empty_sum(board & 0u64, kind_at(k - 1), true, 64);
        lemma_empty_sum(board & 0u64, kind_at(k - 1), false, 64);
    }
}

/// One more piece of kind `k` on an empty square changes the balance by what that piece is worth,
/// there: a white one adds its value and the entry of its table at the square, read from the
/// eighth rank down, and a black one takes its value and the entry at the square in the mirror.
/// The kinds are worth 100, 320, 330, 500, 900 and nothing.
pub proof fn pieces_count_for_their_side(
    pieces: Seq<u64>,
    white: u64,
    black: u64,
    kind: int,
    square: int,
    is_white: bool,
)
    requires
        pieces.len() == 6,
        0 <= kind < 6,
        0 <= square < 64,
        !has_bit(white, square),
        !has_bit(black, square),
        forall|j: int| 0 <= j < 6 ==> !has_bit(#[trigger] pieces[j], square),
    ensures
        ({
            let bit = 1u64 << square as u64;
            let more = pieces.update(kind, pieces[kind] | bit);
            let before = balance(pieces, white, black, 6);
            let after = if is_white {
                balance(more, white | bit, black, 6)
            } else {
                balance(more, white, black | bit, 6)
            };
            let value = seq![100int, 320, 330, 500, 900, 0][kind];
            let table = pst_spec(kind_at(kind));
            if is_white {
                &&& after.0 - before.0 == value
                &&& after.1 - before.1 == table[(7 - square / 8) * 8 + square % 8]
            } else {
                &&& after.0 - before.0 == -value
                &&& after.1 - before.1 == -table[square]
            }
        }),
{
    let bit = 1u64 << square as u64;
    let more = pieces.update(kind, pieces[kind] | bit);
    let wide = if is_white {
        white | bit
    } else {
        white
    };
    let dark = if is_white {
        black
    } else {
        black | bit
    };
    lemma_balance_grows(pieces, white, black, more, wide, dark, kind, square, is_white, 6);
    assert((square / 8) * 8 + square % 8 == square);
}

proof fn lemma_balance_grows(
    pieces: Seq<u64>,
    white: u64,
    black: u64,
    more: Seq<u64>,
    wide: u64,
    dark: u64,
    kind: int,
    square: int,
    is_white: bool,
    k: int,
)
    requires
        pieces.len() == 6,
        0 <= kind < 6,
        0 <= square < 64,
        0 <= k <= 6,
        !has_bit(white, square),
        !has_bit(black, square),
        forall|j: int| 0 <= j < 6 ==> !has_bit(#[trigger] pieces[j], square),
        more == pieces.update(kind, pieces[kind] | (1u64 << square as u64)),
        wide == if is_white {
            white | (1u64 << square as u64)
        } else {
            white
        },
        dark == if is_white {
            black
        } else {
            black | (1u64 << square as u64)
        },
    ensures
        ({
            let before = balance(pieces, white, black, k);
            let after = balance(more, wide, dark, k);
            let sign = if is_white {
                1int
            } else {
                -1int
            };
            if kind < k {
                &&& after.0 == before.0 + sign * piece_value_spec(kind_at(kind))
                &&& after.1 == before.1 + sign * pst_entry(
                    pst_spec(kind_at(kind)),
                    square,
                    is_white,
                )
            } else {
                after == before
            }
        }),
    decreases k,
{
    if k > 0 {
        lemma_balance_grows(
            pieces,
            white,
            black,
            more,
            wide,
            dark,
            kind,
            square,
            is_white,
            k - 1,
        );
        let own = kind_at(k - 1);
        assert forall|q: int| 0 <= q < 64 implies #[trigger] has_bit(more[k - 1] & wide, q) == (
        has_bit(pieces[k - 1] & white, q) || is_white && kind == k - 1 && q == square) by {
            lemma_both(more[k - 1], wide, q);
            lemma_both(pieces[k - 1], white, q);
            lemma_one_more_bit(pieces[k - 1], square, q);
            lemma_one_more_bit(white, square, q);
            assert(!has_bit(pieces[k - 1], square));
        }
        assert forall|q: int| 0 <= q < 64 implies #[trigger] has_bit(more[k - 1] & dark, q) == (
        has_bit(pieces[k - 1] & black, q) || !is_white && kind == k - 1 && q == square) by {
            lemma_both(more[k - 1], dark, q);
            lemma_both(pieces[k - 1], black, q);
            lemma_one_more_bit(pieces[k - 1], square, q);
            lemma_one_more_bit(black, square, q);
            assert(!has_bit(pieces[k - 1], square));
        }
        lemma_both(pieces[k - 1], white, square);
        lemma_both(pieces[k - 1], black, square);
        if kind == k - 1 && is_white {
            lemma_kind_sum_grows(
                pieces[k - 1] & white,
                more[k - 1] & wide,
                own,
                true,
                square,
                64,
            );
        } else {
            lemma_kind_sum_same(pieces[k - 1] & white, more[k - 1] & wide, own, true, 64);
        }
        if kind == k - 1 && !is_white {
            lemma_kind_sum_grows(
                pieces[k - 1] & black,
                more[k - 1] & dark,
                own,
                false,
                square,
                64,
            );
        } else {
            lemma_kind_sum_same(pieces[k - 1] & black, more[k - 1] & dark, own, false, 64);
        }
    }
}

/// The tables do not tell left from right, but for that of the queen.
pub proof fn tables_are_symmetric(kind: Kind, row: int, file: int)
    requires
        0 <= row < 8,
        0 <= file < 8,
        !(kind is Queen),
    ensures
        pst_spec(kind)[row * 8 + file] == pst_spec(kind)[row * 8 + 7 - file],
{
}

/// A clock goes by what stands on the squares of a move: it starts again where a pawn moves or
/// something is taken, and counts on otherwise.
pub proof fn pawns_and_captures_start_the_clock(fen: Seq<char>, m: Move, prev: int)
    requires
        m.on_board(),
    ensures
        ({
            let source = letter_at(fen, m.source as int);
            let dest = letter_at(fen, m.dest as int);
            let pawn = source == 'P' || source == 'p';
            let taken = seq!['P', 'N', 'B', 'R', 'Q', 'K', 'p', 'n', 'b', 'r', 'q', 'k'].contains(
                dest,
            );
            clock_after(fen, m, prev) == if pawn || taken {
                0
            } else {
                prev + 1
            }
        }),
{
    let dest = letter_at(fen, m.dest as int);
    lemma_squares(fen, m.source as int);
    lemma_squares(fen, m.dest as int);
    let letters = seq!['P', 'N', 'B', 'R', 'Q', 'K', 'p', 'n', 'b', 'r', 'q', 'k'];
    if is_piece(dest) {
        let i: int = if dest == 'P' {
            0
        } else if dest == 'N' {
            1
        } else if dest == 'B' {
            2
        } else if dest == 'R' {
            3
        } else if dest == 'Q' {
            4
        } else if dest == 'K' {
            5
        } else if dest == 'p' {
            6
        } else if dest == 'n' {
            7
        } else if dest == 'b' {
            8
        } else if dest == 'r' {
            9
        } else if dest == 'q' {
            10
        } else {
            11
        };
        assert(letters[i] == dest);
    }
    if letters.contains(dest) {
        let i = choose|i: int| 0 <= i < 12 && letters[i] == dest;
        assert(is_piece(letters[i]));
    }
}

/// What a network sees of a position, channel by channel, in terms of its FEN. On every square, a
/// one in the channel of the piece that stands there and zeros in the other eleven; then, the
/// same on every square, the castling rights that the FEN names, whether a pawn can be taken in
/// passing, the clock, and a one where white is to move.
pub proof fn planes_show_the_position(position: Position, clock: Single, square: int)
    requires
        position.wf(),
        0 <= square < 64,
    ensures
        ({
            let letter = letter_at(position.fen@, square);
            let rights = space_part(position.fen@, 2);
            let side = space_part(position.fen@, 1);
            let plane = |channel: int| plane_spec(position, clock, square, channel);
            let shows = |channel: int, b: bool|
                plane(channel) == if b {
                    Single::one_spec()
                } else {
                    Single::zero_spec()
                };
            &&& shows(0, letter == 'P')
            &&& shows(1, letter == 'N')
            &&& shows(2, letter == 'B')
            &&& shows(3, letter == 'R')
            &&& shows(4, letter == 'Q')
            &&& shows(5, letter == 'K')
            &&& shows(6, letter == 'p')
            &&& shows(7, letter == 'n')
            &&& shows(8, letter == 'b')
            &&& shows(9, letter == 'r')
            &&& shows(10, letter == 'q')
            &&& shows(11, letter == 'k')
            &&& shows(12, rights.contains('K'))
            &&& shows(13, rights.contains('Q'))
            &&& shows(14, rights.contains('k'))
            &&& shows(15, rights.contains('q'))
            &&& shows(16, en_passant_of(position.fen@))
            &&& plane(17) == clock
            &&& shows(18, side == seq!['w'] || side == seq!['W'])
            &&& plane(19) == Single::zero_spec()
        }),
{
    let letter = letter_at(position.fen@, square);
    assert(has_bit(position.white, square) == is_white_piece(letter));
    assert(has_bit(position.black, square) == (is_piece(letter) && !is_white_piece(letter)));
    assert(has_bit(position.pieces@[0], square) == (kind_letter(letter) == Some(0int)));
    assert(has_bit(position.pieces@[1], square) == (kind_letter(letter) == Some(1int)));
    assert(has_bit(position.pieces@[2], square) == (kind_letter(letter) == Some(2int)));
    assert(has_bit(position.pieces@[3], square) == (kind_letter(letter) == Some(3int)));
    assert(has_bit(position.pieces@[4], square) == (kind_letter(letter) == Some(4int)));
    assert(has_bit(position.pieces@[5], square) == (kind_letter(letter) == Some(5int)));
}

/// A network can tell positions apart by whose turn it is, by what may still be castled, and by
/// every piece on the board: where two positions differ in one of these, so do their planes.
pub proof fn planes_tell_positions_apart(
    a: Position,
    b: Position,
    clock: Single,
    other_clock: Single,
    square: int,
)
    requires
        a.wf(),
        b.wf(),
        0 <= square < 64,
        forall|channel: int|
            0 <= channel < 20 ==> #[trigger] plane_spec(a, clock, square, channel) == plane_spec(
                b,
                other_clock,
                square,
                channel,
            ),
    ensures
        a.white_to_move == b.white_to_move,
        a.white_castles == b.white_castles,
        a.black_castles == b.black_castles,
        a.en_passant == b.en_passant,
        clock == other_clock,
        is_piece(letter_at(a.fen@, square)) || is_piece(letter_at(b.fen@, square)) ==> letter_at(
            a.fen@,
            square,
        ) == letter_at(b.fen@, square),
{
    planes_show_the_position(a, clock, square);
    planes_show_the_position(b, other_clock, square);
    assert(forall|channel: int|
        0 <= channel < 20 ==> #[trigger] plane_spec(a, clock, square, channel) == plane_spec(
            b,
            other_clock,
            square,
            channel,
        ));
    assert(plane_spec(a, clock, square, 0) == plane_spec(b, other_clock, square, 0));
    assert(plane_spec(a, clock, square, 1) == plane_spec(b, other_clock, square, 1));
    assert(plane_spec(a, clock, square, 2) == plane_spec(b, other_clock, square, 2));
    assert(plane_spec(a, clock, square, 3) == plane_spec(b, other_clock, square, 3));
    assert(plane_spec(a, clock, square, 4) == plane_spec(b, other_clock, square, 4));
    assert(plane_spec(a, clock, square, 5) == plane_spec(b, other_clock, square, 5));
    assert(plane_spec(a, clock, square, 6) == plane_spec(b, other_clock, square, 6));
    assert(plane_spec(a, clock, square, 7) == plane_spec(b, other_clock, square, 7));
    assert(plane_spec(a, clock, square, 8) == plane_spec(b, other_clock, square, 8));
    assert(plane_spec(a, clock, square, 9) == plane_spec(b, other_clock, square, 9));
    assert(plane_spec(a, clock, square, 10) == plane_spec(b, other_clock, square, 10));
    assert(plane_spec(a, clock, square, 11) == plane_spec(b, other_clock, square, 11));
    assert(plane_spec(a, clock, square, 12) == plane_spec(b, other_clock, square, 12));
    assert(plane_spec(a, clock, square, 13) == plane_spec(b, other_clock, square, 13));
    assert(plane_spec(a, clock, square, 14) == plane_spec(b, other_clock, square, 14));
    assert(plane_spec(a, clock, square, 15) == plane_spec(b, other_clock, square, 15));
    assert(plane_spec(a, clock, square, 16) == plane_spec(b, other_clock, square, 16));
    assert(plane_spec(a, clock, square, 17) == plane_spec(b, other_clock, square, 17));
    assert(plane_spec(a, clock, square, 18) == plane_spec(b, other_clock, square, 18));
}

/// Where pieces stand well, by the rank of a square and by how far its file is from the edge. Pawns
/// gain as they go on, most of all just before they turn into something, and lose in front of their
/// king; knights and bishops belong in the middle and rooks on the seventh rank; queens avoid the
/// edge, and kings stay at home on the wings.
pub proof fn pieces_have_their_places(rank: int, file: int)
    requires
        1 <= rank <= 8,
        0 <= file < 8,
    ensures
        ({
            let at = (8 - rank) * 8 + file;
            let edge = if file < 4 {
                file
            } else {
                7 - file
            };
            let inner = 3 <= rank <= 6 && edge >= 2;
            let pawn = pst_spec(Kind::Pawn)[at];
            let knight = pst_spec(Kind::Knight)[at];
            let bishop = pst_spec(Kind::Bishop)[at];
            let rook = pst_spec(Kind::Rook)[at];
            let queen = pst_spec(Kind::Queen)[at];
            let king = pst_spec(Kind::King)[at];
            &&& rank == 1 || rank == 8 ==> pawn == 0
            &&& rank == 2 ==> pawn == seq![5int, 10, 10, -20][edge]
            &&& rank == 3 ==> pawn == seq![5int, -5, -10, 0][edge]
            &&& rank == 4 ==> pawn == seq![0int, 0, 0, 20][edge]
            &&& rank == 5 ==> pawn == seq![5int, 5, 10, 25][edge]
            &&& rank == 6 ==> pawn == seq![10int, 10, 20, 30][edge]
            &&& rank == 7 ==> pawn == 50
            &&& rank == 1 || rank == 8 ==> knight == seq![-50int, -40, -30, -30][edge]
            &&& rank == 2 ==> knight == seq![-40int, -20, 0, 5][edge]
            &&& rank == 3 ==> knight == seq![-30int, 5, 10, 15][edge]
            &&& rank == 4 ==> knight == seq![-30int, 0, 15, 20][edge]
            &&& rank == 5 ==> knight == seq![-30int, 5, 15, 20][edge]
            &&& rank == 6 ==> knight == seq![-30int, 0, 10, 15][edge]
            &&& rank == 7 ==> knight == seq![-40int, -20, 0, 0][edge]
            &&& rank == 1 || rank == 8 ==> bishop == seq![-20int, -10, -10, -10][edge]
            &&& rank == 2 ==> bishop == seq![-10int, 5, 0, 0][edge]
            &&& rank == 3 ==> bishop == seq![-10int, 10, 10, 10][edge]
            &&& rank == 4 ==> bishop == seq![-10int, 0, 10, 10][edge]
            &&& rank == 5 ==> bishop == seq![-10int, 5, 5, 10][edge]
            &&& rank == 6 ==> bishop == seq![-10int, 0, 5, 10][edge]
            &&& rank == 7 ==> bishop == seq![-10int, 0, 0, 0][edge]
            &&& rank == 1 ==> rook == seq![0int, 0, 0, 5][edge]
            &&& 2 <= rank <= 6 ==> rook == seq![-5int, 0, 0, 0][edge]
            &&& rank == 7 ==> rook == seq![5int, 10, 10, 10][edge]
            &&& rank == 8 ==> rook == 0
            &&& rank == 1 || rank == 8 ==> queen == seq![-20int, -10, -10, -5][edge]
            &&& inner ==> queen == 5
            &&& 2 <= rank <= 7 && edge == 0 ==> queen == if rank == 5 {
                -5int
            } else if rank == 4 {
                if file == 0 {
                    0int
                } else {
                    -5
                }
            } else {
                -10
            }
            &&& 2 <= rank <= 7 && edge >= 1 && !inner ==> queen == if rank == 3 && file == 1 || rank
                == 2 && file == 2 {
                5int
            } else {
                0
            }
            &&& rank >= 5 ==> king == seq![-30int, -40, -40, -50][edge]
            &&& rank == 4 ==> king == seq![-20int, -30, -30, -40][edge]
            &&& rank == 3 ==> king == seq![-10int, -20, -20, -20][edge]
            &&& rank == 2 ==> king == seq![20int, 20, 0, 0][edge]
            &&& rank == 1 ==> king == seq![20int, 30, 10, 0][edge]
        }),
{
}

} // verus!
