//! What the static evaluation of an Othello position is made of.
use vstd::prelude::*;
use crate::chess_eval::lemma_one_more_bit;
use crate::position::{bits_set, count_bits, has_bit};

verus! {

/// The corners of the board.
pub const CORNERS: u64 = 0x8100_0000_0000_0081;

/// Where at most this many squares are empty, the discs decide the game.
pub const ENDGAME_EMPTIES: u32 = 12;

/// What a square is worth: corners are worth taking, and the squares next to them are traps
/// that give the corner away.
pub open spec fn square_weight(square: int) -> int {
    let row = if square / 8 < 4 {
        square / 8
    } else {
        7 - square / 8
    };
    let column = if square % 8 < 4 {
        square % 8
    } else {
        7 - square % 8
    };
    quarter_weight(row, column)
}

/// The weights of a quarter of the board; the others are its mirror images.
pub open spec fn quarter_weight(row: int, column: int) -> int {
    if row == 0 {
        if column == 0 {
            120
        } else if column == 1 {
            -20
        } else if column == 2 {
            20
        } else {
            5
        }
    } else if row == 1 {
        if column == 0 {
            -20
        } else if column == 1 {
            -40
        } else {
            -5
        }
    } else if row == 2 {
        if column == 0 {
            20
        } else if column == 1 {
            -5
        } else if column == 2 {
            15
        } else {
            3
        }
    } else {
        if column == 0 {
            5
        } else if column == 1 {
            -5
        } else {
            3
        }
    }
}

/// The weights of all squares, row by row.
pub fn square_weights() -> (weights: [i32; 64])
    ensures
        forall|square: int|
            0 <= square < 64 ==> #[trigger] weights@[square] == square_weight(square),
{
    [
        120, -20, 20, 5, 5, 20, -20, 120,
        -20, -40, -5, -5, -5, -5, -40, -20,
        20, -5, 15, 3, 3, 15, -5, 20,
        5, -5, 3, 3, 3, 3, -5, 5,
        5, -5, 3, 3, 3, 3, -5, 5,
        20, -5, 15, 3, 3, 15, -5, 20,
        -20, -40, -5, -5, -5, -5, -40, -20,
        120, -20, 20, 5, 5, 20, -20, 120,
    ]
}

/// The weight of the first `n` squares for one side less that for the other.
pub open spec fn weighted_lead(own: u64, opp: u64, n: int) -> int
    decreases n,
{
    if n <= 0 {
        0
    } else {
        weighted_lead(own, opp, n - 1) + if has_bit(own, n - 1) {
            square_weight(n - 1)
        } else if has_bit(opp, n - 1) {
            -square_weight(n - 1)
        } else {
            0
        }
    }
}

/// What the evaluation is made of, as the side to move sees it.
#[derive(Clone, Copy, Debug, PartialEq, Eq, Structural)]
pub struct OthelloFeatures {
    pub own_discs: u32,
    pub opp_discs: u32,
    /// The corners of the side to move less those of the other.
    pub corner_lead: i32,
    /// Whether the discs decide the game.
    pub endgame: bool,
    /// The weight of the squares of the side to move less that of the other's.
    pub weighted: i32,
    pub own_moves: u32,
    pub opp_moves: u32,
}

/// What the evaluation of a position is made of, from the discs of both sides and the
/// squares that either may take.
pub fn features(own: u64, opp: u64, own_moves: u64, opp_moves: u64) -> (f: OthelloFeatures)
    requires
        own & opp == 0,
    ensures
        f.own_discs == bits_set(own, 64),
        f.opp_discs == bits_set(opp, 64),
        f.corner_lead == bits_set(own & CORNERS, 64) - bits_set(opp & CORNERS, 64),
        f.endgame == (64 - bits_set(own, 64) - bits_set(opp, 64) <= ENDGAME_EMPTIES),
        f.weighted == weighted_lead(own, opp, 64),
        f.own_moves == bits_set(own_moves, 64),
        f.opp_moves == bits_set(opp_moves, 64),
        bits_set(own, 64) + bits_set(opp, 64) <= 64,
        f.endgame <==> f.own_discs + f.opp_discs >= 52,
{
    let own_discs: u32 = count_bits(own);
    let opp_discs: u32 = count_bits(opp);
    proof {
        lemma_discs_share_the_board(own, opp, 64);
    }
    let own_corners: u32 = count_bits(own & CORNERS);
    let opp_corners: u32 = count_bits(opp & CORNERS);
    let weights: [i32; 64] = square_weights();
    let mut weighted: i32 = 0;
    let mut square: usize = 0;
    while square < 64
        invariant
            square <= 64,
            weighted == weighted_lead(own, opp, square as int),
            -120 * square <= weighted <= 120 * square,
            forall|s: int| 0 <= s < 64 ==> #[trigger] weights@[s] == square_weight(s),
        decreases 64 - square,
    {
        let bit: u64 = 1u64 << square as u64;
        assert(weights@[square as int] == square_weight(square as int));
        if own & bit != 0 {
            weighted = weighted + weights[square];
        } else if opp & bit != 0 {
            weighted = weighted - weights[square];
        }
        square = square + 1;
    }
    OthelloFeatures {
        own_discs,
        opp_discs,
        corner_lead: own_corners as i32 - opp_corners as i32,
        endgame: 64 - own_discs - opp_discs <= ENDGAME_EMPTIES,
        weighted,
        own_moves: count_bits(own_moves),
        opp_moves: count_bits(opp_moves),
    }
}

/// A square has a disc of one side at most, so the discs fit on the board.
pub proof fn lemma_discs_share_the_board(own: u64, opp: u64, n: int)
    requires
        own & opp == 0,
        0 <= n <= 64,
    ensures
        bits_set(own, n) + bits_set(opp, n) <= n,
    decreases n,
{
    if n > 0 {
        lemma_discs_share_the_board(own, opp, n - 1);
        lemma_one_disc(own, opp, (n - 1) as u64);
    }
}

proof fn lemma_one_disc(own: u64, opp: u64, square: u64)
    requires
        own & opp == 0,
        square < 64,
    ensures
        !(has_bit(own, square as int) && has_bit(opp, square as int)),
{
    assert(own & opp == 0 && square < 64 ==> own & (1u64 << square) == 0 || opp & (1u64 << square)
        == 0) by (bit_vector);
}

/// What one side leads by, the other is behind by: seen from the other side, the lead in
/// weight is the opposite.
pub proof fn sides_see_opposite_leads(own: u64, opp: u64, n: int)
    requires
        own & opp == 0,
        0 <= n <= 64,
    ensures
        weighted_lead(opp, own, n) == -weighted_lead(own, opp, n),
    decreases n,
{
    if n > 0 {
        sides_see_opposite_leads(own, opp, n - 1);
        lemma_one_disc(own, opp, (n - 1) as u64);
    }
}

/// The board looks the same from each of its four sides and corners: no square is worth more
/// than its mirror images.
pub proof fn weights_are_symmetric(row: int, column: int)
    requires
        0 <= row < 8,
        0 <= column < 8,
    ensures
        square_weight(row * 8 + column) == square_weight(row * 8 + (7 - column)),
        square_weight(row * 8 + column) == square_weight((7 - row) * 8 + column),
        square_weight(row * 8 + column) == square_weight(column * 8 + row),
{
}

/// A corner is worth more than any other square. The squares beside it are worth less than
/// nothing, and the one that touches it at an angle is worth least of all.
pub proof fn corners_are_worth_most(square: int)
    requires
        0 <= square < 64,
    ensures
        square == 0 || square == 7 || square == 56 || square == 63 <==> square_weight(square)
            == 120,
        square == 9 || square == 14 || square == 49 || square == 54 <==> square_weight(square)
            == -40,
        square == 1 || square == 6 || square == 8 || square == 15 || square == 48 || square == 55
            || square == 57 || square == 62 <==> square_weight(square) == -20,
        square == 2 || square == 5 || square == 16 || square == 23 || square == 40 || square == 47
            || square == 58 || square == 61 <==> square_weight(square) == 20,
        square == 18 || square == 21 || square == 42 || square == 45 <==> square_weight(square)
            == 15,
        square == 3 || square == 4 || square == 24 || square == 31 || square == 32 || square == 39
            || square == 59 || square == 60 <==> square_weight(square) == 5,
        2 <= square / 8 <= 5 && 2 <= square % 8 <= 5 && !(square == 18 || square == 21 || square
            == 42 || square == 45) <==> square_weight(square) == 3,
        square_weight(square) <= 120,
        square_weight(square) >= -40,
{
}

/// The empty board has no discs and nobody leads on it.
pub proof fn empty_boards_hold_nothing(n: int)
    requires
        0 <= n <= 64,
    ensures
        bits_set(0, n) == 0,
        weighted_lead(0, 0, n) == 0,
    decreases n,
{
    if n > 0 {
        empty_boards_hold_nothing(n - 1);
        let k = (n - 1) as u64;
        assert(0u64 & (1u64 << k) == 0) by (bit_vector);
    }
}

proof fn lemma_one_more_disc(own: u64, opp: u64, square: int, n: int)
    requires
        0 <= square < 64,
        0 <= n <= 64,
        !has_bit(own, square),
        !has_bit(opp, square),
    ensures
        bits_set(own | (1u64 << square as u64), n) == bits_set(own, n) + if square < n {
            1int
        } else {
            0
        },
        weighted_lead(own | (1u64 << square as u64), opp, n) == weighted_lead(own, opp, n)
            + if square < n {
            square_weight(square)
        } else {
            0
        },
        weighted_lead(own, opp | (1u64 << square as u64), n) == weighted_lead(own, opp, n)
            - if square < n {
            square_weight(square)
        } else {
            0
        },
    decreases n,
{
    if n > 0 {
        lemma_one_more_disc(own, opp, square, n - 1);
        lemma_one_more_bit(own, square, n - 1);
        lemma_one_more_bit(opp, square, n - 1);
    }
}

/// One more disc on an empty square is one disc more for its side. The weight of the square
/// goes to that side, whichever it is, and a corner adds to its corners as well.
pub proof fn discs_count_for_their_side(own: u64, opp: u64, square: int)
    requires
        0 <= square < 64,
        !has_bit(own, square),
        !has_bit(opp, square),
    ensures
        bits_set(own | (1u64 << square as u64), 64) == bits_set(own, 64) + 1,
        weighted_lead(own | (1u64 << square as u64), opp, 64) == weighted_lead(own, opp, 64)
            + square_weight(square),
        weighted_lead(own, opp | (1u64 << square as u64), 64) == weighted_lead(own, opp, 64)
            - square_weight(square),
        bits_set((own | (1u64 << square as u64)) & CORNERS, 64) == bits_set(own & CORNERS, 64)
            + if square == 0 || square == 7 || square == 56 || square == 63 {
            1int
        } else {
            0
        },
{
    lemma_one_more_disc(own, opp, square, 64);
    let k = square as u64;
    assert(own & (1u64 << k) == 0 ==> ((own | (1u64 << k)) & 0x8100_0000_0000_0081 == if k == 0 || k
        == 7 || k == 56 || k == 63 {
        (own & 0x8100_0000_0000_0081) | (1u64 << k)
    } else {
        own & 0x8100_0000_0000_0081
    }) && (own & 0x8100_0000_0000_0081) & (1u64 << k) == 0) by (bit_vector)
        requires
            k < 64,
    ;
    lemma_one_more_disc(own & CORNERS, opp, square, 64);
}

} // verus!
