//! A game between a person and an agent, move by move.
use vstd::prelude::*;
use crate::opponent::{BoardGame, StepResult};

verus! {

/// A game with its history.
#[derive(Debug)]
pub struct Session<E> {
    pub env: E,
    pub simulations: usize,
    pub history: Vec<E>,
    pub last_move: Option<usize>,
    pub max_simulations: usize,
}

/// The number of simulations to use for a wish: at least one, and no more than the
/// limit.
pub open spec fn clamped(simulations: int, limit: int) -> int {
    if simulations < 1 {
        1
    } else if simulations > limit {
        limit
    } else {
        simulations
    }
}

fn clamp_simulations(simulations: u32, limit: usize) -> (n: usize)
    requires
        limit >= 1,
    ensures
        n == clamped(simulations as int, limit as int),
{
    let wish: usize = simulations as usize;
    if wish < 1 {
        1
    } else if wish > limit {
        limit
    } else {
        wish
    }
}

/// The contents of 64 squares in absolute colours: 1 black, -1 white, 0 empty.
pub open spec fn board_spec(black: u64, white: u64) -> Seq<i8> {
    Seq::new(
        64,
        |square: int|
            if black & (1u64 << square as u64) != 0 {
                1i8
            } else if white & (1u64 << square as u64) != 0 {
                -1i8
            } else {
                0i8
            },
    )
}

/// The contents of 64 squares in absolute colours: 1 black, -1 white, 0 empty.
pub fn board(black: u64, white: u64) -> (squares: Vec<i8>)
    ensures
        squares@ == board_spec(black, white),
{
    let mut squares: Vec<i8> = Vec::new();
    let mut square: u64 = 0;
    while square < 64
        invariant
            square <= 64,
            squares@ == board_spec(black, white).take(square as int),
        decreases 64 - square,
    {
        let bit: u64 = 1u64 << square;
        squares.push(
            if black & bit != 0 {
                1
            } else if white & bit != 0 {
                -1
            } else {
                0
            },
        );
        square = square + 1;
        assert(squares@ =~= board_spec(black, white).take(square as int));
    }
    assert(squares@ =~= board_spec(black, white));
    squares
}

/// Flags as numbers.
pub fn flags(mask: &Vec<bool>) -> (numbers: Vec<u8>)
    ensures
        numbers@ == mask@.map_values(
            |legal: bool|
                if legal {
                    1u8
                } else {
                    0u8
                },
        ),
{
    let ghost whole = mask@.map_values(
        |legal: bool|
            if legal {
                1u8
            } else {
                0u8
            },
    );
    let mut numbers: Vec<u8> = Vec::new();
    let mut i: usize = 0;
    while i < mask.len()
        invariant
            i <= mask@.len(),
            whole == mask@.map_values(
                |legal: bool|
                    if legal {
                        1u8
                    } else {
                        0u8
                    },
            ),
            numbers@ == whole.take(i as int),
        decreases mask@.len() - i,
    {
        numbers.push(
            if mask[i] {
                1
            } else {
                0
            },
        );
        i = i + 1;
        assert(numbers@ =~= whole.take(i as int));
    }
    assert(numbers@ =~= whole);
    numbers
}

/// Whether a legal action leads from one stand of a game to another: the position before it is kept.
pub open spec fn moves_to<E: BoardGame>(
    before: Session<E>,
    after: Session<E>,
    action: usize,
) -> bool {
    &&& action < before.env.legal_spec().len()
    &&& before.env.legal_spec()[action as int]
    &&& after.env == before.env.next_spec(action as int)
    &&& after.history@ == before.history@.push(before.env)
    &&& after.last_move == Some(action)
}

/// Whether a stand of a game is another one with the latest two moves taken back, or with as many as
/// there were.
pub open spec fn takes_back<E: BoardGame>(before: Session<E>, after: Session<E>) -> bool {
    let h = before.history@;
    let kept = if h.len() < 2 {
        0
    } else {
        h.len() - 2
    };
    &&& after.history@ == h.take(kept)
    &&& after.env == if h.len() == 0 {
        before.env
    } else {
        h[kept]
    }
    &&& after.last_move is None
}

impl<E: BoardGame + Copy> Session<E> {
    /// A game at its start.
    pub fn create(simulations: u32, max_simulations: usize) -> (session: Session<E>)
        requires
            max_simulations >= 1,
        ensures
            session.env == E::initial_spec(),
            session.simulations == clamped(simulations as int, max_simulations as int),
            session.history@.len() == 0,
            session.last_move is None,
            session.max_simulations == max_simulations,
    {
        Session {
            env: E::initial(),
            simulations: clamp_simulations(simulations, max_simulations),
            history: Vec::new(),
            last_move: None,
            max_simulations,
        }
    }

    /// The square of the latest move, or 255 where there is none.
    pub fn last_move(&self) -> (square: u32)
        requires
            self.last_move matches Some(action) ==> action <= u32::MAX,
        ensures
            square == (match self.last_move {
                Some(action) => action as int,
                None => 255,
            }),
    {
        match self.last_move {
            Some(action) => action as u32,
            None => 255,
        }
    }

    /// The simulations of a move.
    pub fn simulations(&self) -> (n: usize)
        ensures
            n == self.simulations,
    {
        self.simulations
    }

    pub fn set_simulations(&mut self, simulations: u32)
        requires
            old(self).max_simulations >= 1,
        ensures
            final(self).simulations == clamped(
                simulations as int,
                old(self).max_simulations as int,
            ),
            final(self).env == old(self).env,
            final(self).history@ == old(self).history@,
            final(self).last_move == old(self).last_move,
            final(self).max_simulations == old(self).max_simulations,
    {
        self.simulations = clamp_simulations(simulations, self.max_simulations);
    }

    /// Plays an action if it is legal, and says whether it was.
    pub fn play(&mut self, action: usize) -> (played: bool)
        ensures
            played == (action < old(self).env.legal_spec().len()
                && old(self).env.legal_spec()[action as int]),
            played ==> {
                &&& final(self).env == old(self).env.next_spec(action as int)
                &&& final(self).history@ == old(self).history@.push(old(self).env)
                &&& final(self).last_move == Some(action)
            },
            !played ==> final(self).env == old(self).env && final(self).history@
                == old(self).history@ && final(self).last_move == old(self).last_move,
            played ==> moves_to(*old(self), *final(self), action),
            final(self).simulations == old(self).simulations,
            final(self).max_simulations == old(self).max_simulations,
    {
        let mask: Vec<bool> = self.env.legal_mask();
        if action >= mask.len() || !mask[action] {
            return false;
        }
        self.history.push(self.env);
        let (next, _): (E, StepResult) = self.env.step(action);
        self.env = next;
        self.last_move = Some(action);
        true
    }

    /// Takes back a full round, or as much of it as was played.
    pub fn undo(&mut self)
        ensures
            ({
                let h = old(self).history@;
                &&& h.len() == 0 ==> final(self).env == old(self).env && final(self).history@ == h
                &&& h.len() == 1 ==> final(self).env == h[0] && final(self).history@
                    == Seq::<E>::empty()
                &&& h.len() >= 2 ==> final(self).env == h[h.len() - 2] && final(self).history@
                    == h.take(h.len() - 2)
            }),
            final(self).last_move is None,
            takes_back(*old(self), *final(self)),
            final(self).simulations == old(self).simulations,
            final(self).max_simulations == old(self).max_simulations,
    {
        let ghost h = self.history@;
        match self.history.pop() {
            Some(previous) => {
                self.env = previous;
            },
            None => {},
        }
        match self.history.pop() {
            Some(previous) => {
                self.env = previous;
            },
            None => {},
        }
        self.last_move = None;
        proof {
            if h.len() >= 2 {
                assert(self.history@ =~= h.take(h.len() - 2));
            } else {
                assert(self.history@ =~= Seq::<E>::empty());
                assert(h.take(0) =~= Seq::<E>::empty());
            }
        }
    }

    /// Whether there is a move to take back.
    pub fn can_undo(&self) -> (can: bool)
        ensures
            can == (self.history@.len() > 0),
    {
        self.history.len() > 0
    }

    /// Goes back to the start.
    pub fn reset(&mut self)
        ensures
            final(self).env == E::initial_spec(),
            final(self).history@.len() == 0,
            final(self).last_move is None,
            final(self).simulations == old(self).simulations,
            final(self).max_simulations == old(self).max_simulations,
    {
        self.env = E::initial();
        self.history.clear();
        self.last_move = None;
    }
}

/// Taking back after a full round leaves the position, and the history, that the round
/// began with: whatever a player and the agent played, `before` is where `undo` leads.
pub proof fn undo_takes_back_a_round<E: BoardGame + Copy>(
    before: Session<E>,
    between: Session<E>,
    after: Session<E>,
    undone: Session<E>,
)
    requires
        between.history@ == before.history@.push(before.env),
        after.history@ == between.history@.push(between.env),
        ({
            let h = after.history@;
            h.len() >= 2 ==> undone.env == h[h.len() - 2] && undone.history@ == h.take(h.len() - 2)
        }),
    ensures
        undone.env == before.env,
        undone.history@ == before.history@,
{
    assert(after.history@.take(after.history@.len() - 2) =~= before.history@);
}

/// A wish for simulations is granted where it lies between one and the limit, and otherwise the
/// nearer of the two is.
pub proof fn wishes_are_granted_within_limits(wish: int, limit: int)
    requires
        limit >= 1,
    ensures
        1 <= clamped(wish, limit) <= limit,
        1 <= wish <= limit ==> clamped(wish, limit) == wish,
        wish < 1 ==> clamped(wish, limit) == 1,
        wish > limit ==> clamped(wish, limit) == limit,
{
}

/// A board shows a disc where there is one: black as one, white as minus one. To exchange the colours
/// is to turn all signs round.
pub proof fn boards_show_both_colours(black: u64, white: u64, square: int)
    requires
        0 <= square < 64,
        black & white == 0,
    ensures
        board_spec(black, white).len() == 64,
        board_spec(black, white)[square] == 1 <==> (black >> square as u64) & 1 == 1,
        board_spec(black, white)[square] == -1 <==> (white >> square as u64) & 1 == 1,
        board_spec(black, white)[square] == -board_spec(white, black)[square],
{
    let k = square as u64;
    assert((black & (1u64 << k) != 0) == ((black >> k) & 1 == 1)) by (bit_vector)
        requires
            k < 64,
    ;
    assert((white & (1u64 << k) != 0) == ((white >> k) & 1 == 1)) by (bit_vector)
        requires
            k < 64,
    ;
    assert(!(black & (1u64 << k) != 0 && white & (1u64 << k) != 0)) by (bit_vector)
        requires
            black & white == 0,
            k < 64,
    ;
}

/// Taking back undoes two moves: after any two of them the game stands where it stood before, with the
/// same history. After the first move of a game it undoes that one alone, and at the start nothing.
pub proof fn two_moves_are_taken_back<E: BoardGame>(
    before: Session<E>,
    between: Session<E>,
    after: Session<E>,
    undone: Session<E>,
    undone_early: Session<E>,
    undone_at_once: Session<E>,
    first: usize,
    second: usize,
)
    requires
        moves_to(before, between, first),
        moves_to(between, after, second),
        takes_back(after, undone),
        takes_back(between, undone_early),
        takes_back(before, undone_at_once),
    ensures
        undone.env == before.env,
        undone.history@ == before.history@,
        before.history@.len() == 0 ==> undone_early.env == before.env
            && undone_early.history@.len() == 0,
        before.history@.len() == 0 ==> undone_at_once.env == before.env
            && undone_at_once.history@.len() == 0,
        before.history@.len() == 1 ==> undone_at_once.env == before.history@[0],
        after.history@.len() == before.history@.len() + 2,
        after.last_move == Some(second),
        undone.last_move is None,
        after.env == before.env.next_spec(first as int).next_spec(second as int),
{
    assert(after.history@.take(after.history@.len() - 2) =~= before.history@);
}

} // verus!
