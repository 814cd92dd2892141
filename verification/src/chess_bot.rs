//! A chess opponent that searches, and a game of chess move by move.
use vstd::prelude::*;
use vstd::string::*;
use crate::chess_eval::{bot_depth, bot_seed, ranked_moves};
use crate::opponent::{
    BoardGame, alpha_beta_best, best_in_order, best_in_order_is_unique, hints_spec, identity,
    children_are_looked_at_by_their_hints, identity_order, legal_list,
    lemma_identity_is_permutation, lemma_permutation_from_multiset, order_is_unique, plain_value,
    pruning_agrees_with_plain_negamax, stable_order,
};
use crate::position::{
    Kind, Move, Position, after_move_of, legal_moves_of, notation_tells_moves_apart, playable_fen,
};
use crate::rng::{Rng, fisher_yates, shuffles_keep_all_entries};
use crate::session::clamped;
use crate::single::Single;
use crate::text::same_text;

verus! {

/// Whether a game stands for the position of a FEN, so many plies deep: it has one action for
/// each legal move, all of them legal, and action `i` leads to a game that stands for the
/// position after move `i`.
pub open spec fn stands_for<E: BoardGame>(env: E, fen: Seq<char>, plies: nat) -> bool
    decreases plies,
{
    &&& has_moves_of(env, fen)
    &&& plies > 0 ==> forall|i: int|
        0 <= i < legal_moves_of(fen).len() ==> stands_for(
            #[trigger] env.next_spec(i),
            after_move_of(fen, legal_moves_of(fen)[i]),
            (plies - 1) as nat,
        )
}

/// Whether a game has one action for each legal move of a FEN, and all of them are legal.
pub open spec fn has_moves_of<E: BoardGame>(env: E, fen: Seq<char>) -> bool {
    env.legal_spec() == Seq::new(legal_moves_of(fen).len(), |i: int| true)
}

/// The FEN after legal moves, each named by its number.
pub open spec fn fen_after(fen: Seq<char>, line: Seq<usize>) -> Seq<char>
    decreases line.len(),
{
    if line.len() == 0 {
        fen
    } else {
        let before = fen_after(fen, line.drop_last());
        after_move_of(before, legal_moves_of(before)[line.last() as int])
    }
}

/// Whether every number of a line is that of a legal move where it is played.
pub open spec fn names_moves(fen: Seq<char>, line: Seq<usize>) -> bool
    decreases line.len(),
{
    line.len() == 0 || {
        &&& names_moves(fen, line.drop_last())
        &&& line.last() < legal_moves_of(fen_after(fen, line.drop_last())).len()
    }
}

/// Wherever a search comes to, the game stands for the position that the moves lead to.
pub proof fn search_stays_with_the_position<E: BoardGame>(
    env: E,
    fen: Seq<char>,
    plies: nat,
    line: Seq<usize>,
)
    requires
        stands_for(env, fen, plies),
        names_moves(fen, line),
        line.len() <= plies,
    ensures
        stands_for(
            crate::eval::position_after(env, line),
            fen_after(fen, line),
            (plies - line.len()) as nat,
        ),
    decreases line.len(),
{
    if line.len() > 0 {
        let shorter = line.drop_last();
        search_stays_with_the_position(env, fen, plies, shorter);
        let at = crate::eval::position_after(env, shorter);
        let i = line.last() as int;
        assert(stands_for(
            at.next_spec(i),
            after_move_of(fen_after(fen, shorter), legal_moves_of(fen_after(fen, shorter))[i]),
            (plies - shorter.len() - 1) as nat,
        ));
    }
}

/// Whether a move is the one that alpha-beta search comes to, when its ties are broken by the
/// shuffle of a seed.
pub open spec fn searched<E: BoardGame>(
    env: E,
    fen: Seq<char>,
    depth: usize,
    seed: u64,
    uci: Seq<char>,
) -> bool {
    let n = legal_moves_of(fen).len();
    exists|order: Seq<usize>, action: int|
        {
            &&& #[trigger] stable_order(
                hints_spec(env),
                fisher_yates(identity(n), n, seed),
                order,
            )
            &&& #[trigger] best_in_order(env, order, (depth - 1) as nat, action)
            &&& 0 <= action < n
            &&& uci == legal_moves_of(fen)[action].uci_spec()
        }
}

/// The numbers of the actions where all of them are legal.
proof fn lemma_all_legal(mask: Seq<bool>, end: int)
    requires
        0 <= end <= mask.len() <= usize::MAX,
        forall|i: int| 0 <= i < mask.len() ==> #[trigger] mask[i],
    ensures
        legal_list(mask, end) == identity(end as nat),
    decreases end,
{
    if end > 0 {
        lemma_all_legal(mask, end - 1);
        assert(mask[end - 1]);
    }
    assert(legal_list(mask, end) =~= identity(end as nat));
}

/// Whether all flags are set.
fn all_set(mask: &Vec<bool>) -> (all: bool)
    ensures
        all <==> forall|i: int| 0 <= i < mask@.len() ==> #[trigger] mask@[i],
{
    let mut i: usize = 0;
    while i < mask.len()
        invariant
            i <= mask@.len(),
            forall|j: int| 0 <= j < i ==> #[trigger] mask@[j],
        decreases mask@.len() - i,
    {
        if !mask[i] {
            assert(!mask@[i as int]);
            return false;
        }
        i = i + 1;
    }
    true
}

/// The number of plies that a search goes.
pub open spec fn plies_of(depth: int) -> int {
    if depth == 0 {
        1
    } else {
        depth
    }
}

/// The seed of a shuffle, which is never zero.
pub open spec fn seed_of(seed: u64) -> u64 {
    if seed == 0 {
        1
    } else {
        seed
    }
}

/// Equal positions, depths and seeds give the bot equal moves. A depth counts as one where it
/// is less and as four where it is more, and the seed zero as one.
pub proof fn bot_plays_one_move<E: BoardGame>(
    env: E,
    fen: Seq<char>,
    depth: u32,
    seed: u64,
    one: Seq<char>,
    other_depth: u32,
    other_seed: u64,
    other: Seq<char>,
)
    requires
        searched(env, fen, clamped(depth as int, 4) as usize, seed_of(seed), one),
        searched(env, fen, clamped(other_depth as int, 4) as usize, seed_of(other_seed), other),
        depth == other_depth || depth <= 1 && other_depth <= 1 || depth >= 4 && other_depth >= 4,
        seed == other_seed || seed <= 1 && other_seed <= 1,
    ensures
        one == other,
{
    let n = legal_moves_of(fen).len();
    let plies = (clamped(depth as int, 4) - 1) as nat;
    let start = fisher_yates(identity(n), n, seed_of(seed));
    let (order, action) = choose|order: Seq<usize>, action: int|
        {
            &&& #[trigger] stable_order(hints_spec(env), start, order)
            &&& #[trigger] best_in_order(env, order, plies, action)
            &&& 0 <= action < n
            &&& one == legal_moves_of(fen)[action].uci_spec()
        };
    let (other_order, other_action) = choose|order: Seq<usize>, action: int|
        {
            &&& #[trigger] stable_order(hints_spec(env), start, order)
            &&& #[trigger] best_in_order(env, order, plies, action)
            &&& 0 <= action < n
            &&& other == legal_moves_of(fen)[action].uci_spec()
        };
    order_is_unique(hints_spec(env), start, order, other_order);
    best_in_order_is_unique(env, order, plies, action, other_action);
}

/// The best move of the position of a FEN, by alpha-beta search in a game. It is the best move
/// of the position where the game stands for it as deep as the search goes.
///
/// None comes back where the FEN cannot be read, where there is no move, and where the game
/// does not have the moves of the position.
pub fn best_move_uci<E: BoardGame>(fen: &str, env: &E, depth: usize, seed: u64) -> (best: Option<
    String,
>)
    ensures
        best is Some <==> playable_fen(fen@) && legal_moves_of(fen@).len() > 0 && has_moves_of(
            *env,
            fen@,
        ),
        best matches Some(uci) ==> searched(
            *env,
            fen@,
            plies_of(depth as int) as usize,
            seed_of(seed),
            uci@,
        ),
{
    match Position::read(fen) {
        None => None,
        Some(position) => {
            let n: usize = position.moves.len();
            let mask: Vec<bool> = env.legal_mask();
            proof {
                assert(mask@.len() == mask.len());
                assert(has_moves_of(*env, fen@) <==> mask@.len() == n && forall|i: int|
                    0 <= i < mask@.len() ==> #[trigger] mask@[i]) by {
                    if mask@.len() == n && forall|i: int|
                        0 <= i < mask@.len() ==> #[trigger] mask@[i] {
                        assert(mask@ =~= Seq::new(n as nat, |i: int| true));
                    }
                    if has_moves_of(*env, fen@) {
                        assert(mask@ == Seq::new(n as nat, |i: int| true));
                    }
                }
            }
            if n == 0 || mask.len() != n || !all_set(&mask) {
                return None;
            }
            let mut rng: Rng = Rng::new(bot_seed(seed));
            let mut start: Vec<usize> = identity_order(n);
            let ghost unshuffled = start@;
            rng.shuffle(start.as_mut_slice());
            proof {
                lemma_all_legal(mask@, n as int);
                lemma_permutation_from_multiset(start@, unshuffled, n as int);
            }
            let plies: usize = if depth == 0 {
                1
            } else {
                depth
            };
            let action: usize = alpha_beta_best(env, plies, &start);
            let best: String = position.moves[action].uci();
            proof {
                let order = choose|order: Seq<usize>| #[trigger]
                    stable_order(hints_spec(*env), start@, order) && best_in_order(
                        *env,
                        order,
                        (plies - 1) as nat,
                        action as int,
                    );
                assert(best_in_order(*env, order, (plies - 1) as nat, action as int));
            }
            Some(best)
        },
    }
}

/// The bot's move: alpha-beta search of one to four plies, which stays quick.
pub fn chess_bot_move<E: BoardGame>(fen: &str, env: &E, depth: u32, seed: u64) -> (best: Option<
    String,
>)
    ensures
        best is Some <==> playable_fen(fen@) && legal_moves_of(fen@).len() > 0 && has_moves_of(
            *env,
            fen@,
        ),
        best matches Some(uci) ==> searched(
            *env,
            fen@,
            clamped(depth as int, 4) as usize,
            seed_of(seed),
            uci@,
        ),
{
    best_move_uci(fen, env, bot_depth(depth), seed)
}

/// The FEN of the position that a game starts from.
pub open spec fn start_fen() -> Seq<char> {
    "rnbqkbnr/pppppppp/8/8/8/8/PPPPPPPP/RNBQKBNR w KQkq - 0 1"@
}

/// Whether a notation names move `i`.
pub open spec fn names_one(moves: Seq<Move>, uci: Seq<char>, i: int) -> bool {
    0 <= i < moves.len() && moves[i].uci_spec() == uci
}

/// The number of the first legal move that a notation names.
pub fn find_move(moves: &Vec<Move>, uci: &str) -> (found: Option<usize>)
    requires
        forall|i: int| 0 <= i < moves@.len() ==> (#[trigger] moves@[i]).on_board(),
    ensures
        found is None <==> forall|i: int| !#[trigger] names_one(moves@, uci@, i),
        found matches Some(i) ==> names_one(moves@, uci@, i as int) && forall|j: int|
            0 <= j < i ==> !#[trigger] names_one(moves@, uci@, j),
{
    let mut i: usize = 0;
    while i < moves.len()
        invariant
            i <= moves@.len(),
            forall|j: int| 0 <= j < moves@.len() ==> (#[trigger] moves@[j]).on_board(),
            forall|j: int| 0 <= j < i ==> !#[trigger] names_one(moves@, uci@, j),
        decreases moves@.len() - i,
    {
        if same_text(moves[i].uci().as_str(), uci) {
            assert(names_one(moves@, uci@, i as int));
            return Some(i);
        }
        i = i + 1;
    }
    None
}

/// A game of chess, with the positions that led to the current one.
#[derive(Debug)]
pub struct ChessGame {
    pub fen: String,
    pub history: Vec<String>,
    pub simulations: usize,
}

/// The most simulations of a search for a chess move.
pub const MAX_SIMULATIONS: usize = 800;

impl ChessGame {
    /// A new game, with a number of simulations for the search.
    pub fn create_chess(simulations: u32) -> (game: ChessGame)
        ensures
            game.fen@ == start_fen(),
            game.history@.len() == 0,
            game.simulations == clamped(simulations as int, MAX_SIMULATIONS as int),
    {
        let fen: String = "rnbqkbnr/pppppppp/8/8/8/8/PPPPPPPP/RNBQKBNR w KQkq - 0 1".to_owned();
        let mut game = ChessGame { fen, history: Vec::new(), simulations: 1 };
        game.set_simulations(simulations);
        game
    }

    /// Plays a move if its notation names a legal one, and says whether it did.
    pub fn play_uci(&mut self, uci: &str) -> (played: bool)
        ensures
            played <==> playable_fen(old(self).fen@) && exists|i: int| #[trigger]
                names_one(legal_moves_of(old(self).fen@), uci@, i),
            !played ==> *final(self) == *old(self),
            played ==> {
                &&& leads_to(old(self).fen@, uci@, final(self).fen@)
                &&& final(self).history@ == old(self).history@.push(old(self).fen)
            },
            final(self).simulations == old(self).simulations,
    {
        match Position::read(self.fen.as_str()) {
            None => false,
            Some(position) => match find_move(&position.moves, uci) {
                None => false,
                Some(i) => {
                    let m: Move = position.moves[i];
                    assert(position.moves@.contains(m));
                    let mut next: String = position.after(&m);
                    assert(leads_to(old(self).fen@, uci@, next@));
                    std::mem::swap(&mut self.fen, &mut next);
                    self.history.push(next);
                    true
                },
            },
        }
    }

    /// Starts over.
    pub fn reset(&mut self)
        ensures
            final(self).fen@ == start_fen(),
            final(self).history@.len() == 0,
            final(self).simulations == old(self).simulations,
    {
        self.fen = "rnbqkbnr/pppppppp/8/8/8/8/PPPPPPPP/RNBQKBNR w KQkq - 0 1".to_owned();
        self.history = Vec::new();
    }

    /// Whether no move is left.
    pub fn is_over(&self) -> (over: bool)
        ensures
            over <==> !playable_fen(self.fen@) || legal_moves_of(self.fen@).len() == 0,
    {
        match Position::read(self.fen.as_str()) {
            None => true,
            Some(position) => position.moves.len() == 0,
        }
    }

    pub fn simulations(&self) -> (n: usize)
        ensures
            n == self.simulations,
    {
        self.simulations
    }

    /// Sets the number of simulations, between one and the most that a search takes.
    pub fn set_simulations(&mut self, simulations: u32)
        ensures
            *final(self) == (ChessGame {
                simulations: clamped(simulations as int, MAX_SIMULATIONS as int) as usize,
                ..*old(self)
            }),
    {
        self.simulations = if simulations < 1 {
            1
        } else if simulations as usize > MAX_SIMULATIONS {
            MAX_SIMULATIONS
        } else {
            simulations as usize
        };
    }
}

/// Whether a legal move that a notation names leads from one position to another.
pub open spec fn leads_to(fen: Seq<char>, uci: Seq<char>, after: Seq<char>) -> bool {
    exists|i: int|
        #[trigger] names_one(legal_moves_of(fen), uci, i) && after == after_move_of(
            fen,
            legal_moves_of(fen)[i],
        )
}

/// A notation leads to one position alone, whatever legal move it is read as.
pub proof fn notation_leads_to_one_position(
    fen: Seq<char>,
    uci: Seq<char>,
    one: Seq<char>,
    other: Seq<char>,
)
    requires
        leads_to(fen, uci, one),
        leads_to(fen, uci, other),
        forall|i: int|
            0 <= i < legal_moves_of(fen).len() ==> (#[trigger] legal_moves_of(fen)[i]).on_board(),
    ensures
        one == other,
{
    let moves = legal_moves_of(fen);
    let i = choose|i: int|
        #[trigger] names_one(moves, uci, i) && one == after_move_of(fen, moves[i]);
    let j = choose|j: int|
        #[trigger] names_one(moves, uci, j) && other == after_move_of(fen, moves[j]);
    notation_tells_moves_apart(moves[i], moves[j]);
}

/// The best move of a position by a policy; none where there is no move.
pub fn best_move(fen: &str, policy: &Vec<Single>) -> (best: Option<String>)
    requires
        policy@.len() == 4096,
    ensures
        best is None <==> !playable_fen(fen@) || legal_moves_of(fen@).len() == 0,
        best matches Some(uci) ==> ranked_first(fen@, policy@, uci@),
{
    let mut ranked: Vec<String> = ranked_moves(fen, policy);
    if ranked.len() == 0 {
        return None;
    }
    proof {
        let moves = crate::chess_eval::pruned(legal_moves_of(fen@));
        let order = choose|order: Seq<usize>|
            #[trigger] stable_order(
                crate::chess_eval::move_scores(moves, policy@),
                identity(moves.len()),
                order,
            ) && order.len() == ranked@.len() && forall|i: int|
                0 <= i < ranked@.len() ==> (#[trigger] ranked@[i])@
                    == moves[order[i] as int].uci_spec();
        assert(ranked@[0]@ == moves[order[0] as int].uci_spec());
        assert(ranked_first(fen@, policy@, ranked@[0]@));
    }
    Some(ranked.remove(0))
}

/// Whether a move comes first in the order of a policy.
pub open spec fn ranked_first(fen: Seq<char>, policy: Seq<Single>, uci: Seq<char>) -> bool {
    let moves = crate::chess_eval::pruned(legal_moves_of(fen));
    exists|order: Seq<usize>| #[trigger]
        stable_order(
            crate::chess_eval::move_scores(moves, policy),
            identity(moves.len()),
            order,
        ) && uci == moves[order[0] as int].uci_spec()
}

/// The move that comes first is a legal one, written in the notation of chess programs. No other
/// legal move has a larger entry in the policy, where the entry of a move is that of the square
/// that it starts from and the square that it goes to. Moves that turn a pawn into less than a
/// queen do not count.
pub proof fn policies_choose_by_their_entries(
    fen: Seq<char>,
    policy: Seq<Single>,
    uci: Seq<char>,
    other: int,
)
    requires
        ranked_first(fen, policy, uci),
        legal_moves_of(fen).len() <= usize::MAX,
        0 <= other < legal_moves_of(fen).len(),
        legal_moves_of(fen)[other].promotion is None || legal_moves_of(fen)[other].promotion
            == Some(Kind::Queen),
    ensures
        exists|i: int|
            {
                let best = legal_moves_of(fen)[i];
                let rival = legal_moves_of(fen)[other];
                &&& 0 <= i < legal_moves_of(fen).len()
                &&& #[trigger] names_one(legal_moves_of(fen), uci, i)
                &&& best.promotion is None || best.promotion == Some(Kind::Queen)
                &&& policy[best.source * 64 + best.dest].total_rank() >= policy[rival.source * 64
                    + rival.dest].total_rank()
                &&& !policy[best.source * 64 + best.dest].lt_spec(
                    policy[rival.source * 64 + rival.dest],
                )
            },
{
    let all = legal_moves_of(fen);
    let keep = |m: Move| !m.underpromotes();
    let moves = crate::chess_eval::pruned(all);
    let scores = crate::chess_eval::move_scores(moves, policy);
    let order = choose|order: Seq<usize>| #[trigger]
        stable_order(scores, identity(moves.len()), order) && uci
            == moves[order[0] as int].uci_spec();
    all.lemma_filter_len(keep);
    assert(all.contains(all[other]));
    all.lemma_filter_contains(keep, other);
    let k = choose|k: int| 0 <= k < moves.len() && moves[k] == all[other];
    lemma_identity_is_permutation(moves.len());
    lemma_permutation_from_multiset(order, identity(moves.len()), moves.len() as int);
    assert(order.contains(k as usize));
    let p = choose|p: int| 0 <= p < order.len() && order[p] == k as usize;
    let first = order[0] as int;
    assert(order[0] < moves.len());
    assert(moves.contains(moves[first]));
    all.lemma_filter_contains_rev(keep, moves[first]);
    let i = choose|i: int| 0 <= i < all.len() && all[i] == moves[first];
    assert(names_one(all, uci, i));
    assert(scores[first] == policy[all[i].source * 64 + all[i].dest]);
    assert(scores[k] == policy[all[other].source * 64 + all[other].dest]);
    if p > 0 {
        assert(crate::opponent::comes_before(scores, identity(moves.len()), order[0], order[p]));
    }
    crate::single::total_order_refines_less(scores[first], scores[k]);
}

/// The bot plays a legal move that no other legal move betters, as far as it searches: the move
/// that ends a game is worth the score of that game, and any other the opposite of what the
/// position after it is worth to the side that is to move there.
pub proof fn bots_play_a_best_move<E: BoardGame>(
    env: E,
    fen: Seq<char>,
    depth: usize,
    seed: u64,
    uci: Seq<char>,
    other: int,
)
    requires
        depth >= 1,
        has_moves_of(env, fen),
        legal_moves_of(fen).len() <= usize::MAX,
        searched(env, fen, depth, seed, uci),
        0 <= other < legal_moves_of(fen).len(),
    ensures
        exists|action: int|
            {
                let worth = |b: int|
                    if env.result_spec(b).done || env.result_spec(b).truncated {
                        env.result_spec(b).score
                    } else {
                        plain_value(env.next_spec(b), (depth - 1) as nat).neg_spec()
                    };
                &&& #[trigger] names_one(legal_moves_of(fen), uci, action)
                &&& !worth(action).lt_spec(worth(other))
            },
{
    let n = legal_moves_of(fen).len();
    let start = fisher_yates(identity(n), n, seed);
    let (order, action) = choose|order: Seq<usize>, action: int|
        {
            &&& #[trigger] stable_order(hints_spec(env), start, order)
            &&& #[trigger] best_in_order(env, order, (depth - 1) as nat, action)
            &&& 0 <= action < n
            &&& uci == legal_moves_of(fen)[action].uci_spec()
        };
    let mask = env.legal_spec();
    assert(mask.len() == n);
    assert forall|i: int| 0 <= i < mask.len() implies #[trigger] mask[i] by {
        assert(Seq::new(n, |i: int| true)[i]);
    }
    lemma_all_legal(mask, n as int);
    lemma_identity_is_permutation(n);
    shuffles_keep_all_entries(identity(n), n, seed);
    lemma_permutation_from_multiset(start, identity(n), n as int);
    pruning_agrees_with_plain_negamax(env, (depth - 1) as nat, start, order, action, other);
    assert(names_one(legal_moves_of(fen), uci, action));
}

/// A search goes as many plies as it is asked for, and one at least; a seed is kept unless it is
/// zero.
pub proof fn searches_go_as_asked(depth: int, seed: u64)
    ensures
        depth >= 1 ==> plies_of(depth) == depth,
        plies_of(0) == 1,
        seed >= 1 ==> seed_of(seed) == seed,
        seed_of(0) == 1,
{
}

/// A line of moves leads where its moves lead one after the other, each of them legal where it
/// is played.
pub proof fn lines_lead_move_by_move(fen: Seq<char>, line: Seq<usize>, next: usize)
    ensures
        fen_after(fen, seq![]) == fen,
        fen_after(fen, line.push(next)) == after_move_of(
            fen_after(fen, line),
            legal_moves_of(fen_after(fen, line))[next as int],
        ),
        names_moves(fen, line.push(next)) <==> names_moves(fen, line) && next < legal_moves_of(
            fen_after(fen, line),
        ).len(),
{
    assert(line.push(next).drop_last() =~= line);
}

} // verus!
