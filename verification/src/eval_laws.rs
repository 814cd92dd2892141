//! What an evaluation against benchmark opponents promises, told by the games, their outcomes and
//! the rungs of the ladder.
use vstd::prelude::*;
use crate::config::{EvalConfig, MuZeroConfig, RungConfig};
use crate::eval::{
    EloLadder, EvalResult, Game, Player, Stand, agent_chose, agent_games, agent_job, best_actions,
    eval_config_spec, game_seed_spec, lemma_agent_games, masks_of, opened, opening_in, opening_of,
    opening_seed_spec, opponent_draw, opponent_moved, outcome_of_line, position_after,
    positions_of, promoted, random_line, round_played_by, rung_spec, stepped, tally_spec,
};
use crate::course::results_of;
use crate::extract::SearchReturn;
use crate::opponent::{BoardGame, Opponent, legal_list};
use crate::rng::drawn_below;
use crate::text::{decimal_spec, decimals_are_read_back};
use crate::search::PredictionsView;
use crate::single::Single;

verus! {

/// A game that ends with a move is worth the reward of that move to the side that made it. The
/// outcome is told as the agent sees it: as it is where the agent moved, and turned round where the
/// opponent did. A game that takes too long is drawn. With every move the turn goes to the other
/// side.
pub proof fn outcomes_are_told_as_the_agent_sees_them<E: BoardGame>(
    before: Game<E>,
    after: Game<E>,
    action: usize,
)
    requires
        stepped(before, after, action),
    ensures
        ({
            let result = before.env.result_spec(action as int);
            let ends = result.done || result.truncated;
            &&& before.agent_to_move != after.agent_to_move
            &&& after.plies == before.plies + 1
            &&& after.env == before.env.next_spec(action as int)
            &&& action < before.env.legal_spec().len() && before.env.legal_spec()[action as int]
            &&& ends ==> {
                &&& after.outcome is Some
                &&& after.outcome->0.nan() == result.reward.nan()
                &&& before.agent_to_move ==> after.outcome->0.rank() == result.reward.rank()
                &&& !before.agent_to_move ==> after.outcome->0.rank() == -result.reward.rank()
            }
            &&& !ends && after.plies >= before.max_steps ==> {
                &&& after.outcome is Some
                &&& after.outcome->0.rank() == 0
                &&& !after.outcome->0.nan()
            }
            &&& !ends && after.plies < before.max_steps ==> after.outcome == before.outcome
        }),
{
    let reward = before.env.result_spec(action as int).reward;
    crate::single::negation_reverses_order(reward, reward);
}

/// A move is worth the opposite to the other side: had the opponent made it, the agent would have
/// lost what it has won.
pub proof fn sides_have_opposite_outcomes<E: BoardGame>(
    before: Game<E>,
    after: Game<E>,
    other_before: Game<E>,
    other_after: Game<E>,
    action: usize,
)
    requires
        stepped(before, after, action),
        stepped(other_before, other_after, action),
        other_before == (Game { agent_to_move: !before.agent_to_move, ..before }),
        before.outcome is None,
    ensures
        after.outcome is Some == other_after.outcome is Some,
        after.outcome is Some ==> after.outcome->0.rank() == -other_after.outcome->0.rank(),
{
    let reward = before.env.result_spec(action as int).reward;
    crate::single::negation_reverses_order(reward, reward);
}

/// One more game is counted once: as won where its outcome is above zero, as lost where it is
/// below, and as drawn where it is zero. A game without an outcome, or with one that is no number,
/// changes nothing.
pub proof fn games_are_counted_by_their_outcomes<E: BoardGame>(games: Seq<Game<E>>, next: Game<E>)
    ensures
        tally_spec(Seq::<Game<E>>::empty(), 0) == (0int, 0int, 0int),
        ({
            let n = games.len() as int;
            let before = tally_spec(games, n);
            let after = tally_spec(games.push(next), n + 1);
            let counts = next.outcome is Some && !next.outcome->0.nan();
            let rank = next.outcome->0.rank();
            &&& after.0 == before.0 + if counts && rank > 0 {
                1int
            } else {
                0
            }
            &&& after.1 == before.1 + if counts && rank == 0 {
                1int
            } else {
                0
            }
            &&& after.2 == before.2 + if counts && rank < 0 {
                1int
            } else {
                0
            }
        }),
{
    lemma_tally_prefix(games, games.push(next), games.len() as int);
}

proof fn lemma_tally_prefix<E: BoardGame>(games: Seq<Game<E>>, more: Seq<Game<E>>, end: int)
    requires
        0 <= end <= games.len() <= more.len(),
        forall|i: int| 0 <= i < games.len() ==> games[i] == more[i],
    ensures
        tally_spec(games, end) == tally_spec(more, end),
    decreases end,
{
    if end > 0 {
        lemma_tally_prefix(games, more, end - 1);
    }
}

/// Points and games: a win is worth two half points, a draw one, and a loss none, of two that a
/// game has. To win in place of losing is worth everything, and two draws are worth a win and a
/// loss.
pub proof fn points_are_shared(a: EvalResult, b: EvalResult)
    requires
        a.wins + a.draws + a.losses == b.wins + b.draws + b.losses,
        a.wins + a.draws + a.losses > 0,
    ensures
        a.score_spec().denominator == b.score_spec().denominator,
        a.score_spec().denominator == 2 * (a.wins + a.draws + a.losses),
        a.score_spec().numerator - b.score_spec().numerator == 2 * (a.wins - b.wins) + (a.draws
            - b.draws),
        2 * a.score_spec().numerator - a.score_spec().denominator == 2 * (a.wins - a.losses),
{
}

/// The agent goes up a rung for a score that is not below the one for promotion, and down one for a
/// score that is not above the one for demotion, as long as there is a rung. Promotion comes first.
pub proof fn scores_move_the_agent(
    current: int,
    rungs: int,
    score: Single,
    promote_score: Single,
    demote_score: Single,
)
    requires
        0 <= current < rungs,
        !score.nan(),
        !promote_score.nan(),
        !demote_score.nan(),
    ensures
        ({
            let after = promoted(current, rungs, score, promote_score, demote_score);
            let up = score.rank() >= promote_score.rank() && current < rungs - 1;
            let down = score.rank() <= demote_score.rank() && current > 0;
            &&& up ==> after == current + 1
            &&& !up && down ==> after == current - 1
            &&& !up && !down ==> after == current
        }),
{
}

/// A better score never leads to a lower rung.
pub proof fn better_scores_lead_no_lower(
    current: int,
    rungs: int,
    worse: Single,
    better: Single,
    promote_score: Single,
    demote_score: Single,
)
    requires
        0 <= current < rungs,
        worse.lt_spec(better),
        !promote_score.nan(),
        !demote_score.nan(),
    ensures
        promoted(current, rungs, worse, promote_score, demote_score) <= promoted(
            current,
            rungs,
            better,
            promote_score,
            demote_score,
        ),
{
}

/// Evaluations are due from the step on that was set for the next one, and never where there is no
/// interval or no ladder.
pub proof fn evaluations_wait_for_their_step(ladder: EloLadder, step: usize)
    ensures
        ladder.due_spec(step) <==> ladder.conf.interval != 0 && ladder.rungs@.len() != 0
            && ladder.next_eval <= step,
{
}

/// An evaluation searches without noise at the root, with its own number of simulations if it has
/// one, and as in training otherwise.
pub proof fn evaluations_search_without_noise(mz_conf: MuZeroConfig, conf: EvalConfig)
    ensures
        ({
            let used = eval_config_spec(mz_conf, conf);
            &&& used.puct is Some == mz_conf.puct is Some
            &&& used.puct is Some ==> used.puct->0.root_exploration_fraction.rank() == 0
                && !used.puct->0.root_exploration_fraction.nan()
            &&& conf.num_simulations matches Some(n) ==> used.num_simulations == n
            &&& conf.num_simulations is None ==> used.num_simulations == mz_conf.num_simulations
            &&& mz_conf.puct is None ==> used == (MuZeroConfig {
                num_simulations: used.num_simulations,
                ..mz_conf
            })
            &&& mz_conf.puct is Some ==> mz_conf == (MuZeroConfig {
                num_simulations: mz_conf.num_simulations,
                puct: mz_conf.puct,
                ..used
            })
        }),
{
}

/// The agent and the opponent take turns from the first ply on, and the agent has the first move of
/// every other game, the opening counted. A game that its opening ended has no number for an
/// outcome, and any other has none yet.
pub proof fn openings_leave_the_turns_in_order<E: BoardGame>(
    start: E,
    conf: EvalConfig,
    i: usize,
    game: Game<E>,
)
    requires
        opened(start, conf, i, game),
    ensures
        game.agent_to_move <==> (i + game.plies) % 2 == 0,
        game.outcome matches Some(outcome) ==> outcome.nan(),
        game.outcome is Some <==> opening_in(start, conf, i).ended,
        game.env == opening_in(start, conf, i).env,
        game.plies == opening_in(start, conf, i).moves.len(),
{
}

/// No two games have the same seed for their moves.
pub proof fn games_have_seeds_of_their_own(seed: u64, i: u64, j: u64)
    requires
        i != j,
    ensures
        game_seed_spec(seed, i) != game_seed_spec(seed, j),
{
    assert(seed ^ 0x9E37_79B9u64 ^ i != seed ^ 0x9E37_79B9u64 ^ j) by (bit_vector)
        requires
            i != j,
    ;
}

/// Two games have the same opening seed exactly where they are the two of a pair.
pub proof fn pairs_have_opening_seeds_of_their_own(seed: u64, i: u64, j: u64)
    ensures
        opening_seed_spec(seed, i) == opening_seed_spec(seed, j) <==> i / 2 == j / 2,
{
    let a = i / 2;
    let b = j / 2;
    assert((seed ^ a == seed ^ b) == (a == b)) by (bit_vector);
}

/// The agent moves in the games that go on and wait for it, each once, and in no other.
pub proof fn agent_moves_where_it_is_waited_for<E: BoardGame>(games: Seq<Game<E>>, end: int, i: int)
    requires
        0 <= i < end <= games.len() <= usize::MAX,
    ensures
        agent_games(games, end).contains(i as usize) <==> games[i].outcome is None
            && games[i].agent_to_move,
        agent_games(games, end).no_duplicates(),
    decreases end,
{
    crate::eval::lemma_agent_games(games, end);
    let list = agent_games(games, end);
    if list.contains(i as usize) {
        let k = choose|k: int| 0 <= k < list.len() && list[k] == i as usize;
        assert(list[k] == i);
    }
}

/// The agent's moves are searched as the configuration has it: with its algorithm and number of
/// simulations, the masks of the positions, and no visit of the root to begin with. No more actions
/// are considered than there are, nor than are configured.
pub proof fn agents_search_as_configured(
    mz_conf: MuZeroConfig,
    masks: Seq<Seq<bool>>,
    roots: PredictionsView,
)
    requires
        mz_conf.gumbel is Some,
    ensures
        ({
            let job = agent_job(mz_conf, masks, roots);
            let limit = mz_conf.gumbel->0.max_num_considered_actions;
            &&& job.algorithm == mz_conf.search_algorithm
            &&& job.num_simulations == mz_conf.num_simulations
            &&& job.action_space == mz_conf.action_space
            &&& job.root_visits == 0
            &&& job.masks == Some(masks)
            &&& job.roots == roots
            &&& job.max_considered <= mz_conf.action_space
            &&& mz_conf.search_algorithm is Gumbel ==> job.max_considered <= limit && (
            job.max_considered == limit || job.max_considered == mz_conf.action_space)
        }),
{
}

/// A rung is the opponent that its configuration names, with the rating that it names.
pub proof fn rungs_are_as_configured(config: RungConfig)
    ensures
        config matches RungConfig::Random { elo } ==> rung_spec(config).opponent is Random
            && rung_spec(config).elo == elo,
        config matches RungConfig::AlphaBeta { depth, epsilon, elo } ==> {
            &&& rung_spec(config).opponent is AlphaBeta
            &&& rung_spec(config).opponent->depth == depth
            &&& rung_spec(config).opponent->epsilon == epsilon
            &&& rung_spec(config).elo == elo
        },
{
}

/// What a round does to a game. A game that is over stays as it is. Where the agent is to move it
/// moves once. Where the opponent is to move it moves first, and then the agent, unless the move of
/// the opponent has ended the game.
pub proof fn rounds_give_both_their_move<E: BoardGame, P: Player<E>>(
    mz_conf: MuZeroConfig,
    opponent: Opponent,
    before: Stand<E, P>,
    after: Stand<E, P>,
    between: Seq<Game<E>>,
    actions: Seq<usize>,
    i: int,
)
    requires
        round_played_by(mz_conf, opponent, before, after, between, actions),
        0 <= i < before.games.len() <= usize::MAX,
    ensures
        after.games.len() == before.games.len(),
        ({
            let first = before.games[i];
            let last = after.games[i];
            &&& first.outcome is Some ==> last == first
            &&& first.outcome is None && first.agent_to_move ==> exists|action: usize| #[trigger]
                stepped(first, last, action) && last.rng == first.rng
            &&& first.outcome is None && !first.agent_to_move ==> {
                &&& between[i].plies == first.plies + 1
                &&& between[i].agent_to_move
                &&& between[i].outcome is Some ==> last == between[i]
                &&& between[i].outcome is None ==> last.plies == first.plies + 2
                    && !last.agent_to_move
            }
        }),
{
    let active = agent_games(between, between.len() as int);
    lemma_agent_games(between, between.len() as int);
    assert(opponent_moved::<E, P>(opponent, before.games[i], between[i]));
    if active.contains(i as usize) {
        let k = choose|k: int| 0 <= k < active.len() && active[k] == i as usize;
        assert(active[k] == i);
        assert(stepped(between[i], after.games[i], actions[k]));
    } else {
        assert(after.games[i] == between[i]);
        if between[i].outcome is None && between[i].agent_to_move {
            assert(between[i].live_spec());
        }
    }
}

/// The agent's moves are asked of the positions of its games, with the legal actions of each, and
/// each move is the best action of the search in its own game, and legal there.
pub proof fn agents_are_asked_of_their_own_games<E: BoardGame, P: Player<E>>(
    mz_conf: MuZeroConfig,
    games: Seq<Game<E>>,
    active: Seq<usize>,
    player: P,
    actions: Seq<usize>,
    after: P,
    k: int,
)
    requires
        agent_chose(mz_conf, games, active, player, actions, after),
        0 <= k < active.len(),
    ensures
        positions_of(games, active).len() == active.len(),
        positions_of(games, active)[k] == games[active[k] as int].env,
        masks_of(games, active).len() == active.len(),
        masks_of(games, active)[k] == games[active[k] as int].env.legal_spec(),
        actions.len() == active.len(),
        games[active[k] as int].env.legal_spec()[actions[k] as int],
        ({
            let (roots, asked) = player.roots_spec(positions_of(games, active));
            let job = agent_job(mz_conf, masks_of(games, active), roots);
            exists|results: Seq<SearchReturn>| #[trigger]
                results_of(job, asked, Single::zero_spec(), results) && actions[k]
                    == results[k].best_action
        }),
{
    let (roots, asked) = player.roots_spec(positions_of(games, active));
    let job = agent_job(mz_conf, masks_of(games, active), roots);
    let results = choose|results: Seq<SearchReturn>| #[trigger]
        results_of(job, asked, Single::zero_spec(), results) && actions == best_actions(results);
    assert(results_of(job, asked, Single::zero_spec(), results) && actions[k]
        == results[k].best_action);
    assert(games[active[k] as int].legal(actions[k] as int));
}

/// Nothing is drawn for an opponent without noise, and the generator stays as it is; for one with
/// noise one number is drawn.
pub proof fn noise_alone_is_drawn_for<E: BoardGame, P: Player<E>>(opponent: Opponent, game: Game<E>)
    ensures
        opponent is Random ==> opponent_draw::<E, P>(opponent, game).1 == game.rng.seed,
        opponent matches Opponent::AlphaBeta { depth, epsilon } ==> {
            &&& !Single::zero_spec().lt_spec(epsilon) ==> opponent_draw::<E, P>(opponent, game).1
                == game.rng.seed
            &&& Single::zero_spec().lt_spec(epsilon) ==> opponent_draw::<E, P>(opponent, game)
                == P::unit_spec(game.rng.seed)
        },
{
}

/// A random opening: where it leads is where its moves lead, it has no more moves than it was to
/// have, and fewer only where its last move ended the game or left no legal action. A longer
/// opening with the same seed starts with the same moves.
pub proof fn openings_are_random_lines<E: BoardGame>(env: E, left: nat, seed: u64)
    ensures
        ({
            let short = random_line(env, left, seed);
            let long = random_line(env, left + 1, seed);
            &&& short.moves.len() <= left
            &&& short.env == position_after(env, short.moves)
            &&& short.moves.len() < left && !short.ended ==> legal_list(
                short.env.legal_spec(),
                short.env.legal_spec().len() as int,
            ).len() == 0
            &&& short.ended ==> short.moves.len() > 0 && {
                let result = position_after(env, short.moves.drop_last()).result_spec(
                    short.moves.last() as int,
                );
                result.done || result.truncated
            }
            &&& short.moves.len() <= long.moves.len()
            &&& forall|j: int| 0 <= j < short.moves.len() ==> #[trigger] long.moves[j]
                == short.moves[j]
            &&& short.moves.len() > 0 ==> short.moves[0] == legal_list(
                env.legal_spec(),
                env.legal_spec().len() as int,
            )[drawn_below(
                seed,
                legal_list(env.legal_spec(), env.legal_spec().len() as int).len() as usize,
                usize::BITS,
            ).0 as int]
        }),
    decreases left,
{
    let list = legal_list(env.legal_spec(), env.legal_spec().len() as int);
    let short = random_line(env, left, seed);
    let long = random_line(env, left + 1, seed);
    if left > 0 && list.len() > 0 {
        let drawn = drawn_below(seed, list.len() as usize, usize::BITS);
        let choice = list[drawn.0 as int];
        let next = env.next_spec(choice as int);
        if env.result_spec(choice as int).over() {
            assert(short.moves =~= seq![choice]);
            assert(short.moves.drop_last() =~= Seq::<usize>::empty());
            lemma_first_move(env, choice, Seq::empty());
            assert(seq![choice] + Seq::<usize>::empty() =~= seq![choice]);
        } else {
            openings_are_random_lines(next, (left - 1) as nat, drawn.1);
            let rest = random_line(next, (left - 1) as nat, drawn.1);
            let longer = random_line(next, left, drawn.1);
            assert(short.moves == seq![choice] + rest.moves);
            assert(long.moves == seq![choice] + longer.moves);
            lemma_first_move(env, choice, rest.moves);
            assert forall|j: int| 0 <= j < short.moves.len() implies #[trigger] long.moves[j]
                == short.moves[j] by {
                if j > 0 {
                    assert(longer.moves[j - 1] == rest.moves[j - 1]);
                }
            }
            if rest.ended {
                assert(short.moves.drop_last() =~= seq![choice] + rest.moves.drop_last());
                lemma_first_move(env, choice, rest.moves.drop_last());
            }
        }
    }
}

/// A line may be played from the position after its first move.
proof fn lemma_first_move<E: BoardGame>(env: E, first: usize, rest: Seq<usize>)
    ensures
        position_after(env, seq![first] + rest) == position_after(env.next_spec(first as int), rest),
    decreases rest.len(),
{
    let line = seq![first] + rest;
    if rest.len() == 0 {
        assert(line.drop_last() =~= Seq::<usize>::empty());
        assert(line.last() == first);
        assert(position_after(env, line.drop_last()) == env);
    } else {
        lemma_first_move(env, first, rest.drop_last());
        assert(line.drop_last() =~= seq![first] + rest.drop_last());
        assert(line.last() == rest.last());
    }
}

/// A line of moves leads where its moves lead, one after the other.
pub proof fn lines_are_played_move_by_move<E: BoardGame>(env: E, line: Seq<usize>, next: usize)
    ensures
        position_after(env, Seq::empty()) == env,
        position_after(env, line.push(next)) == position_after(env, line).next_spec(next as int),
{
    assert(line.push(next).drop_last() =~= line);
}

/// The length of an opening is drawn, up to the most moves that it may have and that many included.
pub proof fn opening_lengths_are_drawn<E: BoardGame>(start: E, most_plies: usize, seed: u64)
    requires
        most_plies < usize::MAX,
    ensures
        ({
            let drawn = drawn_below(seed, (most_plies + 1) as usize, usize::BITS);
            let opening = opening_of(start, most_plies, seed);
            &&& opening.moves.len() <= drawn.0
            &&& opening.moves.len() == drawn.0 || opening.ended || legal_list(
                opening.env.legal_spec(),
                opening.env.legal_spec().len() as int,
            ).len() == 0
            &&& opening.env == position_after(start, opening.moves)
        }),
{
    let drawn = drawn_below(seed, (most_plies + 1) as usize, usize::BITS);
    openings_are_random_lines(start, drawn.0 as nat, drawn.1);
}

/// The two games of a pair are told from opposite sides: the same line is worth the opposite to the
/// agent in the one and in the other. A line that its opening ended has no number for an outcome in
/// either, and one that takes too long is drawn.
pub proof fn pairs_are_told_from_opposite_sides<E: BoardGame>(
    start: E,
    opening_plies: nat,
    i: int,
    line: Seq<usize>,
)
    requires
        0 <= i,
        i % 2 == 0,
    ensures
        ({
            let one = outcome_of_line(start, opening_plies, i, line);
            let other = outcome_of_line(start, opening_plies, i + 1, line);
            &&& one is Some <==> other is Some
            &&& one is Some && !one->0.nan() ==> one->0.rank() == -other->0.rank()
            &&& one is Some && line.len() == opening_plies ==> one->0.nan() && other->0.nan()
            &&& line.len() < E::max_steps_spec() && one is Some ==> line.len() > 0 && {
                let result = position_after(start, line.drop_last()).result_spec(
                    line.last() as int,
                );
                &&& result.done || result.truncated
                &&& line.len() != opening_plies && line.len() % 2 == 1 ==> one == Some(result.reward)
            }
        }),
{
    if line.len() > 0 {
        let reward = position_after(start, line.drop_last()).result_spec(
            line.last() as int,
        ).reward;
        crate::single::negation_reverses_order(reward, reward);
    }
}

/// The name of an opponent that searches tells how deep it searches, and whether it has noise.
pub proof fn labels_tell_depths_apart(a: Opponent, b: Opponent, epsilon_text: Seq<char>)
    requires
        a is AlphaBeta,
        b is AlphaBeta,
        !Single::zero_spec().lt_spec(a->epsilon),
        !Single::zero_spec().lt_spec(b->epsilon),
        a.label_spec(epsilon_text) == b.label_spec(epsilon_text),
    ensures
        a->depth == b->depth,
{
    reveal_strlit("AlphaBeta(d=");
    reveal_strlit(")");
    decimals_are_read_back(a->depth as nat);
    decimals_are_read_back(b->depth as nat);
    let x = decimal_spec(a->depth as nat);
    let y = decimal_spec(b->depth as nat);
    let s = a.label_spec(epsilon_text);
    let t = b.label_spec(epsilon_text);
    assert(s.len() == t.len());
    assert(x.len() == y.len());
    let n = "AlphaBeta(d="@.len() as int;
    assert forall|j: int| 0 <= j < x.len() implies x[j] == y[j] by {
        assert(s[n + j] == x[j]);
        assert(t[n + j] == y[j]);
    }
    assert(x =~= y);
}

/// The text of the noise stands in the name of an opponent that has noise, and in no other.
pub proof fn labels_show_the_noise(opponent: Opponent, one: Seq<char>, other: Seq<char>)
    requires
        one != other,
    ensures
        opponent.label_spec(one) != opponent.label_spec(other) <==> {
            &&& opponent is AlphaBeta
            &&& Single::zero_spec().lt_spec(opponent->epsilon)
        },
{
    reveal_strlit("AlphaBeta(d=");
    reveal_strlit(", e=");
    reveal_strlit(")");
    if opponent is AlphaBeta && Single::zero_spec().lt_spec(opponent->epsilon)
        && opponent.label_spec(one) == opponent.label_spec(other) {
        let front = "AlphaBeta(d="@ + decimal_spec(opponent->depth as nat) + ", e="@;
        let s = opponent.label_spec(one);
        let t = opponent.label_spec(other);
        assert(s =~= front + one + ")"@);
        assert(t =~= front + other + ")"@);
        assert(s.len() == t.len());
        assert(one.len() == other.len());
        assert forall|j: int| 0 <= j < one.len() implies one[j] == other[j] by {
            assert(s[front.len() + j] == one[j]);
            assert(t[front.len() + j] == other[j]);
        }
        assert(one =~= other);
    }
}

/// The best rating is one that was read, and none that was read is above it; it does not matter in
/// which order two ratings are read.
pub proof fn best_ratings_are_never_beaten(best: Single, elo: Single, other: Single)
    requires
        !best.nan(),
        !elo.nan(),
        !other.nan(),
    ensures
        crate::eval::best_of(best, elo) == best || crate::eval::best_of(best, elo) == elo,
        crate::eval::best_of(best, elo).rank() >= best.rank(),
        crate::eval::best_of(best, elo).rank() >= elo.rank(),
        best.rank() == elo.rank() ==> crate::eval::best_of(best, elo) == best,
        crate::eval::best_of(crate::eval::best_of(best, elo), other).rank() == crate::eval::best_of(
            crate::eval::best_of(best, other),
            elo,
        ).rank(),
{
}

} // verus!
