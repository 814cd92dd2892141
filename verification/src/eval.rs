//! Evaluation against a ladder of benchmark opponents.
//!
//! The agent plays the rung of the ladder that it stands on. A convincing score takes
//! it up a rung, a poor one down, so that the reading stays meaningful.
use vstd::prelude::*;
use vstd::string::*;
use crate::config::{
    EvalConfig, MuZeroConfig, PuctSubConfig, QUARTER_BITS, RungConfig, SearchAlgorithm,
    THREE_QUARTERS_BITS, copy_rungs, default_ladder, default_ladder_spec,
};
use crate::batch::{mask_views, sizes_fit};
use crate::course::{Job, comes_to_results, fits, results_of, told_model};
use crate::extract::SearchReturn;
use crate::opponent::{BoardGame, Opponent, StepResult, legal_actions, legal_list, legal_list_is_exact};
use crate::rng::{Dice, drawn_below};
use crate::search::{
    Predictions, PredictionsView, SearchModel, batched_search, has_an_action, keeps_to_legal,
    scores_legal_actions,
};
use crate::single::Single;
use crate::text::{decimal, decimal_spec};

verus! {

/// How a series of games went.
#[derive(Clone, Copy, Debug, PartialEq, Eq, Structural)]
pub struct EvalResult {
    pub wins: usize,
    pub draws: usize,
    pub losses: usize,
}

impl Default for EvalResult {
    fn default() -> (result: EvalResult)
        ensures
            result.wins == 0,
            result.draws == 0,
            result.losses == 0,
    {
        EvalResult { wins: 0, draws: 0, losses: 0 }
    }
}

/// A fraction.
#[derive(Clone, Copy, Debug, PartialEq, Eq, Structural)]
pub struct Ratio {
    pub numerator: u128,
    pub denominator: u128,
}

impl EvalResult {
    /// The number of games.
    pub open spec fn games_spec(self) -> int {
        self.wins + self.draws + self.losses
    }

    /// The number of games.
    pub fn games(&self) -> (games: usize)
        requires
            self.games_spec() <= usize::MAX,
        ensures
            games == self.games_spec(),
    {
        self.wins + self.draws + self.losses
    }

    /// The share of the points.
    pub open spec fn score_spec(self) -> Ratio {
        if self.games_spec() == 0 {
            Ratio { numerator: 1, denominator: 2 }
        } else {
            Ratio {
                numerator: (2 * self.wins + self.draws) as u128,
                denominator: (2 * self.games_spec()) as u128,
            }
        }
    }

    /// The share of the points: a win is worth one, a draw a half. Without games it is a
    /// half.
    pub fn score(&self) -> (score: Ratio)
        ensures
            score == self.score_spec(),
            self.games_spec() == 0 ==> score.numerator == 1 && score.denominator == 2,
            self.games_spec() > 0 ==> score.numerator == 2 * self.wins + self.draws
                && score.denominator == 2 * self.games_spec(),
    {
        if self.wins == 0 && self.draws == 0 && self.losses == 0 {
            return Ratio { numerator: 1, denominator: 2 };
        }
        let wins: u128 = self.wins as u128;
        let draws: u128 = self.draws as u128;
        let losses: u128 = self.losses as u128;
        Ratio { numerator: 2 * wins + draws, denominator: 2 * (wins + draws + losses) }
    }
}

/// A score lies between nothing and everything: all of it for wins alone, and nothing
/// for losses alone.
pub proof fn score_is_a_share(result: EvalResult, score: Ratio)
    requires
        result.games_spec() > 0,
        score.numerator == 2 * result.wins + result.draws,
        score.denominator == 2 * result.games_spec(),
    ensures
        0 <= score.numerator <= score.denominator,
        score.numerator == score.denominator <==> result.draws == 0 && result.losses == 0,
        score.numerator == 0 <==> result.wins == 0 && result.draws == 0,
{
}

/// The outcome of an evaluation.
#[derive(Debug)]
pub struct EvalReading {
    pub elo: Single,
    pub result: EvalResult,
    pub opponent: String,
}

/// A rung of the ladder: an opponent, and the rating that it stands for.
#[derive(Clone, Copy, Debug, PartialEq, Eq, Structural)]
pub struct Rung {
    pub opponent: Opponent,
    pub elo: Single,
}

/// The rung that a configuration describes.
pub open spec fn rung_spec(config: RungConfig) -> Rung {
    match config {
        RungConfig::Random { elo } => Rung { opponent: Opponent::Random, elo },
        RungConfig::AlphaBeta { depth, epsilon, elo } => Rung {
            opponent: Opponent::AlphaBeta { depth, epsilon },
            elo,
        },
    }
}

impl Rung {
    pub fn from_config(config: &RungConfig) -> (rung: Rung)
        ensures
            rung == rung_spec(*config),
    {
        match *config {
            RungConfig::Random { elo } => Rung { opponent: Opponent::Random, elo },
            RungConfig::AlphaBeta { depth, epsilon, elo } => Rung {
                opponent: Opponent::AlphaBeta { depth, epsilon },
                elo,
            },
        }
    }
}

impl Opponent {
    /// The name of an opponent, given the text of its noise.
    pub open spec fn label_spec(self, epsilon_text: Seq<char>) -> Seq<char> {
        match self {
            Opponent::Random => "Random"@,
            Opponent::AlphaBeta { depth, epsilon } => if Single::zero_spec().lt_spec(epsilon) {
                "AlphaBeta(d="@ + decimal_spec(depth as nat) + ", e="@ + epsilon_text + ")"@
            } else {
                "AlphaBeta(d="@ + decimal_spec(depth as nat) + ")"@
            },
        }
    }

    /// The name of the opponent, given its noise in writing.
    pub fn label(&self, epsilon_text: &str) -> (label: String)
        ensures
            label@ == self.label_spec(epsilon_text@),
    {
        match self {
            Opponent::Random => {
                let mut label: String = String::new();
                label.append("Random");
                assert(label@ =~= "Random"@);
                label
            },
            Opponent::AlphaBeta { depth, epsilon } => {
                let mut label: String = String::new();
                label.append("AlphaBeta(d=");
                label.append(decimal(*depth).as_str());
                if Single::zero().less(*epsilon) {
                    label.append(", e=");
                    label.append(epsilon_text);
                }
                label.append(")");
                assert(label@ =~= self.label_spec(epsilon_text@));
                label
            },
        }
    }
}

/// Benchmark opponents in order of strength, and where the agent stands.
#[derive(Debug)]
pub struct EloLadder {
    pub rungs: Vec<Rung>,
    pub current: usize,
    pub next_eval: usize,
    pub conf: EvalConfig,
}

/// The rung after a score: one up for at least the promotion score, one down for at most
/// the demotion score, as far as the ladder goes.
pub open spec fn promoted(
    current: int,
    rungs: int,
    score: Single,
    promote_score: Single,
    demote_score: Single,
) -> int {
    if score.ge_spec(promote_score) && current + 1 < rungs {
        current + 1
    } else if demote_score.ge_spec(score) && current > 0 {
        current - 1
    } else {
        current
    }
}

impl EloLadder {
    /// Whether the agent stands on a rung, or on the ground where there is no ladder.
    pub open spec fn wf(&self) -> bool {
        self.current < self.rungs@.len() || self.rungs@.len() == 0 && self.current == 0
    }

    /// Whether evaluation is on.
    pub open spec fn enabled_spec(&self) -> bool {
        self.conf.interval > 0 && self.rungs@.len() > 0
    }

    /// Whether an evaluation is due at a step.
    pub open spec fn due_spec(&self, training_step: usize) -> bool {
        self.enabled_spec() && training_step >= self.next_eval
    }

    /// The ladder of a configuration, or the game's own; the agent stands on the lowest
    /// rung.
    pub fn new(mz_conf: &MuZeroConfig) -> (ladder: EloLadder)
        ensures
            ladder.wf(),
            ladder.current == 0,
            ladder.next_eval == 0,
            mz_conf.eval matches Some(given) ==> ladder.conf.same(&given),
            mz_conf.eval is None ==> {
                &&& ladder.conf.interval == 500
                &&& ladder.conf.games == 100
                &&& ladder.conf.num_simulations is None
                &&& ladder.conf.random_opening_plies == 4
                &&& ladder.conf.promote_score.bits == THREE_QUARTERS_BITS
                &&& ladder.conf.demote_score.bits == QUARTER_BITS
                &&& ladder.conf.seed == 0x5EED_0E10
                &&& ladder.conf.ladder is None
            },
            ladder.rungs@ == (if mz_conf.eval is Some && mz_conf.eval->0.ladder is Some {
                mz_conf.eval->0.ladder->0@
            } else {
                default_ladder_spec(mz_conf.environment)
            }).map_values(|c: RungConfig| rung_spec(c)),
    {
        let conf: EvalConfig = mz_conf.eval();
        let configs: Vec<RungConfig> = match &conf.ladder {
            Some(ladder) => copy_rungs(ladder),
            None => default_ladder(&mz_conf.environment),
        };
        let ghost whole = configs@.map_values(|c: RungConfig| rung_spec(c));
        let mut rungs: Vec<Rung> = Vec::new();
        let mut i: usize = 0;
        while i < configs.len()
            invariant
                i <= configs@.len(),
                whole == configs@.map_values(|c: RungConfig| rung_spec(c)),
                rungs@ == whole.take(i as int),
            decreases configs@.len() - i,
        {
            rungs.push(Rung::from_config(&configs[i]));
            i = i + 1;
            assert(rungs@ =~= whole.take(i as int));
        }
        assert(rungs@ =~= whole);
        EloLadder { rungs, current: 0, next_eval: 0, conf }
    }

    /// Whether evaluation is on: there is an interval and a ladder.
    pub fn enabled(&self) -> (enabled: bool)
        ensures
            enabled == self.enabled_spec(),
    {
        self.conf.interval > 0 && self.rungs.len() > 0
    }

    /// The rung that the agent stands on.
    pub fn current(&self) -> (current: usize)
        ensures
            current == self.current,
    {
        self.current
    }

    /// Puts the agent on a rung, if the ladder has it.
    pub fn set_current(&mut self, rung: usize)
        ensures
            final(self).current == (if rung < old(self).rungs@.len() {
                rung
            } else {
                old(self).current
            }),
            final(self).rungs@ == old(self).rungs@,
            final(self).next_eval == old(self).next_eval,
            final(self).conf == old(self).conf,
            old(self).wf() ==> final(self).wf(),
    {
        if rung < self.rungs.len() {
            self.current = rung;
        }
    }

    /// Whether an evaluation is due at a step.
    pub fn due(&self, training_step: usize) -> (due: bool)
        ensures
            due == self.due_spec(training_step),
    {
        self.enabled() && training_step >= self.next_eval
    }

    /// Starts an evaluation at a step: the next one is an interval later. The rung to play
    /// comes back.
    pub fn start_run(&mut self, training_step: usize) -> (rung: Rung)
        requires
            old(self).wf(),
            old(self).rungs@.len() > 0,
            training_step + old(self).conf.interval <= usize::MAX,
        ensures
            rung == old(self).rungs@[old(self).current as int],
            final(self).next_eval == training_step + old(self).conf.interval,
            final(self).current == old(self).current,
            final(self).rungs@ == old(self).rungs@,
            final(self).conf == old(self).conf,
    {
        self.next_eval = training_step + self.conf.interval;
        self.rungs[self.current]
    }

    /// Moves the agent by its score.
    pub fn promote(&mut self, score: Single)
        requires
            old(self).wf(),
        ensures
            final(self).current == promoted(
                old(self).current as int,
                old(self).rungs@.len() as int,
                score,
                old(self).conf.promote_score,
                old(self).conf.demote_score,
            ),
            final(self).wf(),
            final(self).rungs@ == old(self).rungs@,
            final(self).next_eval == old(self).next_eval,
            final(self).conf == old(self).conf,
    {
        if score.at_least(self.conf.promote_score) && self.rungs.len() > 0 && self.current
            < self.rungs.len() - 1 {
            self.current = self.current + 1;
        } else if self.conf.demote_score.at_least(score) && self.current > 0 {
            self.current = self.current - 1;
        }
    }
}

/// An evaluation is due again exactly once its interval has passed.
pub proof fn evaluations_keep_their_interval(
    ladder: EloLadder,
    after: EloLadder,
    step: usize,
    later: usize,
)
    requires
        ladder.enabled_spec(),
        after.rungs@ == ladder.rungs@,
        after.conf == ladder.conf,
        after.next_eval == step + ladder.conf.interval,
        step <= later,
    ensures
        after.due_spec(later) <==> later - step >= ladder.conf.interval,
        !after.due_spec(step),
{
}

/// The agent never leaves the ladder, moves by one rung at most, and stays where it is
/// for a score strictly between the two thresholds.
pub proof fn ladder_moves_one_rung_at_most(
    current: int,
    rungs: int,
    score: Single,
    promote_score: Single,
    demote_score: Single,
)
    requires
        0 <= current < rungs,
    ensures
        0 <= promoted(current, rungs, score, promote_score, demote_score) < rungs,
        -1 <= promoted(current, rungs, score, promote_score, demote_score) - current <= 1,
        demote_score.lt_spec(score) && score.lt_spec(promote_score) ==> promoted(
            current,
            rungs,
            score,
            promote_score,
            demote_score,
        ) == current,
{
}

/// The configuration to search with in an evaluation.
pub open spec fn eval_config_spec(mz_conf: MuZeroConfig, conf: EvalConfig) -> MuZeroConfig {
    MuZeroConfig {
        num_simulations: if conf.num_simulations is Some {
            conf.num_simulations->0
        } else {
            mz_conf.num_simulations
        },
        puct: match mz_conf.puct {
            Some(puct) => Some(
                PuctSubConfig { root_exploration_fraction: Single::zero_spec(), ..puct },
            ),
            None => None,
        },
        ..mz_conf
    }
}

/// The configuration to search with in an evaluation: no noise at the root, and the
/// evaluation's own number of simulations if it has one.
pub fn eval_config(mut mz_conf: MuZeroConfig, conf: &EvalConfig) -> (eval_conf: MuZeroConfig)
    ensures
        eval_conf == eval_config_spec(mz_conf, *conf),
{
    match conf.num_simulations {
        Some(simulations) => {
            mz_conf.num_simulations = simulations;
        },
        None => {},
    }
    let puct: Option<PuctSubConfig> = mz_conf.puct.take();
    mz_conf.puct = match puct {
        Some(p) => Some(PuctSubConfig { root_exploration_fraction: Single::zero(), ..p }),
        None => None,
    };
    mz_conf
}

/// The bits of a value that is no number: the mark of a game that does not count.
pub const NAN_BITS: u32 = 0x7fc0_0000;

/// One game of an evaluation.
#[derive(Debug)]
pub struct Game<E> {
    pub env: E,
    pub agent_to_move: bool,
    pub plies: usize,
    /// The result as the agent sees it, once there is one.
    pub outcome: Option<Single>,
    /// The most plies that a game may take.
    pub max_steps: usize,
    /// The generator of the opponent's moves.
    pub rng: Dice,
}

impl<E: BoardGame> Game<E> {
    /// Whether the game goes on.
    pub open spec fn live_spec(&self) -> bool {
        self.outcome is None
    }

    /// Whether an action is legal.
    pub open spec fn legal(&self, action: int) -> bool {
        0 <= action < self.env.legal_spec().len() && self.env.legal_spec()[action]
    }

    /// The result after a legal action: its reward, as the agent sees it, where the action
    /// ends the game; a draw where the game has taken too long; and none otherwise.
    pub open spec fn outcome_after(&self, action: int) -> Option<Single> {
        let result = self.env.result_spec(action);
        if result.over() {
            Some(
                if self.agent_to_move {
                    result.reward
                } else {
                    result.reward.neg_spec()
                },
            )
        } else if self.plies + 1 >= self.max_steps {
            Some(Single::zero_spec())
        } else {
            self.outcome
        }
    }

    pub fn live(&self) -> (live: bool)
        ensures
            live == self.live_spec(),
    {
        self.outcome.is_none()
    }

    /// Notes the result: `reward` as the side that moved sees it.
    pub fn record(&mut self, reward: Single, mover_was_agent: bool)
        ensures
            final(self).outcome == Some(
                if mover_was_agent {
                    reward
                } else {
                    reward.neg_spec()
                },
            ),
            final(self).env == old(self).env,
            final(self).agent_to_move == old(self).agent_to_move,
            final(self).plies == old(self).plies,
            final(self).max_steps == old(self).max_steps,
            final(self).rng == old(self).rng,
    {
        self.outcome = Some(
            if mover_was_agent {
                reward
            } else {
                reward.negated()
            },
        );
    }

    /// Plays a legal action: it is the other side's turn then.
    pub fn step(&mut self, action: usize)
        requires
            old(self).legal(action as int),
            old(self).plies < usize::MAX,
        ensures
            stepped(*old(self), *final(self), action),
            final(self).rng == old(self).rng,
    {
        let mover_was_agent: bool = self.agent_to_move;
        let (next, result): (E, StepResult) = self.env.step(action);
        self.env = next;
        self.plies = self.plies + 1;
        self.agent_to_move = !self.agent_to_move;
        if result.done || result.truncated {
            self.record(result.reward, mover_was_agent);
        } else if self.plies >= self.max_steps {
            self.outcome = Some(Single::zero());
        }
    }

    /// Lets the opponent move; false where no action is legal. `unit` is a draw from the
    /// unit interval.
    pub fn opponent_step(&mut self, opponent: &Opponent, unit: Single) -> (moved: bool)
        requires
            old(self).plies < usize::MAX,
        ensures
            moved <==> !stuck(old(self).env),
            !moved ==> *final(self) == *old(self),
            moved ==> opponent_stepped(*opponent, unit, *old(self), *final(self)),
    {
        match opponent.choose_move(&self.env, unit, &mut self.rng) {
            Some(action) => {
                let ghost seed = self.rng.seed;
                self.step(action);
                proof {
                    assert(stepped(*old(self), *self, action));
                    assert(opponent.plays(
                        old(self).env,
                        unit,
                        old(self).rng.seed,
                        action as int,
                        seed,
                    ));
                }
                true
            },
            None => false,
        }
    }
}

/// Whether `after` is `before` with one legal action played.
pub open spec fn stepped<E: BoardGame>(before: Game<E>, after: Game<E>, action: usize) -> bool {
    &&& before.legal(action as int)
    &&& after.env == before.env.next_spec(action as int)
    &&& after.agent_to_move == !before.agent_to_move
    &&& after.plies == before.plies + 1
    &&& after.outcome == before.outcome_after(action as int)
    &&& after.max_steps == before.max_steps
}

/// Whether `after` is `before` with a move of the opponent played.
pub open spec fn opponent_stepped<E: BoardGame>(
    opponent: Opponent,
    unit: Single,
    before: Game<E>,
    after: Game<E>,
) -> bool {
    exists|action: usize|
        {
            &&& #[trigger] stepped(before, after, action)
            &&& opponent.may_play(before.env, unit, action as int)
            &&& opponent.plays(before.env, unit, before.rng.seed, action as int, after.rng.seed)
        }
}

/// The seed of the opening of game `i`: two games in a row have the same.
pub open spec fn opening_seed_spec(seed: u64, i: u64) -> u64 {
    seed ^ (i / 2)
}

/// The seed of the moves of game `i`.
pub open spec fn game_seed_spec(seed: u64, i: u64) -> u64 {
    seed ^ 0x9E37_79B9 ^ i
}

pub fn opening_seed(seed: u64, i: usize) -> (s: u64)
    ensures
        s == opening_seed_spec(seed, i as u64),
{
    seed ^ (i as u64 / 2)
}

pub fn game_seed(seed: u64, i: usize) -> (s: u64)
    ensures
        s == game_seed_spec(seed, i as u64),
{
    seed ^ 0x9E37_79B9 ^ i as u64
}

/// Whether the agent has the first move of game `i`.
pub open spec fn agent_first_spec(i: int) -> bool {
    i % 2 == 0
}

/// Whether the agent is to move in game `i` after so many plies.
pub open spec fn agent_moves_at(i: int, plies: int) -> bool {
    agent_first_spec(i) == (plies % 2 == 0)
}

/// The position after a line of actions.
pub open spec fn position_after<E: BoardGame>(env: E, actions: Seq<usize>) -> E
    decreases actions.len(),
{
    if actions.len() == 0 {
        env
    } else {
        position_after(env, actions.drop_last()).next_spec(actions.last() as int)
    }
}

/// Whether every action of a line is legal where it is played, and only the last one may
/// end the game.
pub open spec fn playable<E: BoardGame>(env: E, actions: Seq<usize>) -> bool
    decreases actions.len(),
{
    actions.len() == 0 || {
        let before = position_after(env, actions.drop_last());
        &&& playable(env, actions.drop_last())
        &&& actions.last() < before.legal_spec().len()
        &&& before.legal_spec()[actions.last() as int]
        &&& !line_ends(env, actions.drop_last())
    }
}

/// Whether the last action of a line ends the game.
pub open spec fn line_ends<E: BoardGame>(env: E, actions: Seq<usize>) -> bool {
    actions.len() > 0 && position_after(env, actions.drop_last()).result_spec(
        actions.last() as int,
    ).over()
}

/// Whether a position leaves no legal action.
pub open spec fn stuck<E: BoardGame>(env: E) -> bool {
    legal_list(env.legal_spec(), env.legal_spec().len() as int).len() == 0
}

/// An opening: the position that it leads to, its moves, and whether it ended the game.
pub struct Opening<E> {
    pub env: E,
    pub moves: Seq<usize>,
    pub ended: bool,
}

impl<E> Opening<E> {
    /// The number of moves.
    pub open spec fn plies(self) -> nat {
        self.moves.len()
    }
}

/// The opening of at most `left` random moves from a position, when the generator's state is
/// `seed`. It stops early where the game ends or no action is legal.
pub open spec fn random_line<E: BoardGame>(env: E, left: nat, seed: u64) -> Opening<E>
    decreases left,
{
    let list = legal_list(env.legal_spec(), env.legal_spec().len() as int);
    if left == 0 || list.len() == 0 {
        Opening { env, moves: Seq::empty(), ended: false }
    } else {
        let drawn = drawn_below(seed, list.len() as usize, usize::BITS);
        let choice = list[drawn.0 as int];
        let action = choice as int;
        if env.result_spec(action).over() {
            Opening { env: env.next_spec(action), moves: seq![choice], ended: true }
        } else {
            let rest = random_line(env.next_spec(action), (left - 1) as nat, drawn.1);
            Opening { env: rest.env, moves: seq![choice] + rest.moves, ended: rest.ended }
        }
    }
}

/// The opening that a seed stands for. Its length is drawn too, up to `most_plies`.
pub open spec fn opening_of<E: BoardGame>(start: E, most_plies: usize, seed: u64) -> Opening<E> {
    let drawn = drawn_below(seed, (most_plies + 1) as usize, usize::BITS);
    random_line(start, drawn.0 as nat, drawn.1)
}

/// The opening of game `i`.
pub open spec fn opening_in<E: BoardGame>(start: E, conf: EvalConfig, i: usize) -> Opening<E> {
    opening_of(start, conf.random_opening_plies, opening_seed_spec(conf.seed, i as u64))
}

/// Whether game `i` has its opening behind it.
///
/// A game that ends in its opening would tell nothing of the players: its outcome is no
/// number, and it does not count.
pub open spec fn opened<E: BoardGame>(start: E, conf: EvalConfig, i: usize, game: Game<E>) -> bool {
    let opening = opening_in(start, conf, i);
    &&& game.env == opening.env
    &&& game.plies == opening.plies()
    &&& game.agent_to_move == agent_moves_at(i as int, opening.plies() as int)
    &&& game.outcome == (if opening.ended {
        Some(Single { bits: NAN_BITS })
    } else {
        None
    })
    &&& game.rng.seed == game_seed_spec(conf.seed, i as u64)
    &&& game.max_steps == E::max_steps_spec()
}

/// Games `2k` and `2k + 1` share an opening, played once from each side: they go on from the
/// same position, with the agent to move in exactly one of them.
pub proof fn games_come_in_pairs<E: BoardGame>(
    conf: EvalConfig,
    k: usize,
    even: Game<E>,
    odd: Game<E>,
)
    requires
        2 * k + 1 <= usize::MAX,
        opened(E::initial_spec(), conf, (2 * k) as usize, even),
        opened(E::initial_spec(), conf, (2 * k + 1) as usize, odd),
    ensures
        even.env == odd.env,
        even.plies == odd.plies,
        even.outcome == odd.outcome,
        even.agent_to_move != odd.agent_to_move,
{
    assert(((2 * k) as usize as u64) / 2 == k as u64);
    assert(((2 * k + 1) as usize as u64) / 2 == k as u64);
}

/// Whether the opening of game `i` is a line of at most `most_plies` legal moves, of which
/// only the last one may end the game.
pub open spec fn opening_is_a_line<E: BoardGame>(start: E, conf: EvalConfig, i: usize) -> bool {
    let opening = opening_in(start, conf, i);
    &&& playable(start, opening.moves)
    &&& opening.moves.len() <= conf.random_opening_plies
    &&& opening.env == position_after(start, opening.moves)
    &&& opening.ended == line_ends(start, opening.moves)
}

/// Starts game `i`: plays its opening from a position.
pub fn start_game<E: BoardGame>(start: E, i: usize, conf: &EvalConfig) -> (game: Game<E>)
    requires
        conf.random_opening_plies < usize::MAX,
    ensures
        opened(start, *conf, i, game),
        opening_is_a_line(start, *conf, i),
{
    let mut rng: Dice = Dice::with_seed(opening_seed(conf.seed, i));
    let opening: usize = rng.below(conf.random_opening_plies + 1);
    let ghost whole = opening_in(start, *conf, i);
    let ghost first = start;
    let mut env: E = start;
    let mut plies: usize = 0;
    let mut finished: bool = false;
    let mut stopped: bool = false;
    let ghost mut line: Seq<usize> = Seq::empty();
    while plies < opening && !finished && !stopped
        invariant
            plies <= opening <= conf.random_opening_plies,
            playable(first, line),
            line.len() == plies,
            env == position_after(first, line),
            finished == line_ends(first, line),
            stopped ==> stuck(env),
            finished ==> whole.env == env && whole.moves == line && whole.ended,
            !finished ==> {
                let rest = random_line(env, (opening - plies) as nat, rng.seed);
                whole.env == rest.env && whole.moves == line + rest.moves && whole.ended
                    == rest.ended
            },
        decreases
            opening - plies,
            if stopped {
                0int
            } else {
                1int
            },
    {
        let mask: Vec<bool> = env.legal_mask();
        let legal: Vec<usize> = legal_actions(mask.as_slice());
        if legal.len() == 0 {
            stopped = true;
        } else {
            let k: usize = rng.below(legal.len());
            let action: usize = legal[k];
            proof {
                assert(mask@.len() == mask.len());
                legal_list_is_exact(mask@, mask@.len() as int);
            }
            let (next, result): (E, StepResult) = env.step(action);
            let ghost before = line;
            proof {
                let longer = line.push(action);
                assert(longer.drop_last() =~= line);
                line = longer;
            }
            env = next;
            plies = plies + 1;
            finished = result.done || result.truncated;
            proof {
                if finished {
                    assert(line =~= before + seq![action]);
                } else {
                    let rest = random_line(env, (opening - plies) as nat, rng.seed);
                    assert(line + rest.moves =~= before + (seq![action] + rest.moves));
                }
            }
        }
    }
    proof {
        assert(line + Seq::<usize>::empty() =~= line);
        assert(whole.moves =~= line);
    }
    Game {
        env,
        agent_to_move: (i % 2 == 0) == (plies % 2 == 0),
        plies,
        outcome: if finished {
            Some(Single::from_bits(NAN_BITS))
        } else {
            None
        },
        max_steps: E::max_steps(),
        rng: Dice::with_seed(game_seed(conf.seed, i)),
    }
}

/// The games of an evaluation, each with its opening played.
pub fn start_games<E: BoardGame>(conf: &EvalConfig) -> (games: Vec<Game<E>>)
    requires
        conf.random_opening_plies < usize::MAX,
    ensures
        games@.len() == conf.games,
        forall|i: int|
            0 <= i < conf.games ==> opened(
                E::initial_spec(),
                *conf,
                i as usize,
                #[trigger] games@[i],
            ) && opening_is_a_line(E::initial_spec(), *conf, i as usize),
{
    let mut games: Vec<Game<E>> = Vec::new();
    let mut i: usize = 0;
    while i < conf.games
        invariant
            i <= conf.games,
            conf.random_opening_plies < usize::MAX,
            games@.len() == i,
            forall|j: int|
                0 <= j < i ==> opened(
                    E::initial_spec(),
                    *conf,
                    j as usize,
                    #[trigger] games@[j],
                ) && opening_is_a_line(E::initial_spec(), *conf, j as usize),
        decreases conf.games - i,
    {
        games.push(start_game(E::initial(), i, conf));
        i = i + 1;
    }
    games
}

/// The result that a line of game `i` has for the agent, if it has one: the last reward as
/// the agent sees it where the line ends the game, and a draw where it has taken too long. A
/// line that ends in its opening does not count.
pub open spec fn outcome_of_line<E: BoardGame>(
    start: E,
    opening_plies: nat,
    i: int,
    line: Seq<usize>,
) -> Option<Single> {
    if line_ends(start, line) {
        let reward = position_after(start, line.drop_last()).result_spec(
            line.last() as int,
        ).reward;
        if line.len() == opening_plies {
            Some(Single { bits: NAN_BITS })
        } else if agent_moves_at(i, line.len() - 1) {
            Some(reward)
        } else {
            Some(reward.neg_spec())
        }
    } else if line.len() > opening_plies && line.len() >= E::max_steps_spec() {
        Some(Single::zero_spec())
    } else {
        None
    }
}

/// Whether move `j` of a line is one that the opponent may play.
pub open spec fn opponent_chose<E: BoardGame>(
    opponent: Opponent,
    start: E,
    line: Seq<usize>,
    j: int,
) -> bool {
    exists|unit: Single| #[trigger]
        opponent.may_play(position_after(start, line.take(j)), unit, line[j] as int)
}

/// Whether a line tells game `i`: it begins with the moves of the game's opening, its moves are
/// legal, the opponent's are those of the opponent, and the game's state is what it leads to.
pub open spec fn told_by<E: BoardGame>(
    conf: EvalConfig,
    opponent: Opponent,
    i: int,
    game: Game<E>,
    line: Seq<usize>,
) -> bool {
    let start = E::initial_spec();
    let opening = opening_in(start, conf, i as usize);
    &&& playable(start, line)
    &&& line.len() == game.plies
    &&& game.env == position_after(start, line)
    &&& opening.plies() <= line.len()
    &&& line.take(opening.plies() as int) == opening.moves
    &&& opening.ended == line_ends(start, opening.moves)
    &&& game.agent_to_move == agent_moves_at(i, game.plies as int)
    &&& game.max_steps == E::max_steps_spec()
    &&& game.outcome == outcome_of_line(start, opening.plies(), i, line)
    &&& forall|j: int|
        opening.plies() <= j < line.len() && !agent_moves_at(i, j) ==> #[trigger] opponent_chose(
            opponent,
            start,
            line,
            j,
        )
}

/// Whether some line tells game `i`.
pub open spec fn told<E: BoardGame>(
    conf: EvalConfig,
    opponent: Opponent,
    i: int,
    game: Game<E>,
) -> bool {
    exists|line: Seq<usize>| #[trigger] told_by(conf, opponent, i, game, line)
}

/// A game is told from its opening on.
proof fn lemma_told_opening<E: BoardGame>(
    conf: EvalConfig,
    opponent: Opponent,
    i: int,
    game: Game<E>,
)
    requires
        0 <= i <= usize::MAX,
        opened(E::initial_spec(), conf, i as usize, game),
        opening_is_a_line(E::initial_spec(), conf, i as usize),
    ensures
        told(conf, opponent, i, game),
{
    let start = E::initial_spec();
    let line = opening_in(start, conf, i as usize).moves;
    assert(line.take(line.len() as int) =~= line);
    assert(told_by(conf, opponent, i, game, line));
}

/// A game that goes on is told after one more move.
proof fn lemma_told_step<E: BoardGame>(
    conf: EvalConfig,
    opponent: Opponent,
    i: int,
    before: Game<E>,
    after: Game<E>,
    action: usize,
    unit: Single,
)
    requires
        told(conf, opponent, i, before),
        before.live_spec(),
        stepped(before, after, action),
        before.agent_to_move || opponent.may_play(before.env, unit, action as int),
    ensures
        told(conf, opponent, i, after),
{
    let start = E::initial_spec();
    let opening = opening_in(start, conf, i as usize);
    let line = choose|line: Seq<usize>| #[trigger] told_by(conf, opponent, i, before, line);
    let longer = line.push(action);
    let n = line.len() as int;
    assert(longer.drop_last() =~= line);
    assert(longer.take(opening.plies() as int) =~= line.take(opening.plies() as int));
    assert forall|j: int| opening.plies() <= j < longer.len() && !agent_moves_at(i, j) implies
        #[trigger] opponent_chose(opponent, start, longer, j) by {
        assert(longer.take(j) =~= line.take(j));
        if j < n {
            assert(opponent_chose(opponent, start, line, j));
            let u = choose|u: Single| #[trigger]
                opponent.may_play(position_after(start, line.take(j)), u, line[j] as int);
            assert(opponent.may_play(position_after(start, longer.take(j)), u, longer[j] as int));
        } else {
            assert(line.take(n) =~= line);
            assert(opponent.may_play(
                position_after(start, longer.take(j)),
                unit,
                longer[j] as int,
            ));
        }
    }
    assert(told_by(conf, opponent, i, after, longer));
}

/// The games that go on with the agent to move, among the first `end`.
pub open spec fn agent_games<E: BoardGame>(games: Seq<Game<E>>, end: int) -> Seq<usize>
    decreases end,
{
    if end <= 0 {
        Seq::empty()
    } else if games[end - 1].live_spec() && games[end - 1].agent_to_move {
        agent_games(games, end - 1).push((end - 1) as usize)
    } else {
        agent_games(games, end - 1)
    }
}

/// The games whose next move is the agent's.
pub fn active_games<E: BoardGame>(games: &Vec<Game<E>>) -> (active: Vec<usize>)
    ensures
        active@ == agent_games(games@, games@.len() as int),
{
    let mut active: Vec<usize> = Vec::new();
    let mut i: usize = 0;
    while i < games.len()
        invariant
            i <= games@.len(),
            active@ == agent_games(games@, i as int),
        decreases games@.len() - i,
    {
        if games[i].live() && games[i].agent_to_move {
            active.push(i);
        }
        i = i + 1;
    }
    active
}

/// The positions of the active games.
pub open spec fn positions_of<E>(games: Seq<Game<E>>, active: Seq<usize>) -> Seq<E> {
    Seq::new(active.len(), |k: int| games[active[k] as int].env)
}

/// The masks of the active games.
pub open spec fn masks_of<E: BoardGame>(games: Seq<Game<E>>, active: Seq<usize>) -> Seq<
    Seq<bool>,
> {
    Seq::new(active.len(), |k: int| games[active[k] as int].env.legal_spec())
}

/// Who plays an evaluation: an agent whose model is searched for its moves, with draws for the
/// opponent and the arithmetic of ratings.
pub trait Player<E>: SearchModel {
    /// The draw from the unit interval in a state of the generator, and the state after it.
    open spec fn unit_spec(seed: u64) -> (Single, u64) {
        arbitrary()
    }

    /// The network's predictions for positions, and the player after them.
    open spec fn roots_spec(&self, positions: Seq<E>) -> (PredictionsView, Self) {
        arbitrary()
    }

    /// A score as a number, and the rating that it is worth.
    open spec fn rating_spec(anchor: Single, score: Ratio, games: usize) -> Rating {
        arbitrary()
    }

    /// A number in writing.
    open spec fn text_spec(number: Single) -> Seq<char> {
        arbitrary()
    }

    /// A draw from the unit interval, by the `fastrand` generator.
    fn unit(&self, rng: &mut Dice) -> (unit: Single)
        ensures
            (unit, final(rng).seed) == Self::unit_spec(old(rng).seed),
    ;

    /// The network's predictions for the active games.
    fn roots(&mut self, games: &Vec<Game<E>>, active: &Vec<usize>) -> (roots: Predictions)
        requires
            forall|k: int| 0 <= k < active@.len() ==> #[trigger] active@[k] < games@.len(),
        ensures
            (roots@, *final(self)) == old(self).roots_spec(positions_of(games@, active@)),
            forall|action_space: usize| #[trigger]
                old(self).answers_in_full(action_space) ==> final(self).answers_in_full(
                    action_space,
                ) && fits(roots@, active@.len() as int, action_space as int),
    ;

    /// A score as a number, and the rating that it is worth over so many games against an
    /// opponent of rating `anchor`.
    fn rate(&self, anchor: Single, score: Ratio, games: usize) -> (rating: Rating)
        ensures
            rating == Self::rating_spec(anchor, score, games),
    ;

    /// A number in writing.
    fn number_text(&self, number: Single) -> (text: String)
        ensures
            text@ == Self::text_spec(number),
    ;
}

/// A score, and what it is worth.
#[derive(Clone, Copy, Debug, PartialEq, Eq, Structural)]
pub struct Rating {
    pub score: Single,
    pub elo: Single,
}

/// The draw that the opponent's move in a game goes by, and the state of the game's generator
/// after it. Nothing is drawn where the opponent has no noise.
pub open spec fn opponent_draw<E: BoardGame, P: Player<E>>(
    opponent: Opponent,
    game: Game<E>,
) -> (Single, u64) {
    if opponent.needs_unit_spec() {
        P::unit_spec(game.rng.seed)
    } else {
        (Single::zero_spec(), game.rng.seed)
    }
}

/// Whether the opponent has moved if it was its turn, and nothing happened otherwise.
pub open spec fn opponent_moved<E: BoardGame, P: Player<E>>(
    opponent: Opponent,
    before: Game<E>,
    after: Game<E>,
) -> bool {
    if before.live_spec() && !before.agent_to_move {
        let (unit, seed) = opponent_draw::<E, P>(opponent, before);
        opponent_stepped(opponent, unit, Game { rng: Dice { seed }, ..before }, after)
    } else {
        after == before
    }
}

/// Whether the opponent has moved in every game where it was its turn.
pub open spec fn all_moved<E: BoardGame, P: Player<E>>(
    opponent: Opponent,
    before: Seq<Game<E>>,
    after: Seq<Game<E>>,
) -> bool {
    &&& after.len() == before.len()
    &&& forall|i: int|
        0 <= i < before.len() ==> opponent_moved::<E, P>(
            opponent,
            before[i],
            #[trigger] after[i],
        )
}

/// Whether the opponent has a legal move in every game where it is its turn.
pub open spec fn opponent_can_move<E: BoardGame>(games: Seq<Game<E>>) -> bool {
    forall|i: int|
        0 <= i < games.len() && (#[trigger] games[i]).live_spec() && !games[i].agent_to_move
            ==> !stuck(games[i].env)
}

/// Lets the opponent move in every game where it is its turn; false where it has no legal
/// move in one of them.
pub fn opponent_moves<E: BoardGame, P: Player<E>>(
    games: &mut Vec<Game<E>>,
    opponent: &Opponent,
    player: &P,
) -> (moved: bool)
    requires
        forall|i: int|
            0 <= i < old(games)@.len() && (#[trigger] old(games)@[i]).live_spec()
                ==> old(games)@[i].plies < usize::MAX,
    ensures
        moved <==> opponent_can_move(old(games)@),
        moved ==> all_moved::<E, P>(*opponent, old(games)@, final(games)@),
{
    let mut i: usize = 0;
    while i < games.len()
        invariant
            i <= games@.len(),
            games@.len() == old(games)@.len(),
            forall|j: int|
                0 <= j < old(games)@.len() && (#[trigger] old(games)@[j]).live_spec()
                    ==> old(games)@[j].plies < usize::MAX,
            forall|j: int| i <= j < games@.len() ==> #[trigger] games@[j] == old(games)@[j],
            forall|j: int|
                0 <= j < i && (#[trigger] old(games)@[j]).live_spec()
                    && !old(games)@[j].agent_to_move ==> !stuck(old(games)@[j].env),
            forall|j: int|
                0 <= j < i ==> opponent_moved::<E, P>(
                    *opponent,
                    old(games)@[j],
                    #[trigger] games@[j],
                ),
        decreases games@.len() - i,
    {
        assert(games@[i as int] == old(games)@[i as int]);
        if games[i].live() && !games[i].agent_to_move {
            let mut unit: Single = Single::zero();
            if opponent.needs_unit() {
                let mut rng: Dice = games[i].rng;
                unit = player.unit(&mut rng);
                games[i].rng = rng;
            }
            let ghost ready = games@[i as int];
            if !games[i].opponent_step(opponent, unit) {
                assert(stuck(old(games)@[i as int].env));
                return false;
            }
            proof {
                let (u, seed) = opponent_draw::<E, P>(*opponent, old(games)@[i as int]);
                assert(ready == Game { rng: Dice { seed }, ..old(games)@[i as int] });
                assert(opponent_stepped(*opponent, unit, ready, games@[i as int]));
            }
        }
        i = i + 1;
    }
    true
}

/// The most actions that a search by halving considers at the root.
pub open spec fn max_considered_spec(mz_conf: MuZeroConfig) -> usize {
    if mz_conf.search_algorithm is Gumbel {
        if mz_conf.gumbel->0.max_num_considered_actions < mz_conf.action_space {
            mz_conf.gumbel->0.max_num_considered_actions
        } else {
            mz_conf.action_space
        }
    } else {
        0
    }
}

/// The most actions that a search by halving considers at the root: as many as are
/// configured, and no more than there are.
pub fn max_considered(mz_conf: &MuZeroConfig) -> (most: usize)
    requires
        mz_conf.search_algorithm is Gumbel ==> mz_conf.gumbel is Some,
    ensures
        most == max_considered_spec(*mz_conf),
{
    match mz_conf.search_algorithm {
        SearchAlgorithm::Gumbel => {
            let most: usize = mz_conf.gumbel().max_num_considered_actions;
            if most < mz_conf.action_space {
                most
            } else {
                mz_conf.action_space
            }
        },
        SearchAlgorithm::Puct => 0,
    }
}

/// The search that the agent's moves come from.
pub open spec fn agent_job(
    mz_conf: MuZeroConfig,
    masks: Seq<Seq<bool>>,
    roots: PredictionsView,
) -> Job {
    Job {
        algorithm: mz_conf.search_algorithm,
        max_considered: max_considered_spec(mz_conf),
        action_space: mz_conf.action_space,
        num_simulations: mz_conf.num_simulations,
        root_visits: 0,
        masks: Some(masks),
        roots,
    }
}

/// Whether every mask is for as many actions as there are.
pub open spec fn masks_fit(masks: Seq<Seq<bool>>, action_space: int) -> bool {
    forall|k: int| 0 <= k < masks.len() ==> (#[trigger] masks[k]).len() == action_space
}

/// The best actions of results.
pub open spec fn best_actions(results: Seq<SearchReturn>) -> Seq<usize> {
    Seq::new(results.len(), |k: int| results[k].best_action)
}

/// Whether actions are the best ones of one search of all active games, at temperature zero.
pub open spec fn best_in_search<P: SearchModel>(job: Job, player: P, actions: Seq<usize>) -> bool {
    exists|results: Seq<SearchReturn>| #[trigger]
        results_of(job, player, Single::zero_spec(), results) && actions == best_actions(results)
}

/// Whether every action is legal in its game.
pub open spec fn all_legal<E: BoardGame>(
    games: Seq<Game<E>>,
    active: Seq<usize>,
    actions: Seq<usize>,
) -> bool {
    forall|k: int|
        0 <= k < active.len() ==> games[#[trigger] active[k] as int].legal(actions[k] as int)
}

/// Whether actions are the agent's moves in the active games, and `after` is the player once
/// it has found them.
pub open spec fn agent_chose<E: BoardGame, P: Player<E>>(
    mz_conf: MuZeroConfig,
    games: Seq<Game<E>>,
    active: Seq<usize>,
    player: P,
    actions: Seq<usize>,
    after: P,
) -> bool {
    let (roots, asked) = player.roots_spec(positions_of(games, active));
    let job = agent_job(mz_conf, masks_of(games, active), roots);
    &&& masks_fit(masks_of(games, active), mz_conf.action_space as int)
    &&& roots.rewards.len() == active.len()
    &&& told_model(job, asked) == Some(after)
    &&& best_in_search(job, asked, actions)
    &&& actions.len() == active.len()
    &&& all_legal(games, active, actions)
}

/// Whether the agent finds no moves: a mask or an answer of the model does not have the right
/// length, or a best action is not legal.
pub open spec fn agent_fails<E: BoardGame, P: Player<E>>(
    mz_conf: MuZeroConfig,
    games: Seq<Game<E>>,
    active: Seq<usize>,
    player: P,
) -> bool {
    let (roots, asked) = player.roots_spec(positions_of(games, active));
    let job = agent_job(mz_conf, masks_of(games, active), roots);
    ||| !masks_fit(masks_of(games, active), mz_conf.action_space as int)
    ||| roots.rewards.len() != active.len()
    ||| !comes_to_results(job, asked)
    ||| exists|actions: Seq<usize>| #[trigger]
        best_in_search(job, asked, actions) && !all_legal(games, active, actions)
}

/// The masks of the active games, if all are for as many actions as there are.
fn active_masks<E: BoardGame>(games: &Vec<Game<E>>, active: &Vec<usize>, action_space: usize) -> (
    masks: Option<Vec<Vec<bool>>>)
    requires
        forall|k: int| 0 <= k < active@.len() ==> #[trigger] active@[k] < games@.len(),
    ensures
        masks is Some <==> masks_fit(masks_of(games@, active@), action_space as int),
        masks matches Some(m) ==> mask_views(Some(&m)) == Some(masks_of(games@, active@)),
{
    let ghost whole = masks_of(games@, active@);
    let mut masks: Vec<Vec<bool>> = Vec::new();
    let mut k: usize = 0;
    while k < active.len()
        invariant
            k <= active@.len(),
            masks@.len() == k,
            whole == masks_of(games@, active@),
            forall|j: int| 0 <= j < active@.len() ==> #[trigger] active@[j] < games@.len(),
            forall|j: int|
                0 <= j < k ==> (#[trigger] masks@[j])@ == whole[j] && whole[j].len()
                    == action_space,
        decreases active@.len() - k,
    {
        let mask: Vec<bool> = games[active[k]].env.legal_mask();
        if mask.len() != action_space {
            assert(whole[k as int].len() != action_space);
            return None;
        }
        masks.push(mask);
        k = k + 1;
    }
    proof {
        assert forall|j: int| 0 <= j < whole.len() implies (#[trigger] whole[j]).len()
            == action_space by {
            assert(masks@[j]@ == whole[j]);
        }
        assert(mask_views(Some(&masks))->0 =~= whole);
    }
    Some(masks)
}

/// Fewer positions fit where more do.
proof fn lemma_fewer_fit(num_simulations: int, action_space: int, fewer: int, more: int)
    requires
        sizes_fit(num_simulations, action_space, more),
        0 <= fewer <= more,
        num_simulations >= 0,
    ensures
        sizes_fit(num_simulations, action_space, fewer),
{
    assert((num_simulations + 1) * fewer <= (num_simulations + 1) * more) by (nonlinear_arith)
        requires
            0 <= fewer <= more,
            num_simulations >= 0,
    ;
}

/// The agent's moves in the active games: the best actions of one search of all of them, at
/// temperature zero.
pub fn agent_choices<E: BoardGame, P: Player<E>>(
    mz_conf: &MuZeroConfig,
    games: &Vec<Game<E>>,
    active: &Vec<usize>,
    player: &mut P,
) -> (chosen: Option<Vec<usize>>)
    requires
        mz_conf.action_space >= 1,
        mz_conf.search_algorithm is Gumbel ==> mz_conf.gumbel is Some,
        sizes_fit(
            mz_conf.num_simulations as int,
            mz_conf.action_space as int,
            active@.len() as int,
        ),
        forall|k: int| 0 <= k < active@.len() ==> #[trigger] active@[k] < games@.len(),
    ensures
        chosen matches Some(actions) ==> agent_chose(
            *mz_conf,
            games@,
            active@,
            *old(player),
            actions@,
            *final(player),
        ),
        chosen is None ==> agent_fails(*mz_conf, games@, active@, *old(player)),
        ({
            &&& mz_conf.num_simulations >= 1
            &&& scores_legal_actions::<P>()
            &&& old(player).answers_in_full(mz_conf.action_space)
            &&& masks_fit(masks_of(games@, active@), mz_conf.action_space as int)
            &&& forall|k: int|
                0 <= k < active@.len() ==> !stuck(games@[#[trigger] active@[k] as int].env)
        }) ==> chosen is Some && final(player).answers_in_full(mz_conf.action_space),
{
    let action_space: usize = mz_conf.action_space;
    let masks: Vec<Vec<bool>> = match active_masks(games, active, action_space) {
        Some(masks) => masks,
        None => {
            return None;
        },
    };
    let roots: Predictions = player.roots(games, active);
    if roots.rewards.len() != active.len() {
        return None;
    }
    let ghost asked = *player;
    let ghost job = agent_job(*mz_conf, masks_of(games@, active@), roots@);
    proof {
        assert(mask_views(Some(&masks))->0.len() == masks@.len());
        assert forall|k: int| 0 <= k < masks@.len() implies (#[trigger] masks@[k])@.len()
            == action_space by {
            assert(mask_views(Some(&masks))->0[k] == masks@[k]@);
            assert(masks_of(games@, active@)[k].len() == action_space);
        }
        assert((mz_conf.num_simulations + 1) * action_space >= action_space) by (nonlinear_arith)
            requires
                mz_conf.num_simulations >= 0,
                action_space >= 0,
        ;
    }
    let most: usize = max_considered(mz_conf);
    let found: Option<Vec<SearchReturn>> = batched_search(
        mz_conf.search_algorithm,
        most,
        action_space,
        mz_conf.num_simulations,
        0,
        Some(&masks),
        &roots,
        Single::zero(),
        player,
    );
    let results: Vec<SearchReturn> = match found {
        Some(results) => results,
        None => {
            return None;
        },
    };
    let mut actions: Vec<usize> = Vec::new();
    let mut k: usize = 0;
    while k < results.len()
        invariant
            k <= results@.len(),
            actions@.len() == k,
            forall|j: int| 0 <= j < k ==> #[trigger] actions@[j] == results@[j].best_action,
        decreases results@.len() - k,
    {
        actions.push(results[k].best_action);
        k = k + 1;
    }
    proof {
        assert(actions@ =~= best_actions(results@));
        assert(results_of(job, asked, Single::zero_spec(), results@));
        assert(best_in_search(job, asked, actions@));
        if mz_conf.num_simulations >= 1 && scores_legal_actions::<P>() && forall|k: int|
            0 <= k < active@.len() ==> !stuck(games@[#[trigger] active@[k] as int].env) {
            assert forall|row: int| 0 <= row < job.count() implies #[trigger] has_an_action(
                job,
                row,
            ) by {
                let mask = games@[active@[row] as int].env.legal_spec();
                assert(!stuck(games@[active@[row] as int].env));
                assert(masks_of(games@, active@)[row] == mask);
                legal_list_is_exact(mask, mask.len() as int);
                let a = legal_list(mask, mask.len() as int)[0];
                assert(job.legal(row, a as int));
            }
            assert forall|k: int| 0 <= k < active@.len() implies games@[
            #[trigger] active@[k] as int].legal(actions@[k] as int) by {
                assert(keeps_to_legal(job, k, results@[k]));
                assert(masks_of(games@, active@)[k].len() == action_space);
            }
        }
    }
    if !are_legal(games, active, &actions) {
        return None;
    }
    Some(actions)
}

/// Whether the agent has one legal move for each of the active games.
pub fn are_legal<E: BoardGame>(
    games: &Vec<Game<E>>,
    active: &Vec<usize>,
    actions: &Vec<usize>,
) -> (legal: bool)
    requires
        forall|k: int| 0 <= k < active@.len() ==> #[trigger] active@[k] < games@.len(),
    ensures
        legal <==> actions@.len() == active@.len() && forall|k: int|
            0 <= k < active@.len() ==> games@[#[trigger] active@[k] as int].legal(
                actions@[k] as int,
            ),
{
    if actions.len() != active.len() {
        return false;
    }
    let mut k: usize = 0;
    while k < active.len()
        invariant
            k <= active@.len(),
            actions@.len() == active@.len(),
            forall|j: int| 0 <= j < active@.len() ==> #[trigger] active@[j] < games@.len(),
            forall|j: int|
                0 <= j < k ==> games@[#[trigger] active@[j] as int].legal(actions@[j] as int),
        decreases active@.len() - k,
    {
        let mask: Vec<bool> = games[active[k]].env.legal_mask();
        if actions[k] >= mask.len() || !mask[actions[k]] {
            assert(!games@[active@[k as int] as int].legal(actions@[k as int] as int));
            return false;
        }
        k = k + 1;
    }
    true
}

/// Plays the agent's moves, one in each of the active games.
pub fn agent_moves<E: BoardGame>(
    games: &mut Vec<Game<E>>,
    active: &Vec<usize>,
    actions: &Vec<usize>,
)
    requires
        actions@.len() == active@.len(),
        active@.no_duplicates(),
        forall|k: int|
            0 <= k < active@.len() ==> {
                &&& #[trigger] active@[k] < old(games)@.len()
                &&& old(games)@[active@[k] as int].legal(actions@[k] as int)
                &&& old(games)@[active@[k] as int].plies < usize::MAX
            },
    ensures
        agent_moved(old(games)@, final(games)@, active@, actions@),
{
    let mut k: usize = 0;
    while k < active.len()
        invariant
            k <= active@.len(),
            games@.len() == old(games)@.len(),
            actions@.len() == active@.len(),
            active@.no_duplicates(),
            forall|j: int|
                0 <= j < active@.len() ==> {
                    &&& #[trigger] active@[j] < old(games)@.len()
                    &&& old(games)@[active@[j] as int].legal(actions@[j] as int)
                    &&& old(games)@[active@[j] as int].plies < usize::MAX
                },
            forall|j: int|
                0 <= j < k ==> stepped(
                    old(games)@[#[trigger] active@[j] as int],
                    games@[active@[j] as int],
                    actions@[j],
                ) && games@[active@[j] as int].rng == old(games)@[active@[j] as int].rng,
            forall|j: int|
                k <= j < active@.len() ==> games@[#[trigger] active@[j] as int] == old(games)@[active@[j] as int],
            forall|i: int|
                0 <= i < games@.len() && !active@.contains(i as usize) ==> #[trigger] games@[i]
                    == old(games)@[i],
        decreases active@.len() - k,
    {
        let i: usize = active[k];
        assert(games@[active@[k as int] as int] == old(games)@[i as int]);
        games[i].step(actions[k]);
        assert(active@.contains(i));
        k = k + 1;
    }
}

/// The games among the first `end` that were won, drawn and lost. Those without a
/// number for an outcome do not count.
pub open spec fn tally_spec<E: BoardGame>(games: Seq<Game<E>>, end: int) -> (int, int, int)
    decreases end,
{
    if end <= 0 {
        (0, 0, 0)
    } else {
        let (wins, draws, losses) = tally_spec(games, end - 1);
        match games[end - 1].outcome {
            Some(outcome) => if Single::zero_spec().lt_spec(outcome) {
                (wins + 1, draws, losses)
            } else if outcome.lt_spec(Single::zero_spec()) {
                (wins, draws, losses + 1)
            } else if outcome.eq_value_spec(Single::zero_spec()) {
                (wins, draws + 1, losses)
            } else {
                (wins, draws, losses)
            },
            None => (wins, draws, losses),
        }
    }
}

/// How the games went.
pub fn tally<E: BoardGame>(games: &Vec<Game<E>>) -> (result: EvalResult)
    ensures
        tally_spec(games@, games@.len() as int) == (
            result.wins as int,
            result.draws as int,
            result.losses as int,
        ),
        result.games_spec() <= games@.len(),
{
    let mut result: EvalResult = EvalResult::default();
    let mut i: usize = 0;
    while i < games.len()
        invariant
            i <= games@.len(),
            result.games_spec() <= i,
            tally_spec(games@, i as int) == (
                result.wins as int,
                result.draws as int,
                result.losses as int,
            ),
        decreases games@.len() - i,
    {
        match games[i].outcome {
            Some(outcome) => {
                if Single::zero().less(outcome) {
                    result.wins = result.wins + 1;
                } else if outcome.less(Single::zero()) {
                    result.losses = result.losses + 1;
                } else if outcome.same_value(Single::zero()) {
                    result.draws = result.draws + 1;
                }
            },
            None => {},
        }
        i = i + 1;
    }
    result
}

/// Once all games are over, every game counts but those whose outcome is no number.
pub proof fn every_game_is_tallied<E: BoardGame>(games: Seq<Game<E>>, end: int)
    requires
        0 <= end <= games.len(),
        forall|i: int|
            0 <= i < games.len() ==> (#[trigger] games[i]).outcome is Some
                && !games[i].outcome->0.nan(),
    ensures
        ({
            let (wins, draws, losses) = tally_spec(games, end);
            wins + draws + losses == end
        }),
    decreases end,
{
    if end > 0 {
        every_game_is_tallied(games, end - 1);
        assert(games[end - 1].outcome is Some);
    }
}

/// The list of active games names each of them once.
pub(crate) proof fn lemma_agent_games<E: BoardGame>(games: Seq<Game<E>>, end: int)
    requires
        0 <= end <= games.len() <= usize::MAX,
    ensures
        agent_games(games, end).no_duplicates(),
        agent_games(games, end).len() <= end,
        forall|k: int|
            0 <= k < agent_games(games, end).len() ==> {
                let i = #[trigger] agent_games(games, end)[k] as int;
                i < end && games[i].live_spec() && games[i].agent_to_move
            },
        forall|i: int|
            0 <= i < end && (#[trigger] games[i]).live_spec() && games[i].agent_to_move
                ==> agent_games(games, end).contains(i as usize),
    decreases end,
{
    if end > 0 {
        lemma_agent_games(games, end - 1);
        let shorter = agent_games(games, end - 1);
        let list = agent_games(games, end);
        if games[end - 1].live_spec() && games[end - 1].agent_to_move {
            assert(list[list.len() - 1] == (end - 1) as usize);
            assert forall|i: int|
                0 <= i < end && (#[trigger] games[i]).live_spec()
                    && games[i].agent_to_move implies list.contains(i as usize) by {
                if i < end - 1 {
                    assert(shorter.contains(i as usize));
                    let k = choose|k: int| 0 <= k < shorter.len() && shorter[k] == i as usize;
                    assert(list[k] == i as usize);
                }
            }
        }
    }
}

/// Whether the agent's moves were played, one in each of the active games.
pub open spec fn agent_moved<E: BoardGame>(
    before: Seq<Game<E>>,
    after: Seq<Game<E>>,
    active: Seq<usize>,
    actions: Seq<usize>,
) -> bool {
    &&& after.len() == before.len()
    &&& forall|k: int|
        0 <= k < active.len() ==> {
            &&& stepped(
                before[#[trigger] active[k] as int],
                after[active[k] as int],
                actions[k],
            )
            &&& after[active[k] as int].rng == before[active[k] as int].rng
        }
    &&& forall|i: int|
        0 <= i < before.len() && !active.contains(i as usize) ==> #[trigger] after[i]
            == before[i]
}

/// An evaluation between two rounds.
pub struct Stand<E, P> {
    pub games: Seq<Game<E>>,
    pub player: P,
}

/// Whether a round leads from one stand to another: first the opponent moves, then the agent.
pub open spec fn round_played<E: BoardGame, P: Player<E>>(
    mz_conf: MuZeroConfig,
    opponent: Opponent,
    before: Stand<E, P>,
    after: Stand<E, P>,
) -> bool {
    exists|between: Seq<Game<E>>, actions: Seq<usize>| #[trigger]
        round_played_by(mz_conf, opponent, before, after, between, actions)
}

/// Whether a round leads from one stand to another by way of the games after the opponent's
/// moves, and by the agent's moves in them.
pub open spec fn round_played_by<E: BoardGame, P: Player<E>>(
    mz_conf: MuZeroConfig,
    opponent: Opponent,
    before: Stand<E, P>,
    after: Stand<E, P>,
    between: Seq<Game<E>>,
    actions: Seq<usize>,
) -> bool {
    let active = agent_games(between, between.len() as int);
    &&& all_moved::<E, P>(opponent, before.games, between)
    &&& active.len() > 0
    &&& agent_chose(mz_conf, between, active, before.player, actions, after.player)
    &&& agent_moved(between, after.games, active, actions)
}

/// Whether stands follow from the start of an evaluation on, round by round.
pub open spec fn course_of<E: BoardGame, P: Player<E>>(
    mz_conf: MuZeroConfig,
    conf: EvalConfig,
    opponent: Opponent,
    player: P,
    stands: Seq<Stand<E, P>>,
) -> bool {
    &&& stands.len() > 0
    &&& stands[0].player == player
    &&& stands[0].games.len() == conf.games
    &&& forall|i: int|
        0 <= i < conf.games ==> opened(
            E::initial_spec(),
            conf,
            i as usize,
            #[trigger] stands[0].games[i],
        )
    &&& forall|r: int|
        0 <= r < stands.len() - 1 ==> round_played(
            mz_conf,
            opponent,
            #[trigger] stands[r],
            stands[r + 1],
        )
}

/// Whether a result is that of games which were all played to their end, as lines tell them.
pub open spec fn evaluated<E: BoardGame>(
    conf: EvalConfig,
    opponent: Opponent,
    games: Seq<Game<E>>,
    result: EvalResult,
) -> bool {
    &&& games.len() == conf.games
    &&& forall|i: int|
        0 <= i < games.len() ==> (#[trigger] games[i]).outcome is Some && told(
            conf,
            opponent,
            i,
            games[i],
        )
    &&& tally_spec(games, games.len() as int) == (
        result.wins as int,
        result.draws as int,
        result.losses as int,
    )
}

/// Whether a result is that of an evaluation: its rounds were played until no game went on
/// with the agent to move, and then the games were counted.
pub open spec fn result_of<E: BoardGame, P: Player<E>>(
    mz_conf: MuZeroConfig,
    conf: EvalConfig,
    opponent: Opponent,
    player: P,
    result: EvalResult,
) -> bool {
    exists|stands: Seq<Stand<E, P>>, games: Seq<Game<E>>|
        {
            &&& #[trigger] course_of(mz_conf, conf, opponent, player, stands)
            &&& all_moved::<E, P>(opponent, stands.last().games, games)
            &&& #[trigger] evaluated(conf, opponent, games, result)
        }
}

/// Whether an evaluation cannot be played to its end: after some rounds the opponent has no
/// legal move in a game that goes on, or the agent finds no moves.
pub open spec fn cut_short<E: BoardGame, P: Player<E>>(
    mz_conf: MuZeroConfig,
    conf: EvalConfig,
    opponent: Opponent,
    player: P,
) -> bool {
    exists|stands: Seq<Stand<E, P>>|
        {
            &&& #[trigger] course_of(mz_conf, conf, opponent, player, stands)
            &&& breaks_off(mz_conf, opponent, stands.last())
        }
}

/// Whether a round cannot be played.
pub open spec fn breaks_off<E: BoardGame, P: Player<E>>(
    mz_conf: MuZeroConfig,
    opponent: Opponent,
    stand: Stand<E, P>,
) -> bool {
    ||| !opponent_can_move(stand.games)
    ||| exists|between: Seq<Game<E>>|
        {
            let active = agent_games(between, between.len() as int);
            &&& #[trigger] all_moved::<E, P>(opponent, stand.games, between)
            &&& active.len() > 0
            &&& agent_fails(mz_conf, between, active, stand.player)
        }
}

/// Whether every position that a game comes to and goes on from has so many actions, and a
/// legal one among them.
pub open spec fn always_a_move<E: BoardGame>(action_space: int) -> bool {
    forall|line: Seq<usize>| #[trigger]
        playable(E::initial_spec(), line) && !line_ends(E::initial_spec(), line) ==> {
            let env = position_after(E::initial_spec(), line);
            env.legal_spec().len() == action_space && !stuck(env)
        }
}

/// Whether all openings of an evaluation end their games.
pub open spec fn openings_end<E: BoardGame>(conf: EvalConfig) -> bool {
    forall|i: int|
        0 <= i < conf.games ==> (#[trigger] opening_in(
            E::initial_spec(),
            conf,
            i as usize,
        )).ended
}

/// A game that goes on has the actions and the legal move that all positions have.
proof fn lemma_goes_on<E: BoardGame>(
    conf: EvalConfig,
    opponent: Opponent,
    i: int,
    game: Game<E>,
    action_space: int,
)
    requires
        told(conf, opponent, i, game),
        game.live_spec(),
        always_a_move::<E>(action_space),
    ensures
        !stuck(game.env),
        game.env.legal_spec().len() == action_space,
{
    let line = choose|line: Seq<usize>| #[trigger] told_by(conf, opponent, i, game, line);
    assert(playable(E::initial_spec(), line));
}

/// Games without a number for an outcome count for nothing.
proof fn lemma_none_counts<E: BoardGame>(games: Seq<Game<E>>, end: int)
    requires
        0 <= end <= games.len(),
        forall|i: int|
            0 <= i < games.len() ==> (#[trigger] games[i]).outcome == Some(
                Single { bits: NAN_BITS },
            ),
    ensures
        tally_spec(games, end) == (0int, 0int, 0int),
    decreases end,
{
    if end > 0 {
        lemma_none_counts(games, end - 1);
        assert(games[end - 1].outcome == Some(Single { bits: NAN_BITS }));
    }
}

/// Plays the games of an evaluation against an opponent, all of them in lockstep, so that the
/// agent moves in all games at once.
///
/// None comes back where the agent found no legal moves, or the opponent had no legal move
/// in a game that went on. Neither happens where every position has a legal move, the model
/// answers in full and gives legal actions scores above negative infinity, and there is a
/// simulation.
#[verifier::rlimit(40)]
pub fn eval_games<E: BoardGame, P: Player<E>>(
    mz_conf: &MuZeroConfig,
    conf: &EvalConfig,
    opponent: &Opponent,
    player: &mut P,
) -> (result: Option<EvalResult>)
    requires
        conf.random_opening_plies < usize::MAX,
        mz_conf.action_space >= 1,
        mz_conf.search_algorithm is Gumbel ==> mz_conf.gumbel is Some,
        sizes_fit(
            mz_conf.num_simulations as int,
            mz_conf.action_space as int,
            conf.games as int,
        ),
    ensures
        result matches Some(r) ==> r.games_spec() <= conf.games && result_of::<E, P>(
            *mz_conf,
            *conf,
            *opponent,
            *old(player),
            r,
        ),
        result is None ==> cut_short::<E, P>(*mz_conf, *conf, *opponent, *old(player)),
        openings_end::<E>(*conf) ==> result is Some && result->0.games_spec() == 0,
        ({
            &&& always_a_move::<E>(mz_conf.action_space as int)
            &&& mz_conf.num_simulations >= 1
            &&& scores_legal_actions::<P>()
            &&& old(player).answers_in_full(mz_conf.action_space)
        }) ==> result is Some,
{
    let mut games: Vec<Game<E>> = start_games(conf);
    let ghost mut rounds: int = 0;
    let ghost mut stands: Seq<Stand<E, P>> = seq![Stand { games: games@, player: *player }];
    let ghost good = always_a_move::<E>(mz_conf.action_space as int) && mz_conf.num_simulations
        >= 1 && scores_legal_actions::<P>() && player.answers_in_full(mz_conf.action_space);
    proof {
        assert forall|i: int| 0 <= i < games@.len() implies told(
            *conf,
            *opponent,
            i,
            #[trigger] games@[i],
        ) by {
            lemma_told_opening(*conf, *opponent, i, games@[i]);
        }
        if openings_end::<E>(*conf) {
            assert forall|i: int| 0 <= i < games@.len() implies (#[trigger] games@[i]).outcome
                == Some(Single { bits: NAN_BITS }) by {
                assert(opening_in(E::initial_spec(), *conf, i as usize).ended);
            }
        }
    }
    loop
        invariant
            games@.len() == conf.games,
            conf.random_opening_plies < usize::MAX,
            mz_conf.action_space >= 1,
            mz_conf.search_algorithm is Gumbel ==> mz_conf.gumbel is Some,
            sizes_fit(
                mz_conf.num_simulations as int,
                mz_conf.action_space as int,
                conf.games as int,
            ),
            0 <= rounds <= E::max_steps_spec() + 1,
            course_of(*mz_conf, *conf, *opponent, *old(player), stands),
            stands.last() == (Stand { games: games@, player: *player }),
            good == (always_a_move::<E>(mz_conf.action_space as int)
                && mz_conf.num_simulations >= 1 && scores_legal_actions::<P>() && old(
                player,
            ).answers_in_full(mz_conf.action_space)),
            good ==> player.answers_in_full(mz_conf.action_space),
            openings_end::<E>(*conf) ==> forall|i: int|
                0 <= i < games@.len() ==> (#[trigger] games@[i]).outcome == Some(
                    Single { bits: NAN_BITS },
                ),
            forall|i: int|
                0 <= i < games@.len() ==> {
                    &&& told(*conf, *opponent, i, #[trigger] games@[i])
                    &&& games@[i].max_steps == E::max_steps_spec()
                    &&& games@[i].live_spec() ==> games@[i].plies >= rounds
                    &&& games@[i].live_spec() ==> games@[i].plies < usize::MAX
                    &&& games@[i].live_spec() && rounds >= 1 ==> games@[i].plies
                        < E::max_steps_spec()
                },
        decreases E::max_steps_spec() + 1 - rounds,
    {
        let ghost before = games@;
        let ghost player_before = *player;
        proof {
            if good {
                assert forall|i: int|
                    0 <= i < before.len() && (#[trigger] before[i]).live_spec() implies !stuck(
                    before[i].env,
                ) by {
                    lemma_goes_on(
                        *conf,
                        *opponent,
                        i,
                        before[i],
                        mz_conf.action_space as int,
                    );
                }
            }
        }
        if !opponent_moves(&mut games, opponent, player) {
            assert(breaks_off(*mz_conf, *opponent, stands.last()));
            assert(cut_short::<E, P>(*mz_conf, *conf, *opponent, *old(player)));
            return None;
        }
        let ghost between = games@;
        proof {
            assert forall|i: int| 0 <= i < between.len() implies {
                &&& told(*conf, *opponent, i, #[trigger] between[i])
                &&& between[i].max_steps == E::max_steps_spec()
                &&& between[i].live_spec() ==> before[i].live_spec() && between[i].agent_to_move
                    && between[i].plies >= before[i].plies && between[i].plies < usize::MAX
                &&& between[i].live_spec() && between[i].plies > before[i].plies
                    ==> between[i].plies < E::max_steps_spec()
                &&& !before[i].live_spec() ==> between[i] == before[i]
            } by {
                assert(opponent_moved::<E, P>(*opponent, before[i], between[i]));
                assert(told(*conf, *opponent, i, before[i]));
                if before[i].live_spec() && !before[i].agent_to_move {
                    lemma_opponent_moved::<E, P>(*conf, *opponent, i, before[i], between[i]);
                }
            }
        }
        let active: Vec<usize> = active_games(&games);
        proof {
            lemma_agent_games(between, between.len() as int);
        }
        if active.len() == 0 {
            let result: EvalResult = tally(&games);
            proof {
                assert forall|i: int| 0 <= i < games@.len() implies (
                #[trigger] games@[i]).outcome is Some by {
                    if between[i].live_spec() {
                        assert(active@.contains(i as usize));
                    }
                }
                assert(evaluated(*conf, *opponent, games@, result));
                assert(result_of::<E, P>(*mz_conf, *conf, *opponent, *old(player), result));
                if openings_end::<E>(*conf) {
                    assert forall|i: int| 0 <= i < games@.len() implies (
                    #[trigger] games@[i]).outcome == Some(Single { bits: NAN_BITS }) by {
                        assert(before[i].outcome == Some(Single { bits: NAN_BITS }));
                    }
                    lemma_none_counts(games@, games@.len() as int);
                }
            }
            return Some(result);
        }
        proof {
            lemma_fewer_fit(
                mz_conf.num_simulations as int,
                mz_conf.action_space as int,
                active@.len() as int,
                conf.games as int,
            );
            let seen = between[active@[0] as int];
            assert(seen.live_spec());
            assert(before[active@[0] as int].live_spec());
            if good {
                assert forall|k: int| 0 <= k < active@.len() implies !stuck(
                    between[#[trigger] active@[k] as int].env,
                ) && between[active@[k] as int].env.legal_spec().len()
                    == mz_conf.action_space by {
                    lemma_goes_on(
                        *conf,
                        *opponent,
                        active@[k] as int,
                        between[active@[k] as int],
                        mz_conf.action_space as int,
                    );
                }
            }
        }
        let actions: Vec<usize> = match agent_choices(mz_conf, &games, &active, player) {
            Some(actions) => actions,
            None => {
                assert(all_moved::<E, P>(*opponent, before, between));
                assert(agent_fails(*mz_conf, between, active@, player_before));
                assert(breaks_off(*mz_conf, *opponent, stands.last()));
                assert(cut_short::<E, P>(*mz_conf, *conf, *opponent, *old(player)));
                return None;
            },
        };
        agent_moves(&mut games, &active, &actions);
        proof {
            assert forall|i: int| 0 <= i < games@.len() implies {
                &&& told(*conf, *opponent, i, #[trigger] games@[i])
                &&& games@[i].max_steps == E::max_steps_spec()
                &&& games@[i].live_spec() ==> games@[i].plies >= rounds + 1
                &&& games@[i].live_spec() ==> games@[i].plies < E::max_steps_spec()
            } by {
                assert(told(*conf, *opponent, i, between[i]));
                if active@.contains(i as usize) {
                    let k = choose|k: int| 0 <= k < active@.len() && active@[k] == i as usize;
                    assert(stepped(between[i], games@[i], actions@[k]));
                    lemma_told_step(
                        *conf,
                        *opponent,
                        i,
                        between[i],
                        games@[i],
                        actions@[k],
                        Single::zero_spec(),
                    );
                } else {
                    assert(games@[i] == between[i]);
                }
            }
            rounds = rounds + 1;
            let next = Stand { games: games@, player: *player };
            let longer = stands.push(next);
            assert(round_played_by(
                *mz_conf,
                *opponent,
                stands.last(),
                next,
                between,
                actions@,
            ));
            assert forall|r: int| 0 <= r < longer.len() - 1 implies round_played(
                *mz_conf,
                *opponent,
                #[trigger] longer[r],
                longer[r + 1],
            ) by {
                if r < stands.len() - 1 {
                    assert(round_played(*mz_conf, *opponent, stands[r], stands[r + 1]));
                }
            }
            assert(longer[0] == stands[0]);
            stands = longer;
        }
    }
}

/// The games among the first `end` that do not end in their opening.
pub open spec fn games_that_count<E: BoardGame>(conf: EvalConfig, end: int) -> int
    decreases end,
{
    if end <= 0 {
        0
    } else {
        games_that_count::<E>(conf, end - 1) + if opening_in(
            E::initial_spec(),
            conf,
            (end - 1) as usize,
        ).ended {
            0int
        } else {
            1int
        }
    }
}

/// Whether the rewards of a game are numbers.
pub open spec fn rewards_are_numbers<E: BoardGame>() -> bool {
    forall|env: E, action: int| !(#[trigger] env.result_spec(action)).reward.nan()
}

/// Before its last action, a playable line does not end the game.
proof fn lemma_only_the_end_ends<E: BoardGame>(start: E, line: Seq<usize>, n: int)
    requires
        playable(start, line),
        0 <= n < line.len(),
    ensures
        !line_ends(start, line.take(n)),
    decreases line.len(),
{
    let shorter = line.drop_last();
    if n < shorter.len() {
        lemma_only_the_end_ends(start, shorter, n);
        assert(shorter.take(n) =~= line.take(n));
    } else {
        assert(line.take(n) =~= shorter);
    }
}

/// A finished game counts exactly where its opening did not end it.
pub proof fn finished_game_counts_after_its_opening<E: BoardGame>(
    conf: EvalConfig,
    opponent: Opponent,
    i: int,
    game: Game<E>,
)
    requires
        told(conf, opponent, i, game),
        game.outcome is Some,
        rewards_are_numbers::<E>(),
    ensures
        game.outcome->0.nan() <==> opening_in(E::initial_spec(), conf, i as usize).ended,
{
    let start = E::initial_spec();
    let opening = opening_in(start, conf, i as usize);
    let line = choose|line: Seq<usize>| #[trigger] told_by(conf, opponent, i, game, line);
    let n = opening.plies() as int;
    if n == line.len() {
        assert(line.take(n) =~= line);
    } else {
        lemma_only_the_end_ends(start, line, n);
    }
    if line_ends(start, line) {
        let reward = position_after(start, line.drop_last()).result_spec(
            line.last() as int,
        ).reward;
        assert(!reward.nan());
        crate::single::negation_reverses_order(reward, reward);
    }
}

/// A game is left out of the count exactly where its opening ended it: all others are won,
/// drawn or lost, as long as rewards are numbers.
pub proof fn all_games_count_but_ended_openings<E: BoardGame>(
    conf: EvalConfig,
    opponent: Opponent,
    games: Seq<Game<E>>,
    result: EvalResult,
)
    requires
        evaluated(conf, opponent, games, result),
        rewards_are_numbers::<E>(),
    ensures
        result.games_spec() == games_that_count::<E>(conf, conf.games as int),
{
    lemma_counted(conf, opponent, games, games.len() as int);
}

proof fn lemma_counted<E: BoardGame>(
    conf: EvalConfig,
    opponent: Opponent,
    games: Seq<Game<E>>,
    end: int,
)
    requires
        0 <= end <= games.len(),
        forall|i: int|
            0 <= i < games.len() ==> (#[trigger] games[i]).outcome is Some && told(
                conf,
                opponent,
                i,
                games[i],
            ),
        rewards_are_numbers::<E>(),
    ensures
        ({
            let (wins, draws, losses) = tally_spec(games, end);
            wins + draws + losses == games_that_count::<E>(conf, end)
        }),
    decreases end,
{
    if end > 0 {
        lemma_counted(conf, opponent, games, end - 1);
        assert(games[end - 1].outcome is Some);
        finished_game_counts_after_its_opening(conf, opponent, end - 1, games[end - 1]);
    }
}

/// The opponent's move leads to one game alone.
proof fn lemma_one_move<E: BoardGame, P: Player<E>>(
    opponent: Opponent,
    before: Game<E>,
    a: Game<E>,
    b: Game<E>,
)
    requires
        opponent_moved::<E, P>(opponent, before, a),
        opponent_moved::<E, P>(opponent, before, b),
    ensures
        a == b,
        before.live_spec() && !before.agent_to_move ==> !stuck(before.env),
{
    if before.live_spec() && !before.agent_to_move {
        let (unit, seed) = opponent_draw::<E, P>(opponent, before);
        let ready = Game { rng: Dice { seed }, ..before };
        let x = choose|action: usize|
            {
                &&& #[trigger] stepped(ready, a, action)
                &&& opponent.may_play(ready.env, unit, action as int)
                &&& opponent.plays(ready.env, unit, ready.rng.seed, action as int, a.rng.seed)
            };
        let y = choose|action: usize|
            {
                &&& #[trigger] stepped(ready, b, action)
                &&& opponent.may_play(ready.env, unit, action as int)
                &&& opponent.plays(ready.env, unit, ready.rng.seed, action as int, b.rng.seed)
            };
        crate::opponent::opponent_plays_one_move(
            opponent,
            ready.env,
            unit,
            seed,
            x as int,
            a.rng.seed,
            y as int,
            b.rng.seed,
        );
    }
}

/// The opponent's moves lead to the same games, and could be made.
proof fn lemma_same_between<E: BoardGame, P: Player<E>>(
    opponent: Opponent,
    before: Seq<Game<E>>,
    a: Seq<Game<E>>,
    b: Seq<Game<E>>,
)
    requires
        all_moved::<E, P>(opponent, before, a),
        all_moved::<E, P>(opponent, before, b),
    ensures
        a == b,
        opponent_can_move(before),
{
    assert forall|i: int| 0 <= i < before.len() implies a[i] == b[i] && (
    #[trigger] before[i].live_spec() && !before[i].agent_to_move ==> !stuck(before[i].env)) by {
        assert(opponent_moved::<E, P>(opponent, before[i], a[i]));
        assert(opponent_moved::<E, P>(opponent, before[i], b[i]));
        lemma_one_move::<E, P>(opponent, before[i], a[i], b[i]);
    }
    assert forall|i: int|
        0 <= i < before.len() && (#[trigger] before[i]).live_spec() && !before[i].agent_to_move
        implies !stuck(before[i].env) by {
        assert(before[i].live_spec());
    }
    assert forall|i: int| 0 <= i < a.len() implies a[i] == b[i] by {
        assert(before[i].live_spec() || !before[i].live_spec());
    }
    assert(a =~= b);
}

/// A search has the same best actions however often it is made.
proof fn lemma_same_best<P: SearchModel>(job: Job, player: P, a: Seq<usize>, b: Seq<usize>)
    requires
        best_in_search(job, player, a),
        best_in_search(job, player, b),
        job.count() <= usize::MAX,
    ensures
        a == b,
{
    let tau = Single::zero_spec();
    let one = choose|results: Seq<SearchReturn>| #[trigger]
        results_of(job, player, tau, results) && a == best_actions(results);
    let other = choose|results: Seq<SearchReturn>| #[trigger]
        results_of(job, player, tau, results) && b == best_actions(results);
    assert forall|i: int| 0 <= i < a.len() implies a[i] == b[i] by {
        crate::course::equal_searches_agree(job, player, tau, one, other, i);
    }
    assert(a =~= b);
}

/// A round leads to one stand alone, and the agent finds its moves in it.
proof fn lemma_same_round<E: BoardGame, P: Player<E>>(
    mz_conf: MuZeroConfig,
    opponent: Opponent,
    before: Stand<E, P>,
    a: Stand<E, P>,
    b: Stand<E, P>,
)
    requires
        round_played(mz_conf, opponent, before, a),
        round_played(mz_conf, opponent, before, b),
        before.games.len() <= usize::MAX,
    ensures
        a == b,
        !breaks_off(mz_conf, opponent, before),
        a.games.len() == before.games.len(),
{
    let (between, actions) = choose|between: Seq<Game<E>>, actions: Seq<usize>| #[trigger]
        round_played_by(mz_conf, opponent, before, a, between, actions);
    let (other_between, other_actions) = choose|between: Seq<Game<E>>, actions: Seq<usize>|
        #[trigger]
        round_played_by(mz_conf, opponent, before, b, between, actions);
    lemma_same_between::<E, P>(opponent, before.games, between, other_between);
    let active = agent_games(between, between.len() as int);
    let (roots, asked) = before.player.roots_spec(positions_of(between, active));
    let job = agent_job(mz_conf, masks_of(between, active), roots);
    lemma_agent_games(between, between.len() as int);
    lemma_same_best(job, asked, actions, other_actions);
    assert forall|i: int| 0 <= i < between.len() implies a.games[i] == b.games[i] by {
        if active.contains(i as usize) {
            let k = choose|k: int| 0 <= k < active.len() && active[k] == i as usize;
            assert(stepped(between[active[k] as int], a.games[active[k] as int], actions[k]));
            assert(stepped(between[active[k] as int], b.games[active[k] as int], actions[k]));
        } else {
            assert(a.games[i] == between[i]);
            assert(b.games[i] == between[i]);
        }
    }
    assert(a.games =~= b.games);
    if breaks_off(mz_conf, opponent, before) {
        let stuck_between = choose|x: Seq<Game<E>>|
            {
                let list = agent_games(x, x.len() as int);
                &&& #[trigger] all_moved::<E, P>(opponent, before.games, x)
                &&& list.len() > 0
                &&& agent_fails(mz_conf, x, list, before.player)
            };
        lemma_same_between::<E, P>(opponent, before.games, between, stuck_between);
        assert forall|other: Seq<usize>| #[trigger] best_in_search(
            job,
            asked,
            other,
        ) implies all_legal(between, active, other) by {
            lemma_same_best(job, asked, actions, other);
        }
    }
}

/// Evaluations with the same player go through the same stands.
proof fn lemma_same_stands<E: BoardGame, P: Player<E>>(
    mz_conf: MuZeroConfig,
    conf: EvalConfig,
    opponent: Opponent,
    player: P,
    a: Seq<Stand<E, P>>,
    b: Seq<Stand<E, P>>,
    r: int,
)
    requires
        course_of(mz_conf, conf, opponent, player, a),
        course_of(mz_conf, conf, opponent, player, b),
        0 <= r < a.len(),
        r < b.len(),
    ensures
        a[r] == b[r],
        a[r].games.len() == conf.games,
    decreases r,
{
    if r == 0 {
        assert forall|i: int| 0 <= i < conf.games implies a[0].games[i] == b[0].games[i] by {
            assert(opened(E::initial_spec(), conf, i as usize, a[0].games[i]));
            assert(opened(E::initial_spec(), conf, i as usize, b[0].games[i]));
        }
        assert(a[0].games =~= b[0].games);
    } else {
        lemma_same_stands(mz_conf, conf, opponent, player, a, b, r - 1);
        assert(round_played(mz_conf, opponent, a[r - 1], a[r - 1 + 1]));
        assert(round_played(mz_conf, opponent, b[r - 1], b[r - 1 + 1]));
        lemma_same_round(mz_conf, opponent, a[r - 1], a[r], b[r]);
    }
}

/// Where all games are over, no round goes on.
proof fn lemma_no_round<E: BoardGame, P: Player<E>>(
    mz_conf: MuZeroConfig,
    opponent: Opponent,
    before: Stand<E, P>,
    games: Seq<Game<E>>,
)
    requires
        before.games.len() <= usize::MAX,
        all_moved::<E, P>(opponent, before.games, games),
        forall|i: int| 0 <= i < games.len() ==> (#[trigger] games[i]).outcome is Some,
    ensures
        !breaks_off(mz_conf, opponent, before),
        forall|after: Stand<E, P>| !#[trigger] round_played(mz_conf, opponent, before, after),
{
    assert forall|between: Seq<Game<E>>| #[trigger] all_moved::<E, P>(
        opponent,
        before.games,
        between,
    ) implies agent_games(between, between.len() as int).len() == 0 by {
        lemma_same_between::<E, P>(opponent, before.games, games, between);
        lemma_agent_games(games, games.len() as int);
        let list = agent_games(games, games.len() as int);
        if list.len() > 0 {
            assert(games[list[0] as int].live_spec());
        }
    }
    lemma_same_between::<E, P>(opponent, before.games, games, games);
    assert forall|after: Stand<E, P>| !#[trigger] round_played(
        mz_conf,
        opponent,
        before,
        after,
    ) by {
        if round_played(mz_conf, opponent, before, after) {
            let (between, actions) = choose|between: Seq<Game<E>>, actions: Seq<usize>|
                #[trigger]
                round_played_by(mz_conf, opponent, before, after, between, actions);
            assert(all_moved::<E, P>(opponent, before.games, between));
        }
    }
}

/// An evaluation has one result alone: the same player, opponent and settings lead to it again.
pub proof fn evaluations_agree<E: BoardGame, P: Player<E>>(
    mz_conf: MuZeroConfig,
    conf: EvalConfig,
    opponent: Opponent,
    player: P,
    one: EvalResult,
    other: EvalResult,
)
    requires
        result_of::<E, P>(mz_conf, conf, opponent, player, one),
        result_of::<E, P>(mz_conf, conf, opponent, player, other),
    ensures
        one == other,
{
    let (a, x) = choose|stands: Seq<Stand<E, P>>, games: Seq<Game<E>>|
        {
            &&& #[trigger] course_of(mz_conf, conf, opponent, player, stands)
            &&& all_moved::<E, P>(opponent, stands.last().games, games)
            &&& #[trigger] evaluated(conf, opponent, games, one)
        };
    let (b, y) = choose|stands: Seq<Stand<E, P>>, games: Seq<Game<E>>|
        {
            &&& #[trigger] course_of(mz_conf, conf, opponent, player, stands)
            &&& all_moved::<E, P>(opponent, stands.last().games, games)
            &&& #[trigger] evaluated(conf, opponent, games, other)
        };
    lemma_no_longer(mz_conf, conf, opponent, player, a, x, b);
    lemma_no_longer(mz_conf, conf, opponent, player, b, y, a);
    lemma_same_stands(mz_conf, conf, opponent, player, a, b, a.len() - 1);
    lemma_same_between::<E, P>(opponent, a.last().games, x, y);
}

/// No evaluation goes on where another one is over.
proof fn lemma_no_longer<E: BoardGame, P: Player<E>>(
    mz_conf: MuZeroConfig,
    conf: EvalConfig,
    opponent: Opponent,
    player: P,
    a: Seq<Stand<E, P>>,
    games: Seq<Game<E>>,
    b: Seq<Stand<E, P>>,
)
    requires
        course_of(mz_conf, conf, opponent, player, a),
        course_of(mz_conf, conf, opponent, player, b),
        all_moved::<E, P>(opponent, a.last().games, games),
        forall|i: int| 0 <= i < games.len() ==> (#[trigger] games[i]).outcome is Some,
    ensures
        b.len() <= a.len(),
{
    if b.len() > a.len() {
        let r = a.len() - 1;
        lemma_same_stands(mz_conf, conf, opponent, player, a, b, r);
        lemma_no_round(mz_conf, opponent, a[r], games);
        assert(round_played(mz_conf, opponent, b[r], b[r + 1]));
    }
}

/// An evaluation that can be played to its end is never cut short.
pub proof fn finished_evaluations_are_not_cut_short<E: BoardGame, P: Player<E>>(
    mz_conf: MuZeroConfig,
    conf: EvalConfig,
    opponent: Opponent,
    player: P,
    result: EvalResult,
)
    requires
        result_of::<E, P>(mz_conf, conf, opponent, player, result),
    ensures
        !cut_short::<E, P>(mz_conf, conf, opponent, player),
{
    if cut_short::<E, P>(mz_conf, conf, opponent, player) {
        let (a, games) = choose|stands: Seq<Stand<E, P>>, games: Seq<Game<E>>|
            {
                &&& #[trigger] course_of(mz_conf, conf, opponent, player, stands)
                &&& all_moved::<E, P>(opponent, stands.last().games, games)
                &&& #[trigger] evaluated(conf, opponent, games, result)
            };
        let b = choose|stands: Seq<Stand<E, P>>|
            {
                &&& #[trigger] course_of(mz_conf, conf, opponent, player, stands)
                &&& breaks_off(mz_conf, opponent, stands.last())
            };
        lemma_no_longer(mz_conf, conf, opponent, player, a, games, b);
        let r = b.len() - 1;
        lemma_same_stands(mz_conf, conf, opponent, player, a, b, r);
        if b.len() == a.len() {
            lemma_no_round(mz_conf, opponent, a[r], games);
        } else {
            assert(round_played(mz_conf, opponent, a[r], a[r + 1]));
            lemma_same_round(mz_conf, opponent, a[r], a[r + 1], a[r + 1]);
        }
    }
}

impl EloLadder {
    /// Runs an evaluation at a step: plays the rung that the agent stands on, and moves the
    /// agent by its score. The next evaluation is an interval later.
    ///
    /// The reading holds the rating that the score is worth against the rung. None comes
    /// back, and the agent stays, where the games could not be played to their end.
    pub fn run<E: BoardGame, P: Player<E>>(
        &mut self,
        mz_conf: MuZeroConfig,
        training_step: usize,
        player: &mut P,
    ) -> (reading: Option<EvalReading>)
        requires
            old(self).wf(),
            old(self).rungs@.len() > 0,
            training_step + old(self).conf.interval <= usize::MAX,
            old(self).conf.random_opening_plies < usize::MAX,
            mz_conf.action_space >= 1,
            mz_conf.search_algorithm is Gumbel ==> mz_conf.gumbel is Some,
            sizes_fit(
                eval_config_spec(mz_conf, old(self).conf).num_simulations as int,
                mz_conf.action_space as int,
                old(self).conf.games as int,
            ),
        ensures
            final(self).wf(),
            final(self).next_eval == training_step + old(self).conf.interval,
            final(self).rungs@ == old(self).rungs@,
            final(self).conf == old(self).conf,
            forall|t: usize| #[trigger]
                final(self).due_spec(t) <==> old(self).enabled_spec() && t >= training_step
                    + old(self).conf.interval,
            ({
                let conf = old(self).conf;
                let eval_conf = eval_config_spec(mz_conf, conf);
                let rung = old(self).rungs@[old(self).current as int];
                &&& reading matches Some(r) ==> {
                    let rating = P::rating_spec(
                        rung.elo,
                        r.result.score_spec(),
                        r.result.games_spec() as usize,
                    );
                    &&& result_of::<E, P>(
                        eval_conf,
                        conf,
                        rung.opponent,
                        *old(player),
                        r.result,
                    )
                    &&& r.result.games_spec() <= conf.games
                    &&& r.elo == rating.elo
                    &&& r.opponent@ == rung.opponent.label_spec(
                        match rung.opponent {
                            Opponent::Random => Seq::empty(),
                            Opponent::AlphaBeta { depth: _, epsilon } => P::text_spec(epsilon),
                        },
                    )
                    &&& final(self).current == promoted(
                        old(self).current as int,
                        old(self).rungs@.len() as int,
                        rating.score,
                        conf.promote_score,
                        conf.demote_score,
                    )
                }
                &&& reading is None ==> final(self).current == old(self).current && cut_short::<
                    E,
                    P,
                >(eval_conf, conf, rung.opponent, *old(player))
                &&& openings_end::<E>(conf) ==> reading is Some
                    && reading->0.result.games_spec() == 0
                &&& always_a_move::<E>(mz_conf.action_space as int) && eval_conf.num_simulations
                    >= 1 && scores_legal_actions::<P>() && old(player).answers_in_full(
                    mz_conf.action_space,
                ) ==> reading is Some
            }),
    {
        let rung: Rung = self.start_run(training_step);
        let eval_conf: MuZeroConfig = eval_config(mz_conf, &self.conf);
        match eval_games::<E, P>(&eval_conf, &self.conf, &rung.opponent, player) {
            None => None,
            Some(result) => {
                let rating: Rating = player.rate(rung.elo, result.score(), result.games());
                let text: String = match rung.opponent {
                    Opponent::Random => String::new(),
                    Opponent::AlphaBeta { depth: _, epsilon } => player.number_text(epsilon),
                };
                let reading = EvalReading {
                    elo: rating.elo,
                    result,
                    opponent: rung.opponent.label(text.as_str()),
                };
                self.promote(rating.score);
                Some(reading)
            },
        }
    }
}

/// A game in which the opponent has moved is told, and goes on for a while at most.
proof fn lemma_opponent_moved<E: BoardGame, P: Player<E>>(
    conf: EvalConfig,
    opponent: Opponent,
    i: int,
    before: Game<E>,
    after: Game<E>,
)
    requires
        told(conf, opponent, i, before),
        before.live_spec(),
        !before.agent_to_move,
        opponent_moved::<E, P>(opponent, before, after),
    ensures
        told(conf, opponent, i, after),
        after.agent_to_move,
        after.max_steps == before.max_steps,
        after.plies == before.plies + 1,
        after.live_spec() ==> after.plies < after.max_steps,
{
    let (unit, seed) = opponent_draw::<E, P>(opponent, before);
    let ready = Game { rng: Dice { seed }, ..before };
    let action = choose|action: usize|
        {
            &&& #[trigger] stepped(ready, after, action)
            &&& opponent.may_play(ready.env, unit, action as int)
            &&& opponent.plays(ready.env, unit, ready.rng.seed, action as int, after.rng.seed)
        };
    assert(stepped(before, after, action));
    lemma_told_step(conf, opponent, i, before, after, action, unit);
}

/// The best rating once one more was read.
pub open spec fn best_of(best: Single, elo: Single) -> Single {
    if best.lt_spec(elo) {
        elo
    } else {
        best
    }
}

/// The ladder while evaluations run in the background, one at a time.
#[derive(Debug)]
pub struct BackgroundLadder {
    /// The ladder, unless an evaluation has it.
    pub ladder: Option<EloLadder>,
    pub best_elo: Single,
    pub running: bool,
}

impl BackgroundLadder {
    /// Whether the ladder is away exactly while an evaluation runs.
    pub open spec fn wf(&self) -> bool {
        &&& self.running <==> self.ladder is None
        &&& self.ladder matches Some(ladder) ==> ladder.wf()
    }

    /// The ladder of a configuration, with the best rating so far and the rung to go on
    /// from.
    pub fn new(mz_conf: &MuZeroConfig, initial_best_elo: Single, initial_rung: Option<usize>) -> (b:
        BackgroundLadder)
        ensures
            b.wf(),
            !b.running,
            b.best_elo == initial_best_elo,
            b.ladder->0.current == (if initial_rung is Some && initial_rung->0
                < b.ladder->0.rungs@.len() {
                initial_rung->0
            } else {
                0
            }),
            mz_conf.eval matches Some(given) ==> b.ladder->0.conf.same(&given),
            mz_conf.eval is None ==> {
                &&& b.ladder->0.conf.interval == 500
                &&& b.ladder->0.conf.games == 100
                &&& b.ladder->0.conf.num_simulations is None
                &&& b.ladder->0.conf.random_opening_plies == 4
                &&& b.ladder->0.conf.promote_score.bits == THREE_QUARTERS_BITS
                &&& b.ladder->0.conf.demote_score.bits == QUARTER_BITS
                &&& b.ladder->0.conf.seed == 0x5EED_0E10
                &&& b.ladder->0.conf.ladder is None
            },
            b.ladder->0.next_eval == 0,
            b.ladder->0.rungs@ == (if mz_conf.eval is Some && mz_conf.eval->0.ladder is Some {
                mz_conf.eval->0.ladder->0@
            } else {
                default_ladder_spec(mz_conf.environment)
            }).map_values(|c: RungConfig| rung_spec(c)),
    {
        let mut ladder: EloLadder = EloLadder::new(mz_conf);
        match initial_rung {
            Some(rung) => {
                ladder.set_current(rung);
            },
            None => {},
        }
        BackgroundLadder { ladder: Some(ladder), best_elo: initial_best_elo, running: false }
    }

    /// Whether an evaluation is due: never while one runs.
    pub fn due(&self, training_step: usize) -> (due: bool)
        ensures
            due == (!self.running && self.ladder is Some && self.ladder->0.due_spec(training_step)),
    {
        match &self.ladder {
            Some(ladder) => !self.running && ladder.due(training_step),
            None => false,
        }
    }

    /// The rung that the agent stands on; the lowest while an evaluation runs.
    pub fn current(&self) -> (current: usize)
        ensures
            current == (match self.ladder {
                Some(ladder) => ladder.current,
                None => 0,
            }),
    {
        match &self.ladder {
            Some(ladder) => ladder.current(),
            None => 0,
        }
    }

    /// Hands the ladder out to an evaluation, unless one has it already.
    pub fn take_ladder(&mut self) -> (ladder: Option<EloLadder>)
        requires
            old(self).wf(),
        ensures
            ladder == old(self).ladder,
            final(self).wf(),
            final(self).running,
            final(self).best_elo == old(self).best_elo,
    {
        let ladder: Option<EloLadder> = self.ladder.take();
        self.running = true;
        ladder
    }

    /// Whether a rating is the best so far.
    pub fn is_best(&self, elo: Single) -> (best: bool)
        ensures
            best == self.best_elo.lt_spec(elo),
    {
        self.best_elo.less(elo)
    }

    /// Takes the ladder back from an evaluation that read a rating.
    pub fn finish(&mut self, ladder: EloLadder, elo: Single)
        requires
            ladder.wf(),
        ensures
            final(self).wf(),
            !final(self).running,
            final(self).ladder == Some(ladder),
            final(self).best_elo == (if old(self).best_elo.lt_spec(elo) {
                elo
            } else {
                old(self).best_elo
            }),
            final(self).best_elo == best_of(old(self).best_elo, elo),
    {
        if self.best_elo.less(elo) {
            self.best_elo = elo;
        }
        self.ladder = Some(ladder);
        self.running = false;
    }
}

} // verus!
