use std::collections::HashMap;

use mz_rs::config::{
    BackendChoice, EnvironmentName, EvalConfig, GumbelSubConfig, MuZeroConfig, NetworkType,
    OptimChoice, ProjectionSubConfig, RungConfig, SearchAlgorithm, default_avg_window,
    default_consistency_coef, default_eps, default_lr_decay_rate, default_lr_decay_steps,
    default_rate_window_secs, default_reanalyze_pool, default_support_size, default_unit_coef,
    default_value_coef,
};
use mz_rs::eval::{
    BackgroundLadder, EloLadder, EvalReading, EvalResult, Game, Player, Rating, Ratio, Rung,
    active_games, agent_choices, are_legal, eval_config, eval_games, game_seed, max_considered,
    opening_seed, start_game, start_games, tally,
};
use mz_rs::opponent::{BoardGame, Opponent, StepResult, alpha_beta_best, legal_actions, negamax, plain_negamax};
use mz_rs::othello;
use mz_rs::rng::{Dice, Rng};
use mz_rs::search::{ImprovedPolicy, Predictions, SearchModel, VisitShares};
use mz_rs::single::{Double, Single};
use mz_rs::tree::SearchTree;

fn single(x: f32) -> Single {
    Single::from_bits(x.to_bits())
}

fn float(s: Single) -> f32 {
    f32::from_bits(s.to_bits())
}

/// Noughts and crosses: own and opposing stones, seen from the side to move.
#[derive(Clone, Copy, Debug, PartialEq, Eq, Hash)]
struct TicTacToe {
    own: u16,
    opp: u16,
}

const LINES: [u16; 8] = [0o007, 0o070, 0o700, 0o111, 0o222, 0o444, 0o421, 0o124];

fn wins(stones: u16) -> bool {
    LINES.iter().any(|line| stones & line == *line)
}

impl BoardGame for TicTacToe {
    fn initial() -> Self {
        TicTacToe { own: 0, opp: 0 }
    }

    fn max_steps() -> usize {
        9
    }

    fn legal_mask(&self) -> Vec<bool> {
        (0..9).map(|square| (self.own | self.opp) & (1 << square) == 0).collect()
    }

    fn heuristic(&self) -> Single {
        let open = |stones: u16| LINES.iter().filter(|line| stones & **line == 0).count() as f32;
        single((open(self.opp) - open(self.own)) / 10.0)
    }

    fn step(&self, action: usize) -> (Self, StepResult) {
        let own = self.own | 1 << action;
        let won = wins(own);
        let done = won || own | self.opp == 0o777;
        let reward = if won { 1.0 } else { 0.0 };
        (
            TicTacToe { own: self.opp, opp: own },
            StepResult { reward: single(reward), score: single(reward * 100.0), done, truncated: false },
        )
    }
}

/// Othello: the discs of both sides, seen from the side to move. Action 64 passes.
#[derive(Clone, Copy, Debug, PartialEq)]
struct Othello {
    own: u64,
    opp: u64,
}

const NOT_FILE_A: u64 = 0xfefe_fefe_fefe_fefe;
const NOT_FILE_H: u64 = 0x7f7f_7f7f_7f7f_7f7f;

fn shift(board: u64, direction: usize) -> u64 {
    match direction {
        0 => board << 8,
        1 => board >> 8,
        2 => (board << 1) & NOT_FILE_A,
        3 => (board >> 1) & NOT_FILE_H,
        4 => (board << 9) & NOT_FILE_A,
        5 => (board >> 9) & NOT_FILE_H,
        6 => (board << 7) & NOT_FILE_H,
        _ => (board >> 7) & NOT_FILE_A,
    }
}

fn othello_moves(own: u64, opp: u64) -> u64 {
    let empty = !(own | opp);
    let mut moves = 0;
    for direction in 0..8 {
        let mut run = shift(own, direction) & opp;
        for _ in 0..5 {
            run |= shift(run, direction) & opp;
        }
        moves |= shift(run, direction) & empty;
    }
    moves
}

fn othello_flips(own: u64, opp: u64, square: usize) -> u64 {
    let mut flips = 0;
    for direction in 0..8 {
        let mut line = 0;
        let mut at = shift(1 << square, direction);
        while at & opp != 0 {
            line |= at;
            at = shift(at, direction);
        }
        if at & own != 0 {
            flips |= line;
        }
    }
    flips
}

impl BoardGame for Othello {
    fn initial() -> Self {
        Othello { own: 1 << 28 | 1 << 35, opp: 1 << 27 | 1 << 36 }
    }

    fn max_steps() -> usize {
        128
    }

    fn legal_mask(&self) -> Vec<bool> {
        let moves = othello_moves(self.own, self.opp);
        let mut mask: Vec<bool> = (0..64).map(|square| moves >> square & 1 == 1).collect();
        mask.push(moves == 0);
        mask
    }

    fn heuristic(&self) -> Single {
        let f = othello::features(
            self.own,
            self.opp,
            othello_moves(self.own, self.opp),
            othello_moves(self.opp, self.own),
        );
        let (own, opp) = (f.own_discs as f32, f.opp_discs as f32);
        let corners = f.corner_lead as f32 / 4.0;
        let discs = (own - opp) / (own + opp).max(1.0);
        if f.endgame {
            return single((0.8 * discs + 0.2 * corners).clamp(-0.99, 0.99));
        }
        let positional = f.weighted as f32 / 600.0;
        let (mine, theirs) = (f.own_moves as f32, f.opp_moves as f32);
        let mobility = (mine - theirs) / (mine + theirs + 1.0);
        let sum = 0.25 * positional + 0.35 * corners + 0.30 * mobility + 0.10 * discs;
        single(sum.clamp(-0.99, 0.99))
    }

    fn step(&self, action: usize) -> (Self, StepResult) {
        let flips = if action == 64 { 0 } else { othello_flips(self.own, self.opp, action) };
        let placed = if action == 64 { 0 } else { 1u64 << action };
        let own = self.own | flips | placed;
        let opp = self.opp & !flips;
        let done = othello_moves(own, opp) == 0 && othello_moves(opp, own) == 0;
        let lead = own.count_ones() as i32 - opp.count_ones() as i32;
        let reward = if done { lead.signum() as f32 } else { 0.0 };
        (
            Othello { own: opp, opp: own },
            StepResult { reward: single(reward), score: single(reward * 100.0), done, truncated: false },
        )
    }
}

fn unit(rng: &mut Dice) -> Single {
    let mut drawn = fastrand::Rng::with_seed(rng.seed);
    let x = drawn.f32();
    rng.seed = drawn.get_seed();
    single(x)
}

struct Tally {
    wins: usize,
    draws: usize,
    losses: usize,
}

impl Tally {
    fn games(&self) -> usize {
        self.wins + self.draws + self.losses
    }

    fn win_rate(&self) -> f32 {
        self.wins as f32 / self.games() as f32
    }

    fn score(&self) -> f32 {
        (self.wins as f32 + 0.5 * self.draws as f32) / self.games() as f32
    }
}

/// Plays `games` games, alternating who moves first. Result is from `first`'s view.
fn duel<E: BoardGame>(first: &Opponent, second: &Opponent, games: usize, seed: u64) -> Tally {
    let mut tally = Tally { wins: 0, draws: 0, losses: 0 };
    for game in 0..games {
        let mut rng = Dice::with_seed(seed ^ game as u64);
        let mut env = E::initial();
        // Half the games start with the other side, so neither gets a colour edge.
        let mut first_to_move = game % 2 == 0;
        let mut plies = 0;
        loop {
            let player = if first_to_move { first } else { second };
            let drawn = if player.needs_unit() { unit(&mut rng) } else { single(0.0) };
            let action = player.choose_move(&env, drawn, &mut rng).unwrap();
            let (next, result) = env.step(action);
            env = next;
            plies += 1;
            if result.done || result.truncated {
                let reward = float(result.reward);
                let value = if first_to_move { reward } else { -reward };
                if value > 0.0 {
                    tally.wins += 1;
                } else if value < 0.0 {
                    tally.losses += 1;
                } else {
                    tally.draws += 1;
                }
                break;
            }
            assert!(plies < E::max_steps(), "game did not terminate");
            first_to_move = !first_to_move;
        }
    }
    tally
}

fn alpha_beta(depth: usize) -> Opponent {
    Opponent::AlphaBeta { depth, epsilon: single(0.0) }
}

#[test]
fn othello_alpha_beta_crushes_random() {
    let tally = duel::<Othello>(&alpha_beta(3), &Opponent::Random, 200, 3);
    assert!(
        tally.win_rate() >= 0.99,
        "win rate {:.3} (W{} D{} L{})",
        tally.win_rate(),
        tally.wins,
        tally.draws,
        tally.losses
    );
}

#[test]
fn tictactoe_perfect_alpha_beta_never_loses_to_random() {
    let tally = duel::<TicTacToe>(&alpha_beta(9), &Opponent::Random, 200, 5);
    assert_eq!(tally.losses, 0, "perfect play lost a game");
    assert!(
        tally.score() >= 0.95,
        "score {:.3} (W{} D{} L{})",
        tally.score(),
        tally.wins,
        tally.draws,
        tally.losses
    );
}

#[test]
fn deeper_othello_search_beats_shallower() {
    let tally = duel::<Othello>(&alpha_beta(3), &alpha_beta(1), 40, 7);
    assert!(
        tally.score() > 0.65,
        "score {:.3} (W{} D{} L{})",
        tally.score(),
        tally.wins,
        tally.draws,
        tally.losses
    );
}

#[test]
fn tictactoe_pruning_agrees_with_plain_negamax() {
    let ab = alpha_beta(9);
    let mut rng = Dice::with_seed(13);
    let mut walk = fastrand::Rng::with_seed(13);
    let mut values: HashMap<TicTacToe, f32> = HashMap::new();

    for _ in 0..200 {
        let mut env = TicTacToe::initial();
        // Walk into a random position, checking the pruned root pick is optimal.
        loop {
            let legal = legal_actions(&env.legal_mask());
            if legal.is_empty() {
                break;
            }
            let mut value_after = |action: usize| {
                let (child, result) = env.step(action);
                if result.done || result.truncated {
                    float(result.reward) * 100.0
                } else {
                    *values.entry(child).or_insert_with(|| -float(plain_negamax(&child, 8)))
                }
            };
            let reference = legal
                .iter()
                .map(|&action| value_after(action))
                .fold(f32::NEG_INFINITY, f32::max);

            let chosen = ab.choose_move(&env, single(0.0), &mut rng).unwrap();
            let chosen_value = value_after(chosen);
            assert!(
                (chosen_value - reference).abs() < 1e-4,
                "alpha-beta picked {chosen_value}, optimum is {reference}\n{env:?}"
            );

            let (next, result) = env.step(legal[walk.usize(..legal.len())]);
            env = next;
            if result.done {
                break;
            }
        }
    }
}

#[test]
fn seeded_opponents_repeat_themselves() {
    let ab = alpha_beta(2);
    let env = TicTacToe::initial();
    let play = |seed: u64| ab.choose_seeded(&env, single(0.0), &mut Rng::new(seed)).unwrap();
    for seed in 0..5 {
        assert_eq!(play(seed), play(seed));
    }
    let order: Vec<usize> = (0..9).collect();
    assert!(alpha_beta_best(&env, 1, &order) < 9);
}

#[test]
fn random_opponents_draw_as_fastrand_does() {
    let env = TicTacToe::initial();
    for seed in 0..20 {
        let mut reference = fastrand::Rng::with_seed(seed);
        let mut rng = Dice::with_seed(seed);
        let action = Opponent::Random.choose_move(&env, single(0.5), &mut rng).unwrap();
        assert_eq!(action, reference.usize(..9));
        assert_eq!(rng.seed, reference.get_seed());
    }
}

#[test]
fn searching_opponents_shuffle_as_fastrand_does() {
    let env = TicTacToe::initial();
    let mut orders = 0;
    for seed in 0..20 {
        let mut reference = fastrand::Rng::with_seed(seed);
        let mut order: Vec<usize> = (0..9).collect();
        reference.shuffle(&mut order);
        if order[0] != 0 {
            orders += 1;
        }
        let mut rng = Dice::with_seed(seed);
        let action = alpha_beta(1).choose_move(&env, single(0.5), &mut rng).unwrap();
        assert_eq!(action, alpha_beta_best(&env, 1, &order));
        assert_eq!(rng.seed, reference.get_seed());
    }
    assert!(orders > 0);
}

#[test]
fn noisy_opponents_play_any_move_now_and_then() {
    let noisy = Opponent::AlphaBeta { depth: 1, epsilon: single(0.05) };
    assert!(noisy.needs_unit());
    assert!(!alpha_beta(1).needs_unit());
    assert!(!Opponent::Random.needs_unit());
    let env = TicTacToe::initial();
    let mut reference = fastrand::Rng::with_seed(4);
    let mut rng = Dice::with_seed(4);
    let noise = noisy.choose_move(&env, single(0.049), &mut rng).unwrap();
    assert_eq!(noise, reference.usize(..9));
    let mut rng = Dice::with_seed(4);
    // The centre keeps the most lines open.
    assert_eq!(noisy.choose_move(&env, single(0.05), &mut rng), Some(4));
}

#[test]
fn opponents_have_no_move_on_a_full_board() {
    let env = TicTacToe { own: 0o777, opp: 0 };
    let mut rng = Dice::with_seed(1);
    assert_eq!(Opponent::Random.choose_move(&env, single(0.0), &mut rng), None);
    assert_eq!(alpha_beta(2).choose_move(&env, single(0.0), &mut rng), None);
    assert_eq!(rng.seed, 1);
}

#[test]
fn opponents_come_by_depth() {
    assert_eq!(Opponent::from_depth(0), Opponent::Random);
    for (depth, epsilon) in [(1, 0.05), (2, 0.02), (3, 0.02), (4, 0.0), (9, 0.0)] {
        assert_eq!(
            Opponent::from_depth(depth),
            Opponent::AlphaBeta { depth: depth as usize, epsilon: single(epsilon) }
        );
    }
}

#[test]
fn opponents_have_labels() {
    assert_eq!(Opponent::Random.label(""), "Random");
    assert_eq!(alpha_beta(3).label("0"), "AlphaBeta(d=3)");
    let noisy = Opponent::AlphaBeta { depth: 12, epsilon: single(0.05) };
    assert_eq!(noisy.label("0.05"), "AlphaBeta(d=12, e=0.05)");
}

#[test]
fn othello_evaluation_sees_corners_traps_and_discs() {
    let start = Othello::initial();
    let f = othello::features(start.own, start.opp, 0b111, 0b1);
    assert_eq!((f.own_discs, f.opp_discs, f.own_moves, f.opp_moves), (2, 2, 3, 1));
    assert_eq!((f.corner_lead, f.weighted, f.endgame), (0, 0, false));
    // A corner against the trap next to another.
    let f = othello::features(1, 1 << 6, 0, 0);
    assert_eq!((f.corner_lead, f.weighted), (1, 120 + 20));
    // Twelve squares are empty.
    let f = othello::features((1 << 52) - 1, 0, 0, 0);
    assert!(f.endgame);
    let f = othello::features((1 << 51) - 1, 0, 0, 0);
    assert!(!f.endgame);
    let weights = othello::square_weights();
    assert_eq!((weights[0], weights[9], weights[27], weights[63]), (120, -40, 3, 120));
}

/// An agent that likes the first or the last action best.
struct Fixed {
    actions: usize,
    last: bool,
    /// Gives no numbers for scores.
    lost: bool,
    /// Leaves one entry out of the answers.
    short: bool,
}

impl Fixed {
    fn new(actions: usize, last: bool) -> Fixed {
        Fixed { actions, last, lost: false, short: false }
    }

    fn liking(&self) -> Vec<Single> {
        (0..self.actions)
            .map(|a| {
                let place = a as f32;
                single(if self.lost {
                    f32::NAN
                } else if self.last {
                    place
                } else {
                    -place
                })
            })
            .collect()
    }

    fn predictions(&self, count: usize) -> Predictions {
        let count = count - self.short as usize;
        let row = vec![single(1.0 / self.actions as f32); self.actions];
        Predictions {
            rewards: vec![single(0.0); count],
            values: vec![single(0.0); count],
            priors: vec![row.clone(); count],
            logits: vec![row; count],
        }
    }
}

impl SearchModel for Fixed {
    fn score(&mut self, _i: usize, _tree: &SearchTree, _node: usize) -> Vec<Single> {
        self.liking()
    }

    fn recurrent_inference(&mut self, rows: &Vec<i64>, _actions: &Vec<i64>) -> Predictions {
        self.predictions(rows.len())
    }

    fn back_up(&mut self, _i: usize, tree: &SearchTree, _r: Single, _v: Single) -> Vec<Single> {
        vec![single(0.0); tree.path.len()]
    }

    fn visit_shares(&mut self, _i: usize, _tree: &SearchTree) -> VisitShares {
        let shares = vec![single(0.0); self.actions];
        VisitShares { mean: single(0.0), powers: shares.clone(), shares, power_sum: single(1.0) }
    }

    fn improved_policy(&mut self, _i: usize, _tree: &SearchTree) -> ImprovedPolicy {
        let policy = vec![single(0.0); self.actions];
        ImprovedPolicy { mixed_value: single(0.0), policy, scores: self.liking() }
    }
}

impl<E: BoardGame> Player<E> for Fixed {
    fn unit(&self, rng: &mut Dice) -> Single {
        unit(rng)
    }

    fn roots(&mut self, _games: &Vec<Game<E>>, active: &Vec<usize>) -> Predictions {
        self.predictions(active.len())
    }

    fn rate(&self, anchor: Single, score: Ratio, games: usize) -> Rating {
        let score = score.numerator as f32 / score.denominator as f32;
        Rating { score: single(score), elo: single(elo_from_score(float(anchor), score, games)) }
    }

    fn number_text(&self, number: Single) -> String {
        format!("{}", float(number))
    }
}

fn elo_from_score(anchor: f32, score: f32, games: usize) -> f32 {
    let eps = 1.0 / (2.0 * games.max(1) as f32);
    let score = score.clamp(eps, 1.0 - eps);
    anchor + 400.0 * (score / (1.0 - score)).log10()
}

fn double(x: f64) -> Double {
    Double { bits: x.to_bits() }
}

fn base_config() -> MuZeroConfig {
    MuZeroConfig {
        network_type: NetworkType::Linear,
        environment: EnvironmentName::TicTacToe,
        atari_game: None,
        linear: None,
        resnet: None,
        optimizer: OptimChoice::AdamW,
        n_steps: 10,
        unroll_steps: 5,
        training_batch_size: 64,
        game_batch_size: 16,
        discount: single(0.997),
        learning_rate: double(1e-3),
        grad_clip: single(1.0),
        weight_decay: single(1e-4),
        momentum: single(0.9),
        eps: default_eps(),
        num_simulations: 50,
        support_size: default_support_size(),
        value_coef: default_value_coef(),
        policy_coef: default_unit_coef(),
        reward_coef: default_unit_coef(),
        consistency_coef: default_consistency_coef(),
        projection: ProjectionSubConfig { proj_hidden: 256, proj_out: 256, pred_hidden: 64 },
        augmentation: false,
        lr_warmup_steps: 0,
        lr_decay_rate: default_lr_decay_rate(),
        lr_decay_steps: default_lr_decay_steps(),
        search_algorithm: SearchAlgorithm::Gumbel,
        puct: None,
        gumbel: Some(GumbelSubConfig {
            max_num_considered_actions: 16,
            c_visit: single(50.0),
            c_scale: single(0.1),
        }),
        eval: None,
        training_steps: 1000,
        train_ratio: single(1.0),
        buffer_size: 10_000,
        avg_window: default_avg_window(),
        rate_window_secs: default_rate_window_secs(),
        inference_update_interval: 10,
        checkpoint_interval: 100,
        reanalyze_fraction: single(0.0),
        reanalyze_batch_size: default_reanalyze_pool(),
        rayon_min_chunk_len: 8,
        async_training: false,
        load_from_checkpoint: false,
        training_backend: BackendChoice::Auto,
        inference_backend: BackendChoice::Auto,
        eval_backend: BackendChoice::Auto,
        checkpoint_name: String::from("run"),
        action_space: 9,
        obs_dim: 27,
        is_twoplayer: true,
        board_height: 3,
        board_width: 3,
        obs_channels: 3,
    }
}

fn config(environment: EnvironmentName, ladder: Vec<RungConfig>) -> MuZeroConfig {
    MuZeroConfig {
        environment,
        is_twoplayer: true,
        search_algorithm: SearchAlgorithm::Gumbel,
        gumbel: Some(GumbelSubConfig {
            max_num_considered_actions: 8,
            c_visit: single(50.0),
            c_scale: single(0.1),
        }),
        num_simulations: 4,
        rayon_min_chunk_len: 8,
        eval: Some(EvalConfig {
            interval: 100,
            games: 20,
            random_opening_plies: 2,
            ladder: Some(ladder),
            ..Default::default()
        }),
        ..base_config()
    }
}

fn run<E: BoardGame>(mz_conf: MuZeroConfig, agent: &mut Fixed) -> EvalReading {
    let mut ladder = EloLadder::new(&mz_conf);
    assert!(ladder.due(0), "ladder should evaluate on the first step");
    ladder.run::<E, Fixed>(mz_conf, 0, agent).expect("the agent plays legal moves")
}

fn share(result: &EvalResult) -> f32 {
    let score = result.score();
    score.numerator as f32 / score.denominator as f32
}

#[test]
fn tictactoe_eval_tallies_every_game() {
    let mz_conf = config(EnvironmentName::TicTacToe, vec![RungConfig::Random { elo: single(0.0) }]);
    let reading = run::<TicTacToe>(mz_conf, &mut Fixed::new(9, false));

    assert_eq!(reading.result.games(), 20);
    assert_eq!(reading.opponent, "Random");
    assert!(float(reading.elo).is_finite());
}

#[test]
fn othello_eval_tallies_every_game() {
    let mz_conf = config(
        EnvironmentName::Othello,
        vec![RungConfig::AlphaBeta { depth: 1, epsilon: single(0.0), elo: single(500.0) }],
    );
    let mz_conf = MuZeroConfig { action_space: 65, ..mz_conf };
    let reading = run::<Othello>(mz_conf, &mut Fixed::new(65, true));

    assert_eq!(reading.result.games(), 20);
    assert_eq!(reading.opponent, "AlphaBeta(d=1)");
    // An agent without a plan should not be beating a heuristic opponent.
    assert!(share(&reading.result) < 0.5, "score {}", share(&reading.result));
    assert!(float(reading.elo) < 500.0);
}

#[test]
fn eval_only_runs_on_the_interval() {
    let mz_conf = config(EnvironmentName::TicTacToe, vec![RungConfig::Random { elo: single(0.0) }]);
    let mut ladder = EloLadder::new(&mz_conf);
    ladder.run::<TicTacToe, Fixed>(mz_conf, 0, &mut Fixed::new(9, false)).unwrap();
    assert!(!ladder.due(99));
    assert!(ladder.due(100));
}

#[test]
fn single_player_environments_have_no_ladder() {
    let mz_conf = MuZeroConfig {
        environment: EnvironmentName::CartPole,
        is_twoplayer: false,
        ..base_config()
    };
    assert!(!EloLadder::new(&mz_conf).enabled());
}

fn test_ladder() -> EloLadder {
    EloLadder {
        rungs: (0..3)
            .map(|i| Rung { opponent: Opponent::Random, elo: single(i as f32 * 100.0) })
            .collect(),
        current: 0,
        next_eval: 0,
        conf: EvalConfig::default(),
    }
}

#[test]
fn ladder_promotes_and_demotes_within_bounds() {
    let mut ladder = test_ladder();
    for _ in 0..5 {
        ladder.promote(single(1.0));
    }
    assert_eq!(ladder.current, 2);

    for _ in 0..5 {
        ladder.promote(single(0.0));
    }
    assert_eq!(ladder.current, 0);
}

#[test]
fn ladder_holds_between_thresholds() {
    let mut ladder = test_ladder();
    ladder.promote(single(1.0));
    ladder.promote(single(0.5));
    assert_eq!(ladder.current, 1);
}

#[test]
fn score_counts_draws_as_half() {
    let result = EvalResult { wins: 10, draws: 10, losses: 20 };
    assert_eq!(result.games(), 40);
    assert_eq!(share(&result), 0.375);
    assert_eq!(share(&EvalResult::default()), 0.5);
}

#[test]
fn built_in_settings_reach_the_background() {
    let background = BackgroundLadder::new(&base_config(), single(0.0), None);
    let conf = &background.ladder.as_ref().unwrap().conf;
    assert_eq!((conf.interval, conf.games, conf.random_opening_plies), (500, 100, 4));
    assert_eq!((float(conf.promote_score), float(conf.demote_score)), (0.75, 0.25));
}

#[test]
fn bounds_only_bound_the_search() {
    let mut env = TicTacToe::initial();
    for action in [4, 0, 1] {
        env = env.step(action).0;
        for depth in [1, 3, 6] {
            let plain = float(plain_negamax(&env, depth));
            let all = negamax(&env, depth, single(f32::NEG_INFINITY), single(f32::INFINITY));
            assert_eq!(float(all), plain);
            for (alpha, beta) in [(-0.5f32, 0.5f32), (0.1, 0.2), (-200.0, -150.0), (150.0, 200.0)] {
                let found = float(negamax(&env, depth, single(alpha), single(beta)));
                if found <= alpha {
                    assert!(plain <= found);
                } else if found >= beta {
                    assert!(plain >= found);
                } else {
                    assert_eq!(found, plain);
                }
            }
        }
    }
}

#[test]
fn different_seeds_draw_different_numbers() {
    let drawn: std::collections::HashSet<u64> = (0..2000).map(|s| Rng::new(s).next_u64()).collect();
    assert_eq!(drawn.len(), 2000);
}

#[test]
fn readings_hold_the_rating_of_their_score() {
    let mz_conf = config(
        EnvironmentName::TicTacToe,
        vec![RungConfig::AlphaBeta { depth: 1, epsilon: single(0.2), elo: single(300.0) }],
    );
    let reading = run::<TicTacToe>(mz_conf, &mut Fixed::new(9, false));
    let games = reading.result.games();
    let expected = elo_from_score(300.0, share(&reading.result), games);
    assert_eq!(float(reading.elo), expected);
    assert_eq!(reading.opponent, "AlphaBeta(d=1, e=0.2)");
}

#[test]
fn agents_move_between_rungs_by_their_score() {
    let rungs = vec![
        RungConfig::Random { elo: single(0.0) },
        RungConfig::AlphaBeta { depth: 9, epsilon: single(0.0), elo: single(900.0) },
    ];
    let mz_conf = config(EnvironmentName::TicTacToe, rungs);
    let mut ladder = EloLadder::new(&mz_conf);
    ladder.set_current(1);
    let reading = ladder.run::<TicTacToe, Fixed>(mz_conf, 0, &mut Fixed::new(9, false)).unwrap();
    assert!(share(&reading.result) <= 0.25, "score {}", share(&reading.result));
    assert_eq!(ladder.current(), 0);
}

#[test]
fn games_are_left_out_where_their_opening_ended_them() {
    let conf = EvalConfig { games: 40, random_opening_plies: 9, seed: 3, ..Default::default() };
    let games: Vec<Game<TicTacToe>> = start_games(&conf);
    let ended = games.iter().filter(|game| !game.live()).count();
    assert!(ended > 0 && ended < 40);
    let mz_conf = config(EnvironmentName::TicTacToe, vec![]);
    let mut agent = Fixed::new(9, false);
    let result =
        eval_games::<TicTacToe, Fixed>(&mz_conf, &conf, &Opponent::Random, &mut agent).unwrap();
    assert_eq!(result.games(), 40 - ended);
}

#[test]
fn evaluations_can_be_repeated() {
    let conf = EvalConfig { games: 8, random_opening_plies: 2, ..Default::default() };
    let mz_conf = config(EnvironmentName::TicTacToe, vec![]);
    let opponent = Opponent::AlphaBeta { depth: 2, epsilon: single(0.3) };
    let play = || {
        let mut agent = Fixed::new(9, true);
        eval_games::<TicTacToe, Fixed>(&mz_conf, &conf, &opponent, &mut agent).unwrap()
    };
    assert_eq!(play(), play());
}

#[test]
fn agents_play_what_their_search_finds_best() {
    let conf = EvalConfig { games: 2, random_opening_plies: 0, ..Default::default() };
    let games: Vec<Game<TicTacToe>> = start_games(&conf);
    let mz_conf = config(EnvironmentName::TicTacToe, vec![]);
    let mut last = Fixed::new(9, true);
    assert_eq!(agent_choices(&mz_conf, &games, &vec![0], &mut last), Some(vec![8]));
    let mut first = Fixed::new(9, false);
    assert_eq!(agent_choices(&mz_conf, &games, &vec![0], &mut first), Some(vec![0]));
    assert_eq!(max_considered(&mz_conf), 8);
}

#[test]
fn games_come_in_pairs_with_one_opening() {
    let conf = EvalConfig { games: 12, random_opening_plies: 5, seed: 77, ..Default::default() };
    let games: Vec<Game<TicTacToe>> = start_games(&conf);
    assert_eq!(games.len(), 12);
    let mut openings = 0;
    for k in 0..6 {
        let (even, odd) = (&games[2 * k], &games[2 * k + 1]);
        assert_eq!(even.env, odd.env);
        assert_eq!(even.plies, odd.plies);
        assert_ne!(even.agent_to_move, odd.agent_to_move);
        assert_eq!(even.agent_to_move, even.plies % 2 == 0);
        assert_eq!(even.rng.seed, 77 ^ 0x9E37_79B9 ^ (2 * k as u64));
        if even.plies > 0 {
            openings += 1;
        }
    }
    assert!(openings > 0);
    assert_eq!(opening_seed(77, 3), 77 ^ 1);
    assert_eq!(game_seed(77, 3), 77 ^ 0x9E37_79B9 ^ 3);
}

#[test]
fn openings_follow_the_generator() {
    let conf = EvalConfig { games: 1, random_opening_plies: 6, seed: 5, ..Default::default() };
    for i in 0..10 {
        let game = start_game(TicTacToe::initial(), i, &conf);
        let mut rng = fastrand::Rng::with_seed(opening_seed(5, i));
        let mut env = TicTacToe::initial();
        let opening = rng.usize(0..=6);
        let mut finished = false;
        for _ in 0..opening {
            let legal = legal_actions(&env.legal_mask());
            let (next, result) = env.step(legal[rng.usize(..legal.len())]);
            env = next;
            if result.done {
                finished = true;
                break;
            }
        }
        assert_eq!(game.env, env);
        assert_eq!(game.outcome.is_some(), finished);
        if finished {
            assert!(float(game.outcome.unwrap()).is_nan());
        }
    }
}

fn finished(outcome: f32) -> Game<TicTacToe> {
    Game {
        env: TicTacToe::initial(),
        agent_to_move: true,
        plies: 0,
        outcome: Some(single(outcome)),
        max_steps: 9,
        rng: Dice::with_seed(0),
    }
}

#[test]
fn tallies_leave_out_what_is_no_number() {
    let games =
        vec![finished(1.0), finished(-1.0), finished(0.0), finished(-0.0), finished(f32::NAN), finished(0.25)];
    assert_eq!(tally(&games), EvalResult { wins: 2, draws: 2, losses: 1 });
}

#[test]
fn games_are_recorded_as_the_agent_sees_them() {
    let mut game = Game { outcome: None, ..finished(0.0) };
    assert!(game.live());
    for action in [0, 3, 1, 4] {
        game.step(action);
        assert!(game.live());
    }
    let mut lost = Game { agent_to_move: false, ..game };
    game = Game { env: lost.env, agent_to_move: true, outcome: None, ..finished(0.0) };
    game.step(2);
    assert_eq!(float(game.outcome.unwrap()), 1.0);
    lost.step(2);
    assert_eq!(float(lost.outcome.unwrap()), -1.0);
    assert!(lost.agent_to_move);
}

#[test]
fn long_games_are_drawn() {
    let mut game = Game { outcome: None, max_steps: 2, ..finished(0.0) };
    game.step(0);
    assert!(game.live());
    game.step(1);
    assert_eq!(float(game.outcome.unwrap()), 0.0);
}

#[test]
fn agents_without_a_legal_move_end_an_evaluation() {
    let conf = EvalConfig { games: 4, random_opening_plies: 0, ..Default::default() };
    let mz_conf = config(EnvironmentName::TicTacToe, vec![]);
    // Without numbers for scores the first action is taken, again and again.
    let lost = Fixed { lost: true, ..Fixed::new(9, false) };
    let short = Fixed { short: true, ..Fixed::new(9, false) };
    // Masks for nine actions do not fit a model of ten.
    let wide = MuZeroConfig { action_space: 10, ..config(EnvironmentName::TicTacToe, vec![]) };
    let random = Opponent::Random;
    for (mz_conf, mut agent) in
        [(&mz_conf, lost), (&mz_conf, short), (&wide, Fixed::new(10, false))]
    {
        assert!(eval_games::<TicTacToe, Fixed>(mz_conf, &conf, &random, &mut agent).is_none());
        let none = EvalConfig { games: 0, random_opening_plies: 0, ..Default::default() };
        assert_eq!(
            eval_games::<TicTacToe, Fixed>(mz_conf, &none, &random, &mut agent),
            Some(EvalResult::default())
        );
    }
    let games: Vec<Game<TicTacToe>> = start_games(&conf);
    assert_eq!(active_games(&games), vec![0, 2]);
    assert!(are_legal(&games, &vec![0, 2], &vec![4, 8]));
    assert!(!are_legal(&games, &vec![0, 2], &vec![4]));
    assert!(!are_legal(&games, &vec![0, 2], &vec![4, 9]));
}

#[test]
fn evaluations_search_without_noise() {
    let mz_conf = config(EnvironmentName::TicTacToe, vec![]);
    let conf = EvalConfig { num_simulations: Some(99), ..Default::default() };
    let eval = eval_config(mz_conf, &conf);
    assert_eq!(eval.num_simulations, 99);
    assert!(eval.puct.is_none());
}

#[test]
fn background_evaluations_run_one_at_a_time() {
    let mz_conf = config(
        EnvironmentName::TicTacToe,
        vec![RungConfig::Random { elo: single(0.0) }, RungConfig::Random { elo: single(100.0) }],
    );
    let mut background = BackgroundLadder::new(&mz_conf, single(50.0), Some(1));
    assert_eq!(background.current(), 1);
    assert!(background.due(0));
    let conf = &background.ladder.as_ref().unwrap().conf;
    assert_eq!((conf.interval, conf.games, conf.random_opening_plies), (100, 20, 2));
    let ladder = background.take_ladder().unwrap();
    assert!(!background.due(0));
    assert_eq!(background.current(), 0);
    assert!(background.is_best(single(60.0)) && !background.is_best(single(50.0)));
    background.finish(ladder, single(60.0));
    assert!(!background.is_best(single(60.0)));
    assert_eq!(background.current(), 1);
    let unknown = BackgroundLadder::new(&mz_conf, single(50.0), Some(2));
    assert_eq!(unknown.current(), 0);
}
