use mz_rs::config::NetworkSubConfig;
use mz_rs::config::SearchAlgorithm;
use mz_rs::extract::SearchReturn;
use mz_rs::game_buffer::{GameBuffer, game_n_step_value};
use mz_rs::metrics::{Metric, Readings, TrainingTui, metrics, print_due};
use mz_rs::networks::{
    ConvProjectionConfig, ConvShape, DynamicModelConfig, LinearShape, MlpProjectionConfig,
    PredictionModelConfig, RepresentationModelConfig, ResNetConfig, agent_plan,
};
use mz_rs::opponent::{BoardGame, StepResult};
use mz_rs::replay_buffer::{BufferData, ReplayBuffer, Returns};
use mz_rs::rng::{Dice, Rng};
use mz_rs::session::{Session, board, flags};
use mz_rs::single::{Double, Single};
use mz_rs::train::{
    advance_schedule, ready_to_train, reanalyze_due, train_batch, train_step, uses_consistency,
};
use mz_rs::utils::{QNormalization, TemperatureSchedule, lr_for_step, tau_for_step};

const UNROLL_STEPS: usize = 5;
const DISCOUNT: f32 = 0.5;

fn single(x: f32) -> Single {
    Single::from_bits(x.to_bits())
}

fn float(s: Single) -> f32 {
    f32::from_bits(s.to_bits())
}

fn floats(xs: &[Single]) -> Vec<f32> {
    xs.iter().map(|&x| float(x)).collect()
}

fn data(i: usize, last: bool) -> BufferData {
    BufferData {
        state: vec![single(i as f32); 4],
        action: i % 4,
        value: single(10.0 + i as f32),
        reward: single(1.0 + i as f32),
        policy: vec![single(0.25); 4],
        is_terminal: last,
        is_boundary: last,
        is_absorbing: false,
        created_step: 0,
        legal_mask: vec![true, false, true, i % 2 == 0],
    }
}

fn numbered_game(n: usize) -> Vec<BufferData> {
    (0..n).map(|i| data(i, i == n - 1)).collect()
}

fn create_game(n: usize) -> Vec<BufferData> {
    (0..n)
        .map(|i| BufferData {
            value: single(0.0),
            reward: single(0.0),
            state: vec![single(0.0); 4],
            action: 0,
            ..data(i, i == n - 1)
        })
        .collect()
}

struct Discounted;

impl Returns for Discounted {
    fn n_step_value(&self, terms: &Vec<(usize, Single)>) -> Single {
        single(terms.iter().map(|&(k, x)| DISCOUNT.powi(k as i32) * float(x)).sum())
    }
}

fn uniform() -> Vec<Single> {
    vec![single(0.25); 4]
}

fn sample_games(buffer: &ReplayBuffer, rng: &mut Dice) -> Vec<Vec<BufferData>> {
    buffer.sample(1, UNROLL_STEPS, false, 10, &uniform(), rng, &Discounted)
}

#[test]
fn replay_buffer_store_games() {
    let mut rng = Dice::with_seed(1);
    let mut buffer = ReplayBuffer::default();
    buffer.store_game(create_game(3), false);
    assert_eq!(sample_games(&buffer, &mut rng)[0].len(), UNROLL_STEPS);
    assert_eq!(float(sample_games(&buffer, &mut rng)[0][UNROLL_STEPS - 1].value), 0.);
    assert_eq!(float(sample_games(&buffer, &mut rng)[0][UNROLL_STEPS - 1].reward), 0.);
    buffer.store_game(create_game(100), false);
    for _ in 0..4 {
        assert_eq!(sample_games(&buffer, &mut rng)[0].len(), UNROLL_STEPS);
    }
}

#[test]
fn replay_buffer_store_1_game() {
    let mut rng = Dice::with_seed(2);
    let mut buffer = ReplayBuffer::default();
    buffer.store_game(create_game(1), false);
    for _ in 0..3 {
        assert_eq!(sample_games(&buffer, &mut rng)[0].len(), UNROLL_STEPS);
    }
    for i in 1..UNROLL_STEPS {
        let sample = sample_games(&buffer, &mut rng);
        assert_eq!(float(sample[0][i].value), 0.);
        assert_eq!(float(sample[0][i].reward), 0.);
    }
}

#[test]
fn empty_buffers_give_empty_sequences() {
    let buffer = ReplayBuffer::new(10);
    let mut rng = Dice::with_seed(3);
    let games = buffer.sample(3, UNROLL_STEPS, false, 10, &uniform(), &mut rng, &Discounted);
    assert_eq!(games.len(), 3);
    assert!(games.iter().all(|g| g.is_empty()));
    assert_eq!(rng.seed, 3);
}

#[test]
fn samples_follow_the_generator() {
    let mut buffer = ReplayBuffer::new(100);
    buffer.store_game(numbered_game(30), false);
    let mut reference = fastrand::Rng::with_seed(8);
    let mut rng = Dice::with_seed(8);
    let indices = buffer.sample_indices(5, &mut rng);
    let expected: Vec<usize> = (0..5).map(|_| reference.usize(0..30)).collect();
    assert_eq!(indices, expected);
    assert_eq!(rng.seed, reference.get_seed());
    assert!(expected.iter().any(|&i| i != 0));
}

#[test]
fn unrolls_end_in_absorbing_states() {
    let mut buffer = ReplayBuffer::new(100);
    buffer.store_game(numbered_game(3), false);
    buffer.store_game(numbered_game(2), false);
    let values: Vec<Single> = [7.0, 8.0].map(single).to_vec();
    let unrolled = buffer.sample_single(1, 4, false, &values, &uniform());
    let summary: Vec<(f32, f32, f32, bool)> = unrolled
        .iter()
        .map(|d| (float(d.state[0]), float(d.value), float(d.reward), d.is_absorbing))
        .collect();
    assert_eq!(
        summary,
        [(1.0, 7.0, 2.0, false), (2.0, 8.0, 3.0, false), (2.0, 0.0, 0.0, true), (2.0, 0.0, 0.0, true)]
    );
    let two_player = buffer.sample_single(3, 3, true, &vec![], &uniform());
    let values: Vec<f32> = two_player.iter().map(|d| float(d.value)).collect();
    assert_eq!(values, [10.0, 11.0, 0.0]);
}

#[test]
fn values_look_ahead_by_their_steps() {
    let mut buffer = ReplayBuffer::new(100);
    buffer.store_game(numbered_game(4), false);
    let terms = |idx, n| -> Vec<(usize, f32)> {
        buffer.n_step_value(idx, n).into_iter().map(|(k, x)| (k, float(x))).collect()
    };
    // Two rewards, then the value of the position after them.
    assert_eq!(terms(0, 2), [(0, 1.0), (1, 2.0), (2, 12.0)]);
    // The reward of the last move is the last term.
    assert_eq!(terms(2, 5), [(0, 3.0), (1, 4.0)]);
    // A game that is over has no value left.
    assert_eq!(terms(1, 2), [(0, 2.0), (1, 3.0)]);
    let game_terms: Vec<(usize, f32)> = game_n_step_value(&numbered_game(4), 1, 2)
        .into_iter()
        .map(|(k, x)| (k, float(x)))
        .collect();
    assert_eq!(game_terms, [(0, 2.0), (1, 3.0), (2, 13.0)]);

    // A game that was cut off goes on by its stored value.
    let mut cut = numbered_game(3);
    cut[2].is_terminal = false;
    let mut buffer = ReplayBuffer::new(100);
    buffer.store_game(cut, false);
    let terms: Vec<(usize, f32)> =
        buffer.n_step_value(1, 5).into_iter().map(|(k, x)| (k, float(x))).collect();
    assert_eq!(terms, [(0, 2.0), (1, 12.0)]);
}

#[test]
fn two_player_games_are_relabeled_by_their_outcome() {
    let mut buffer = ReplayBuffer::new(100);
    buffer.store_game(numbered_game(4), true);
    let values: Vec<f32> = buffer.states.iter().map(|d| float(d.value)).collect();
    assert_eq!(values, [-4.0, 4.0, -4.0, 4.0]);
}

#[test]
fn buffers_keep_the_newest_positions() {
    let mut buffer = ReplayBuffer::new(5);
    buffer.store_game(numbered_game(4), false);
    buffer.store_game(numbered_game(3), false);
    let states: Vec<f32> = buffer.states.iter().map(|d| float(d.state[0])).collect();
    assert_eq!(states, [2.0, 3.0, 0.0, 1.0, 2.0]);
}

#[test]
fn reanalysis_refreshes_targets() {
    let mut buffer = ReplayBuffer::new(10);
    buffer.store_game(numbered_game(4), false);
    let result = |value: f32| SearchReturn {
        distribution: vec![],
        policy_target: vec![single(value); 4],
        value: single(value),
        best_action: 0,
    };
    let (states, masks) = buffer.rows(&vec![3, 1]);
    assert_eq!(float(states[0][0]), 3.0);
    assert_eq!(masks[1], vec![true, false, true, false]);
    buffer.reanalyze(&vec![3, 1], &vec![result(0.5), result(-0.5)], false, 77);
    let summary: Vec<(f32, f32, usize)> = buffer
        .states
        .iter()
        .map(|d| (float(d.value), float(d.policy[0]), d.created_step))
        .collect();
    assert_eq!(summary, [(10.0, 0.25, 0), (-0.5, -0.5, 77), (12.0, 0.25, 0), (0.5, 0.5, 77)]);
    buffer.reanalyze(&vec![0], &vec![result(0.1)], true, 78);
    assert_eq!(float(buffer.states[0].value), 10.0);
    assert_eq!(float(buffer.states[0].policy[3]), 0.1);
}

#[test]
fn game_buffers_find_every_position() {
    let mut buffer = GameBuffer::default();
    buffer.store_game(numbered_game(3));
    buffer.store_game(numbered_game(2));
    let places: Vec<(usize, usize)> = (0..5).map(|i| buffer.locate(i)).collect();
    assert_eq!(places, [(0, 0), (0, 1), (0, 2), (1, 0), (1, 1)]);
    let mut rng = Dice::with_seed(4);
    let drawn = fastrand::Rng::with_seed(4).usize(0..5);
    assert_eq!(buffer.draw(&mut rng), places[drawn]);
    let values: Vec<Single> = [5.0, 6.0].map(single).to_vec();
    let unrolled = buffer.sample_single(0, 1, 3, &values);
    let summary: Vec<(f32, f32, f32)> = unrolled
        .iter()
        .map(|d| (float(d.state[0]), float(d.value), float(d.reward)))
        .collect();
    assert_eq!(summary, [(1.0, 5.0, 2.0), (2.0, 6.0, 3.0), (2.0, 0.0, 0.0)]);
}

fn sampled(buffer: &GameBuffer, rng: &mut Dice) -> Vec<Vec<BufferData>> {
    buffer.sample_games(1, 10, 10, rng, &Discounted)
}

#[test]
fn store_games() {
    let n_steps = 10;
    let mut rng = Dice::with_seed(1);
    let mut buffer = GameBuffer::default();
    // Game shorter than n_steps: last step always absorbing
    buffer.store_game(create_game(9));
    assert_eq!(sampled(&buffer, &mut rng)[0].len(), n_steps);
    assert_eq!(float(sampled(&buffer, &mut rng)[0][n_steps - 1].value), 0.);
    assert_eq!(float(sampled(&buffer, &mut rng)[0][n_steps - 1].reward), 0.);
    buffer.store_game(create_game(100));
    for _ in 0..4 {
        assert_eq!(sampled(&buffer, &mut rng)[0].len(), n_steps);
    }
}

#[test]
fn store_1_game() {
    let n_steps = 10;
    let mut rng = Dice::with_seed(2);
    let mut buffer = GameBuffer::default();
    buffer.store_game(create_game(1));
    for _ in 0..3 {
        assert_eq!(sampled(&buffer, &mut rng)[0].len(), n_steps);
    }
    for i in 1..n_steps {
        let sample = sampled(&buffer, &mut rng);
        assert_eq!(float(sample[0][i].value), 0.);
        assert_eq!(float(sample[0][i].reward), 0.);
    }
}

#[test]
fn game_buffers_unroll_from_drawn_positions() {
    let mut buffer = GameBuffer::default();
    buffer.store_game(numbered_game(3));
    buffer.store_game(numbered_game(2));
    let mut dice = fastrand::Rng::with_seed(8);
    let sequences = buffer.sample_games(6, 3, 1, &mut Dice::with_seed(8), &Discounted);
    assert_eq!(sequences.len(), 6);
    for sequence in sequences {
        let (game, pos) = buffer.locate(dice.usize(0..5));
        let len = buffer.games[game].len();
        let summary: Vec<(f32, f32, f32, bool)> = sequence
            .iter()
            .map(|d| (float(d.state[0]), float(d.value), float(d.reward), d.is_absorbing))
            .collect();
        let expected: Vec<(f32, f32, f32, bool)> = (0..3)
            .map(|k| {
                let i = pos + k;
                if i >= len {
                    return ((len - 1) as f32, 0.0, 0.0, true);
                }
                let after = if i + 1 < len { 10.0 + (i + 1) as f32 } else { 0.0 };
                let reward = 1.0 + i as f32;
                (i as f32, reward + DISCOUNT * after, reward, false)
            })
            .collect();
        assert_eq!(summary, expected);
    }
    let none = GameBuffer::default().sample_games(0, 3, 1, &mut Dice::with_seed(8), &Discounted);
    assert!(none.is_empty());
}

/// The learning rate of a plan.
fn lr(base: f64, warmup_steps: usize, rate: f64, decay_steps: usize, step: usize) -> f64 {
    let plan = lr_for_step(warmup_steps, decay_steps, step);
    let warmup = plan.warmup.map_or(1.0, |(done, all)| done as f64 / all as f64);
    let decay = plan.decay.map_or(1.0, |(done, all)| rate.powf(done as f64 / all as f64));
    base * warmup * decay
}

#[test]
fn warmup_ramps_then_holds() {
    assert_eq!(lr(0.2, 0, 1.0, 0, 0), 0.2);
    assert_eq!(lr(0.2, 4, 1.0, 0, 0), 0.05);
    assert_eq!(lr(0.2, 4, 1.0, 0, 3), 0.2);
    assert_eq!(lr(0.2, 4, 1.0, 0, 99), 0.2);
}

#[test]
fn decay_matches_muzero_pseudocode_formula() {
    assert_eq!(lr(0.1, 0, 0.1, 100, 0), 0.1);
    assert!((lr(0.1, 0, 0.1, 100, 100) - 0.01).abs() < 1e-9);
    assert!((lr(0.1, 0, 0.1, 100, 200) - 0.001).abs() < 1e-9);
}

#[test]
fn zero_decay_steps_disables_decay() {
    assert_eq!(lr(0.1, 0, 0.1, 0, 100_000), 0.1);
}

#[test]
fn temperatures_follow_their_schedule() {
    let schedule: Vec<TemperatureSchedule> = [(Some(10), 1.0), (Some(20), 0.5), (None, 0.25)]
        .into_iter()
        .map(|(step, tau)| TemperatureSchedule { step, tau: single(tau) })
        .collect();
    let taus: Vec<f32> =
        [0, 10, 11, 20, 21, 1000].iter().map(|&s| float(tau_for_step(&schedule, s))).collect();
    assert_eq!(taus, [1.0, 1.0, 0.5, 0.5, 0.25, 0.25]);
    assert_eq!(float(tau_for_step(&vec![], 3)), 1.0);
    assert_eq!(float(tau_for_step(&schedule[..2].to_vec(), 99)), 0.5);
    assert_eq!(advance_schedule(0, Some(10), 10), 0);
    assert_eq!(advance_schedule(0, Some(10), 11), 1);
    assert_eq!(advance_schedule(2, None, 1000), 2);
}

#[test]
fn bounds_hold_all_values() {
    let mut norm = QNormalization::default();
    assert_eq!(float(norm.normalize(single(3.0), single(0.5))), 3.0);
    for value in [2.0, -1.0, 0.5] {
        norm.update(single(value));
    }
    assert_eq!((float(norm.q_min), float(norm.q_max)), (-1.0, 2.0));
    assert_eq!(float(norm.normalize(single(0.5), single(0.25))), 0.25);
    norm.update(single(f32::NAN));
    assert_eq!((float(norm.q_min), float(norm.q_max)), (-1.0, 2.0));
    let known = QNormalization::from_known_bounds(single(-1.0), single(1.0));
    assert_eq!((float(known.q_min), float(known.q_max)), (-1.0, 1.0));
}

#[test]
fn training_needs_more_than_a_batch() {
    assert!(!ready_to_train(8, 8));
    assert!(ready_to_train(9, 8));
    assert!(uses_consistency(single(0.5), 2));
    assert!(!uses_consistency(single(0.0), 2));
    assert!(!uses_consistency(single(0.5), 1));
    assert!(reanalyze_due(single(0.1), single(0.2)));
    assert!(!reanalyze_due(single(0.2), single(0.2)));
}

#[test]
fn zero_coefficient_disables_the_term() {
    let sequence = vec![numbered_game(3), numbered_game(3)];
    let batch = train_batch(20, 8, &sequence, 3, single(0.0)).unwrap();
    assert!(batch.targets.is_empty());
    assert!(batch.steps.iter().all(|s| s.target_start.is_none()));
    let batch = train_batch(20, 8, &sequence, 3, single(2.0)).unwrap();
    assert_eq!(batch.targets.len(), 4);
    assert_eq!(
        batch.steps.iter().map(|s| s.target_start).collect::<Vec<_>>(),
        [None, Some(0), Some(2)]
    );
    // The rows of a step hold the states of that step.
    assert_eq!(float(batch.targets[2][0]), 2.0);
    assert_eq!(float(batch.observations[1][0]), 0.0);
    assert!(train_batch(8, 8, &sequence, 3, single(2.0)).is_none());
}

#[test]
fn absorbing_steps_are_masked_out() {
    let mut buffer = ReplayBuffer::new(100);
    buffer.store_game(numbered_game(2), false);
    let sequence =
        vec![buffer.sample_single(0, 4, false, &vec![single(0.0); 2], &uniform())];
    let masks: Vec<Vec<f32>> =
        (0..4).map(|s| floats(&train_step(&sequence, s, 4, true).mask)).collect();
    assert_eq!(masks, [[1.0], [1.0], [0.0], [0.0]]);
    let step = train_step(&sequence, 2, 4, true);
    assert_eq!(floats(&step.reward_mask), [1.0]);
    assert_eq!(floats(&step.target_reward), [2.0]);
    assert_eq!(step.actions, [1]);
    assert_eq!(step.scale_denominator, 3);
    let first = train_step(&sequence, 0, 4, true);
    assert_eq!(first.scale_denominator, 1);
    assert!(first.actions.is_empty() && first.target_reward.is_empty());
}

#[test]
fn runs_show_what_matters_to_them() {
    assert_eq!(
        metrics(true, SearchAlgorithm::Gumbel),
        [Metric::Elo, Metric::Loss, Metric::ConsistencyLoss, Metric::EvalOpponent]
    );
    assert_eq!(
        metrics(false, SearchAlgorithm::Puct),
        [
            Metric::BestGameReward,
            Metric::AvgGameReward,
            Metric::Tau,
            Metric::Loss,
            Metric::ConsistencyLoss
        ]
    );
    assert_eq!(Metric::ConsistencyLoss.name(), "Consistency Loss");
    assert_eq!(Metric::Elo.higher_is_better(), Some(true));
    assert_eq!(Metric::Loss.higher_is_better(), Some(false));
    assert_eq!(Metric::EvalOpponent.higher_is_better(), None);
}

#[test]
fn windows_slide() {
    let mut tui = TrainingTui::new(true, 100, 2, 1_000);
    for (reward, length) in [(1.0, 5), (3.0, 7), (2.0, 9)] {
        tui.game_finished(single(reward), length);
    }
    assert_eq!(tui.games_finished(), 3);
    assert_eq!(float(tui.best_reward), 3.0);
    let rewards: Vec<f32> = tui.recent_rewards.iter().map(|&r| float(r)).collect();
    assert_eq!(rewards, [3.0, 2.0]);
    assert_eq!(tui.recent_lengths, [7, 9]);
}

#[test]
fn rates_are_taken_over_their_window() {
    let mut tui = TrainingTui::new(true, 100, 2, 1_000);
    assert_eq!(tui.add_env_steps(10, true, 0), None);
    let rate = tui.add_env_steps(10, true, 800).unwrap();
    assert_eq!((rate.steps, rate.nanos), (10, 800));
    let rate = tui.add_env_steps(5, true, 1_500).unwrap();
    assert_eq!((rate.steps, rate.nanos), (5, 700));
    assert_eq!(tui.env_steps(), 25);
    assert_eq!(tui.add_env_steps(1, false, 1_600), None);
    assert!(tui.rate_samples.is_empty());
    assert_eq!(tui.add_train_steps(1, 10), None);
    let rate = tui.add_train_steps(4, 20).unwrap();
    assert_eq!((rate.steps, rate.nanos), (4, 10));
    assert!(!print_due(1_999_999_999, 1_000_000_000));
    assert!(print_due(2_000_000_000, 1_000_000_000));
}

#[test]
fn displays_have_three_lines() {
    let readings = Readings {
        avg_game_length: 30,
        env_rate: 200,
        train_rate: 40,
        win_pct: 60,
        draw_pct: 15,
        loss_pct: 25,
    };
    let mut tui = TrainingTui::new(true, 100, 10, 1_000);
    tui.seed_counts(1_000, 12, 500);
    tui.set_buffer_states(77);
    let lines: Vec<(String, usize)> =
        tui.render(readings).into_iter().map(|c| (c.tag, c.value)).collect();
    assert_eq!(
        lines,
        [
            (String::from("Games (avg len 30, buffer 77)"), 12),
            (String::from("Steps/s env 200 train 40 (env 1000, train 500)"), 500),
            (String::from("Win % (draw 15/loss 25)"), 60),
        ]
    );
    tui.board_game = false;
    let lines: Vec<(String, usize)> =
        tui.render(readings).into_iter().map(|c| (c.tag, c.value)).collect();
    assert_eq!(
        lines,
        [
            (String::from("Games (avg len 30, buffer 77)"), 12),
            (String::from("Env steps/s (train 40)"), 200),
            (String::from("Train steps (env 1000)"), 500),
        ]
    );
}

/// A pile of stones from which one or two are taken.
#[derive(Clone, Copy, Debug, PartialEq)]
struct Nim {
    stones: usize,
}

impl BoardGame for Nim {
    fn initial() -> Self {
        Nim { stones: 7 }
    }

    fn max_steps() -> usize {
        7
    }

    fn legal_mask(&self) -> Vec<bool> {
        vec![self.stones >= 1, self.stones >= 2]
    }

    fn heuristic(&self) -> Single {
        single(0.0)
    }

    fn step(&self, action: usize) -> (Self, StepResult) {
        let stones = self.stones - action - 1;
        let done = stones == 0;
        let reward = if done { 1.0 } else { 0.0 };
        let result =
            StepResult { reward: single(reward), score: single(reward * 100.0), done, truncated: false };
        (Nim { stones }, result)
    }
}

#[test]
fn sessions_take_back_a_round() {
    let mut session: Session<Nim> = Session::create(9999, 512);
    assert_eq!(session.simulations(), 512);
    session.set_simulations(0);
    assert_eq!(session.simulations(), 1);
    assert_eq!(session.last_move(), 255);
    assert!(!session.can_undo());
    assert!(!session.play(2));
    assert!(session.play(1));
    assert!(session.play(0));
    assert_eq!((session.env.stones, session.last_move()), (4, 0));
    session.undo();
    assert_eq!((session.env.stones, session.last_move()), (7, 255));
    assert!(session.play(0));
    session.undo();
    assert_eq!(session.env.stones, 7);
    session.undo();
    assert_eq!(session.env.stones, 7);
    assert!(session.play(0) && session.can_undo());
    session.reset();
    assert!(!session.can_undo());
    assert_eq!(session.env, Nim::initial());
}

#[test]
fn boards_are_shown_in_colours() {
    let squares = board(0b101, 0b1000);
    assert_eq!(squares.len(), 64);
    assert_eq!(squares[..5], [1, 0, 1, -1, 0]);
    assert_eq!(flags(&vec![true, false]), [1, 0]);
}

fn linear(input: usize, output: usize) -> LinearShape {
    LinearShape { input, output }
}

#[test]
fn mlp_projection_shapes() {
    let plan = MlpProjectionConfig { latent_size: 32, proj_hidden: 256, proj_out: 64, pred_hidden: 128 }
        .plan();
    assert_eq!((plan.proj1.input, plan.proj3.output), (32, 64));
    assert_eq!((plan.pred1, plan.pred2), (linear(64, 128), linear(128, 64)));
}

#[test]
fn conv_projection_shapes() {
    for (h, w, flat) in [(84, 84, 16 * 36), (8, 8, 16 * 36), (3, 3, 16 * 9)] {
        let plan = ConvProjectionConfig {
            channels: 32,
            board_height: h,
            board_width: w,
            proj_hidden: 256,
            proj_out: 64,
            pred_hidden: 128,
        }
        .plan();
        assert_eq!(plan.reduce, ConvShape { c_in: 32, c_out: 16, kernel: 1 });
        assert_eq!(plan.proj1, linear(flat, 256));
        assert_eq!((plan.proj2.output, plan.pred2.output), (64, 64));
    }
}

#[test]
fn forward_shapes() {
    let plan = ResNetConfig {
        obs_channels: 3,
        channels: 8,
        n_blocks: 2,
        board_height: 4,
        board_width: 4,
        action_space: 5,
        fc_hidden_size: 16,
    }
    .plan();
    assert_eq!(plan.stem, ConvShape { c_in: 3, c_out: 8, kernel: 3 });
    assert_eq!(plan.fuse, ConvShape { c_in: 13, c_out: 8, kernel: 3 });
    assert_eq!((plan.reward_fc1, plan.reward_fc2), (linear(16, 16), linear(16, 1)));
    assert_eq!((plan.value_fc1, plan.value_fc2), (linear(16, 16), linear(16, 1)));
    assert_eq!(plan.policy_fc, linear(32, 5));
}

#[test]
fn agents_chain_their_networks() {
    let sizes = |latent_space_dims, fc_hidden_size| NetworkSubConfig {
        latent_space_dims,
        fc_hidden_size,
        n_layers: 2,
    };
    let plan = agent_plan(&sizes(16, 32), &sizes(16, 64), &sizes(16, 128), 4);
    assert_eq!(plan.dynamic.hidden_input, 20);
    assert_eq!(plan.dynamic.hidden_output, plan.prediction.hidden_size);
    let dynamic = DynamicModelConfig { hidden_input: 20, fc_hidden_size: 64, hidden_output: 16 }.plan();
    assert_eq!((dynamic.backbone1, dynamic.hidden_head2), (linear(20, 64), linear(64, 16)));
    assert_eq!(dynamic.reward_head2, linear(64, 1));
    let prediction =
        PredictionModelConfig { fc_hidden_size: 128, hidden_size: 16, action_space: 4 }.plan();
    assert_eq!((prediction.value2, prediction.policy2), (linear(128, 1), linear(128, 4)));
    let representation =
        RepresentationModelConfig { hidden_size: 16, fc_hidden_size: 32, input_size: 4 }.plan();
    assert_eq!((representation.linear1, representation.linear3), (linear(4, 32), linear(32, 16)));
}

#[test]
fn numbers_compare_as_they_do_elsewhere() {
    let values = [
        0.0, -0.0, 1.0, -1.0, 0.5, f32::INFINITY, f32::NEG_INFINITY, f32::NAN, f32::MIN_POSITIVE,
        1e-45, -1e-45, 3.4e38, f32::from_bits(0xffc0_0001),
    ];
    for x in values {
        for y in values {
            let (a, b) = (single(x), single(y));
            assert_eq!(a.less(b), x < y);
            assert_eq!(a.at_least(b), x >= y);
            assert_eq!(a.same_value(b), x == y);
            assert_eq!(
                a.total_rank_number().cmp(&b.total_rank_number()),
                x.total_cmp(&y)
            );
            let larger = float(a.larger(b));
            assert!(larger == x.max(y) || larger.is_nan() && x.is_nan() && y.is_nan());
            let smaller = float(a.smaller(b));
            assert!(smaller == x.min(y) || smaller.is_nan() && x.is_nan() && y.is_nan());
        }
        assert_eq!(single(x).negated().to_bits(), (-x).to_bits());
        assert_eq!(single(x).is_nan(), x.is_nan());
        assert_eq!(single(x).is_in_unit_interval(), (0.0..=1.0).contains(&x));
        let wide = x as f64;
        assert_eq!(Double { bits: wide.to_bits() }.is_positive(), wide > 0.0);
    }
    assert_eq!(float(Single::infinity()), f32::INFINITY);
    assert_eq!(float(Single::neg_infinity()), f32::NEG_INFINITY);
    assert_eq!((float(Single::zero()), float(Single::one())), (0.0, 1.0));
}

#[test]
fn generators_mix_as_splitmix_does() {
    // The first outputs of splitmix64 for seed 1234567.
    let mut rng = Rng::new(1234567);
    assert_eq!(rng.next_u64(), 6457827717110365317);
    assert_eq!(rng.next_u64(), 3203168211198807973);
    assert_eq!(rng.next_u64(), 9817491932198370423);
    let mut rng = Rng::new(1234567);
    assert_eq!(rng.next_u24(), (6457827717110365317u64 >> 40) as u32);
    let mut rng = Rng::new(1234567);
    assert_eq!(rng.below(10), 7);
    let mut numbers: Vec<u32> = (0..10).collect();
    rng.shuffle(&mut numbers);
    assert_ne!(numbers, (0..10).collect::<Vec<u32>>());
    numbers.sort();
    assert_eq!(numbers, (0..10).collect::<Vec<u32>>());
    let mut none: [u32; 0] = [];
    let before = rng.state;
    rng.shuffle(&mut none);
    assert_eq!(rng.state, before);
}

#[test]
fn gumbel_is_finite_and_roughly_centred() {
    let mut rng = Rng::new(12345);
    let mut sum = 0.0f64;
    let n = 20000;
    for _ in 0..n {
        let unit = (rng.next_u24() as f32 + 0.5) / 16_777_216.0;
        let sample = -(-unit.ln()).ln();
        assert!(sample.is_finite());
        sum += sample as f64;
    }
    // The mean of the standard Gumbel distribution is Euler's constant.
    let mean = sum / n as f64;
    assert!((mean - 0.5772).abs() < 0.05, "mean {mean}");
}
