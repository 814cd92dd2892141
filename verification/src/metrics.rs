//! What is counted and shown while a run trains.
use std::collections::VecDeque;
use vstd::prelude::*;
use vstd::string::*;
use crate::config::SearchAlgorithm;
use crate::single::Single;
use crate::text::{decimal, decimal_spec};

verus! {

/// A metric that is plotted.
#[derive(Clone, Copy, Debug, PartialEq, Eq, Structural)]
pub enum Metric {
    BestGameReward,
    AvgGameReward,
    Elo,
    Tau,
    Loss,
    ConsistencyLoss,
    EvalOpponent,
}

impl Metric {
    /// The name of the metric.
    pub open spec fn name_spec(self) -> Seq<char> {
        match self {
            Metric::BestGameReward => "Best Game Reward"@,
            Metric::AvgGameReward => "Avg Game Reward"@,
            Metric::Elo => "Elo"@,
            Metric::Tau => "Tau"@,
            Metric::Loss => "Loss"@,
            Metric::ConsistencyLoss => "Consistency Loss"@,
            Metric::EvalOpponent => "Eval Opponent"@,
        }
    }

    /// The name of the metric.
    pub fn name(&self) -> (name: &'static str)
        ensures
            name@ == self.name_spec(),
    {
        match self {
            Metric::BestGameReward => "Best Game Reward",
            Metric::AvgGameReward => "Avg Game Reward",
            Metric::Elo => "Elo",
            Metric::Tau => "Tau",
            Metric::Loss => "Loss",
            Metric::ConsistencyLoss => "Consistency Loss",
            Metric::EvalOpponent => "Eval Opponent",
        }
    }

    /// For a metric with numbers, whether higher is better.
    pub fn higher_is_better(&self) -> (better: Option<bool>)
        ensures
            better == (match *self {
                Metric::Loss | Metric::ConsistencyLoss => Some(false),
                Metric::EvalOpponent => None,
                _ => Some(true),
            }),
    {
        match self {
            Metric::Loss => Some(false),
            Metric::ConsistencyLoss => Some(false),
            Metric::EvalOpponent => None,
            Metric::BestGameReward => Some(true),
            Metric::AvgGameReward => Some(true),
            Metric::Elo => Some(true),
            Metric::Tau => Some(true),
        }
    }
}

/// Whether a metric is shown. Board games are rated by their opponents, other games by
/// their rewards; the temperature means something only where visits are sampled.
pub open spec fn shown(metric: Metric, board_game: bool, algorithm: SearchAlgorithm) -> bool {
    match metric {
        Metric::BestGameReward | Metric::AvgGameReward => !board_game,
        Metric::Elo | Metric::EvalOpponent => board_game,
        Metric::Tau => algorithm is Puct,
        Metric::Loss | Metric::ConsistencyLoss => true,
    }
}

/// The metrics of a run, in the order in which they are shown.
pub open spec fn metrics_spec(board_game: bool, algorithm: SearchAlgorithm) -> Seq<Metric> {
    let all = seq![
        Metric::BestGameReward,
        Metric::AvgGameReward,
        Metric::Elo,
        Metric::Tau,
        Metric::Loss,
        Metric::ConsistencyLoss,
        Metric::EvalOpponent,
    ];
    all.filter(|m: Metric| shown(m, board_game, algorithm))
}

/// The metrics of a run, in the order in which they are shown.
pub fn metrics(board_game: bool, algorithm: SearchAlgorithm) -> (list: Vec<Metric>)
    ensures
        list@ == metrics_spec(board_game, algorithm),
{
    let mut list: Vec<Metric> = Vec::new();
    if !board_game {
        list.push(Metric::BestGameReward);
        list.push(Metric::AvgGameReward);
    }
    if board_game {
        list.push(Metric::Elo);
    }
    if algorithm == SearchAlgorithm::Puct {
        list.push(Metric::Tau);
    }
    list.push(Metric::Loss);
    list.push(Metric::ConsistencyLoss);
    if board_game {
        list.push(Metric::EvalOpponent);
    }
    proof {
        let keep = |m: Metric| shown(m, board_game, algorithm);
        let s0 = Seq::<Metric>::empty();
        let s1 = s0.push(Metric::BestGameReward);
        let s2 = s1.push(Metric::AvgGameReward);
        let s3 = s2.push(Metric::Elo);
        let s4 = s3.push(Metric::Tau);
        let s5 = s4.push(Metric::Loss);
        let s6 = s5.push(Metric::ConsistencyLoss);
        let s7 = s6.push(Metric::EvalOpponent);
        assert(s7 =~= seq![
            Metric::BestGameReward,
            Metric::AvgGameReward,
            Metric::Elo,
            Metric::Tau,
            Metric::Loss,
            Metric::ConsistencyLoss,
            Metric::EvalOpponent,
        ]);
        lemma_filter_push(s0, Metric::BestGameReward, keep);
        lemma_filter_push(s1, Metric::AvgGameReward, keep);
        lemma_filter_push(s2, Metric::Elo, keep);
        lemma_filter_push(s3, Metric::Tau, keep);
        lemma_filter_push(s4, Metric::Loss, keep);
        lemma_filter_push(s5, Metric::ConsistencyLoss, keep);
        lemma_filter_push(s6, Metric::EvalOpponent, keep);
        assert(s0.filter(keep) =~= s0) by {
            reveal(Seq::filter);
        }
        assert(list@ =~= s7.filter(keep));
    }
    list
}

proof fn lemma_filter_push(s: Seq<Metric>, m: Metric, keep: spec_fn(Metric) -> bool)
    ensures
        s.push(m).filter(keep) == if keep(m) {
            s.filter(keep).push(m)
        } else {
            s.filter(keep)
        },
{
    reveal(Seq::filter);
    assert(s.push(m).drop_last() =~= s);
}

/// A window with one more entry: full windows let go of their oldest one.
pub open spec fn slid<T>(window: Seq<T>, size: nat, next: T) -> Seq<T> {
    if window.len() == size && window.len() > 0 {
        window.skip(1).push(next)
    } else {
        window.push(next)
    }
}

/// The samples that a rate is taken over: the oldest ones that are older than the window
/// go, but two stay.
pub open spec fn recent_samples(samples: Seq<(u64, usize)>, now: u64, window: u64) -> Seq<
    (u64, usize),
>
    decreases samples.len(),
{
    if samples.len() > 2 && now - samples[0].0 > window {
        recent_samples(samples.skip(1), now, window)
    } else {
        samples
    }
}

/// Whether samples are in order of time, and of their counts, up to now.
pub open spec fn samples_wf(samples: Seq<(u64, usize)>, now: u64, count: usize) -> bool {
    forall|i: int|
        0 <= i < samples.len() ==> (#[trigger] samples[i]).0 <= now && samples[i].1 <= count
}

/// The best reward once one more game has ended.
pub open spec fn best_so_far(best: Single, reward: Single) -> Single {
    if best.lt_spec(reward) {
        reward
    } else {
        best
    }
}

/// Steps, and the time in nanoseconds that they took.
#[derive(Clone, Copy, Debug, PartialEq, Eq, Structural)]
pub struct Rate {
    pub steps: usize,
    pub nanos: u64,
}

/// A line of the display: a text and a number.
#[derive(Debug)]
pub struct Counter {
    pub tag: String,
    pub value: usize,
}

/// The rounded numbers that the display shows.
#[derive(Clone, Copy, Debug, PartialEq, Eq, Structural)]
pub struct Readings {
    pub avg_game_length: usize,
    pub env_rate: usize,
    pub train_rate: usize,
    pub win_pct: usize,
    pub draw_pct: usize,
    pub loss_pct: usize,
}

/// The counters of a training run.
#[derive(Debug)]
pub struct TrainingTui {
    pub total_steps: usize,
    pub avg_window: usize,
    pub rate_window_nanos: u64,
    pub best_reward: Single,
    pub recent_rewards: VecDeque<Single>,
    pub recent_lengths: VecDeque<usize>,
    pub rate_samples: VecDeque<(u64, usize)>,
    pub train_rate_samples: VecDeque<(u64, usize)>,
    pub games_finished: usize,
    pub env_steps: usize,
    pub train_steps: usize,
    pub buffer_states: usize,
    pub board_game: bool,
}

fn sample(
    samples: &mut VecDeque<(u64, usize)>,
    now: u64,
    count: usize,
    window: u64,
) -> (rate: Option<Rate>)
    requires
        samples_wf(old(samples)@, now, count),
    ensures
        final(samples)@ == recent_samples(old(samples)@.push((now, count)), now, window),
        samples_wf(final(samples)@, now, count),
        final(samples)@.len() > 0,
        rate == (if now > final(samples)@[0].0 {
            Some(
                Rate {
                    steps: (count - final(samples)@[0].1) as usize,
                    nanos: (now - final(samples)@[0].0) as u64,
                },
            )
        } else {
            None
        }),
{
    samples.push_back((now, count));
    let ghost all = samples@;
    while samples.len() > 2 && now - samples[0].0 > window
        invariant
            samples@.len() > 0,
            samples_wf(samples@, now, count),
            recent_samples(samples@, now, window) == recent_samples(all, now, window),
        decreases samples@.len(),
    {
        let ghost before = samples@;
        let _ = samples.pop_front();
        assert(samples@ =~= before.skip(1));
    }
    let first: (u64, usize) = samples[0];
    if now > first.0 {
        Some(Rate { steps: count - first.1, nanos: now - first.0 })
    } else {
        None
    }
}

impl TrainingTui {
    /// Whether the samples fit the counters at a time.
    pub open spec fn wf(&self, now: u64) -> bool {
        &&& samples_wf(self.rate_samples@, now, self.env_steps)
        &&& samples_wf(self.train_rate_samples@, now, self.train_steps)
    }

    /// Counters at the start of a run.
    pub fn new(
        is_twoplayer: bool,
        training_steps: usize,
        avg_window: usize,
        rate_window_nanos: u64,
    ) -> (tui: TrainingTui)
        ensures
            tui.total_steps == training_steps,
            tui.avg_window == avg_window,
            tui.rate_window_nanos == rate_window_nanos,
            tui.board_game == is_twoplayer,
            tui.best_reward == Single::neg_infinity_spec(),
            tui.recent_rewards@.len() == 0,
            tui.recent_lengths@.len() == 0,
            tui.rate_samples@.len() == 0,
            tui.train_rate_samples@.len() == 0,
            tui.games_finished == 0,
            tui.env_steps == 0,
            tui.train_steps == 0,
            tui.buffer_states == 0,
            forall|now: u64| tui.wf(now),
    {
        TrainingTui {
            total_steps: training_steps,
            avg_window,
            rate_window_nanos,
            best_reward: Single::neg_infinity(),
            recent_rewards: VecDeque::new(),
            recent_lengths: VecDeque::new(),
            rate_samples: VecDeque::new(),
            train_rate_samples: VecDeque::new(),
            games_finished: 0,
            env_steps: 0,
            train_steps: 0,
            buffer_states: 0,
            board_game: is_twoplayer,
        }
    }

    /// Counts a finished game, and keeps its reward and its length.
    pub fn game_finished(&mut self, total_reward: Single, length: usize)
        requires
            old(self).games_finished < usize::MAX,
        ensures
            final(self).games_finished == old(self).games_finished + 1,
            final(self).best_reward == (if old(self).best_reward.lt_spec(total_reward) {
                total_reward
            } else {
                old(self).best_reward
            }),
            final(self).recent_rewards@ == slid(
                old(self).recent_rewards@,
                old(self).avg_window as nat,
                total_reward,
            ),
            final(self).recent_lengths@ == slid(
                old(self).recent_lengths@,
                old(self).avg_window as nat,
                length,
            ),
            final(self).same_but_games(old(self)),
            final(self).best_reward == best_so_far(old(self).best_reward, total_reward),
    {
        self.games_finished = self.games_finished + 1;
        if self.best_reward.less(total_reward) {
            self.best_reward = total_reward;
        }
        if self.recent_rewards.len() == self.avg_window {
            let _ = self.recent_rewards.pop_front();
        }
        self.recent_rewards.push_back(total_reward);
        if self.recent_lengths.len() == self.avg_window {
            let _ = self.recent_lengths.pop_front();
        }
        self.recent_lengths.push_back(length);
        assert(self.recent_rewards@ =~= slid(
            old(self).recent_rewards@,
            old(self).avg_window as nat,
            total_reward,
        ));
        assert(self.recent_lengths@ =~= slid(
            old(self).recent_lengths@,
            old(self).avg_window as nat,
            length,
        ));
    }

    /// Whether all but what is known of games is the same.
    pub open spec fn same_but_games(&self, other: &TrainingTui) -> bool {
        &&& self.total_steps == other.total_steps
        &&& self.avg_window == other.avg_window
        &&& self.rate_window_nanos == other.rate_window_nanos
        &&& self.rate_samples@ == other.rate_samples@
        &&& self.train_rate_samples@ == other.train_rate_samples@
        &&& self.env_steps == other.env_steps
        &&& self.train_steps == other.train_steps
        &&& self.buffer_states == other.buffer_states
        &&& self.board_game == other.board_game
    }

    pub fn set_buffer_states(&mut self, n: usize)
        ensures
            final(self).buffer_states == n,
            *final(self) == (TrainingTui { buffer_states: n, ..*old(self) }),
    {
        self.buffer_states = n;
    }

    pub fn games_finished(&self) -> (n: usize)
        ensures
            n == self.games_finished,
    {
        self.games_finished
    }

    pub fn env_steps(&self) -> (n: usize)
        ensures
            n == self.env_steps,
    {
        self.env_steps
    }

    /// Goes on from the counters of an earlier run.
    pub fn seed_counts(&mut self, env_steps: usize, games_finished: usize, train_steps: usize)
        ensures
            *final(self) == (TrainingTui { env_steps, games_finished, train_steps, ..*old(self) }),
    {
        self.env_steps = env_steps;
        self.games_finished = games_finished;
        self.train_steps = train_steps;
    }

    /// Counts steps of the environments at a time, and gives their rate where there is one.
    /// While nothing is trained the rate is not kept.
    pub fn add_env_steps(&mut self, n: usize, backprop_active: bool, now: u64) -> (rate: Option<
        Rate,
    >)
        requires
            old(self).wf(now),
            old(self).env_steps + n <= usize::MAX,
        ensures
            final(self).wf(now),
            final(self).env_steps == old(self).env_steps + n,
            *final(self) == (TrainingTui {
                env_steps: final(self).env_steps,
                rate_samples: final(self).rate_samples,
                ..*old(self)
            }),
            final(self).rate_samples@ == (if backprop_active {
                recent_samples(
                    old(self).rate_samples@.push((now, final(self).env_steps)),
                    now,
                    old(self).rate_window_nanos,
                )
            } else {
                Seq::empty()
            }),
            rate == (if backprop_active && now > final(self).rate_samples@[0].0 {
                Some(
                    Rate {
                        steps: (final(self).env_steps - final(self).rate_samples@[0].1) as usize,
                        nanos: (now - final(self).rate_samples@[0].0) as u64,
                    },
                )
            } else {
                None
            }),
    {
        self.env_steps = self.env_steps + n;
        if !backprop_active {
            self.rate_samples.clear();
            return None;
        }
        sample(&mut self.rate_samples, now, self.env_steps, self.rate_window_nanos)
    }

    /// Counts training steps at a time, and gives their rate where there is one.
    pub fn add_train_steps(&mut self, n: usize, now: u64) -> (rate: Option<Rate>)
        requires
            old(self).wf(now),
            old(self).train_steps + n <= usize::MAX,
        ensures
            final(self).wf(now),
            final(self).train_steps == old(self).train_steps + n,
            *final(self) == (TrainingTui {
                train_steps: final(self).train_steps,
                train_rate_samples: final(self).train_rate_samples,
                ..*old(self)
            }),
            final(self).train_rate_samples@ == recent_samples(
                old(self).train_rate_samples@.push((now, final(self).train_steps)),
                now,
                old(self).rate_window_nanos,
            ),
            rate == (if now > final(self).train_rate_samples@[0].0 {
                Some(
                    Rate {
                        steps: (final(self).train_steps - final(self).train_rate_samples@[0].1) as usize,
                        nanos: (now - final(self).train_rate_samples@[0].0) as u64,
                    },
                )
            } else {
                None
            }),
    {
        self.train_steps = self.train_steps + n;
        sample(&mut self.train_rate_samples, now, self.train_steps, self.rate_window_nanos)
    }

    /// The first line: games, their average length, and the size of the buffer.
    pub open spec fn games_tag(&self, r: Readings) -> Seq<char> {
        "Games (avg len "@ + decimal_spec(r.avg_game_length as nat) + ", buffer "@ + decimal_spec(
            self.buffer_states as nat,
        ) + ")"@
    }

    /// The texts and numbers of the display.
    pub open spec fn counters_spec(&self, r: Readings) -> Seq<(Seq<char>, usize)> {
        let games = (self.games_tag(r), self.games_finished);
        if self.board_game {
            seq![
                games,
                (
                    "Steps/s env "@ + decimal_spec(r.env_rate as nat) + " train "@ + decimal_spec(
                        r.train_rate as nat,
                    ) + " (env "@ + decimal_spec(self.env_steps as nat) + ", train "@
                        + decimal_spec(self.train_steps as nat) + ")"@,
                    self.train_steps,
                ),
                (
                    "Win % (draw "@ + decimal_spec(r.draw_pct as nat) + "/loss "@ + decimal_spec(
                        r.loss_pct as nat,
                    ) + ")"@,
                    r.win_pct,
                ),
            ]
        } else {
            seq![
                games,
                (
                    "Env steps/s (train "@ + decimal_spec(r.train_rate as nat) + ")"@,
                    r.env_rate,
                ),
                (
                    "Train steps (env "@ + decimal_spec(self.env_steps as nat) + ")"@,
                    self.train_steps,
                ),
            ]
        }
    }

    /// The lines of the display: three in any game, of which the last two depend on whether
    /// it is a board game.
    pub fn render(&self, r: Readings) -> (counters: Vec<Counter>)
        ensures
            counters@.len() == self.counters_spec(r).len(),
            forall|i: int|
                0 <= i < counters@.len() ==> (#[trigger] counters@[i]).tag@
                    == self.counters_spec(r)[i].0 && counters@[i].value == self.counters_spec(
                    r,
                )[i].1,
    {
        let mut counters: Vec<Counter> = Vec::new();
        let mut tag: String = String::new();
        tag.append("Games (avg len ");
        tag.append(decimal(r.avg_game_length).as_str());
        tag.append(", buffer ");
        tag.append(decimal(self.buffer_states).as_str());
        tag.append(")");
        assert(tag@ =~= self.games_tag(r));
        counters.push(Counter { tag, value: self.games_finished });
        if self.board_game {
            let mut steps: String = String::new();
            steps.append("Steps/s env ");
            steps.append(decimal(r.env_rate).as_str());
            steps.append(" train ");
            steps.append(decimal(r.train_rate).as_str());
            steps.append(" (env ");
            steps.append(decimal(self.env_steps).as_str());
            steps.append(", train ");
            steps.append(decimal(self.train_steps).as_str());
            steps.append(")");
            assert(steps@ =~= self.counters_spec(r)[1].0);
            counters.push(Counter { tag: steps, value: self.train_steps });
            let mut wins: String = String::new();
            wins.append("Win % (draw ");
            wins.append(decimal(r.draw_pct).as_str());
            wins.append("/loss ");
            wins.append(decimal(r.loss_pct).as_str());
            wins.append(")");
            assert(wins@ =~= self.counters_spec(r)[2].0);
            counters.push(Counter { tag: wins, value: r.win_pct });
        } else {
            let mut rate: String = String::new();
            rate.append("Env steps/s (train ");
            rate.append(decimal(r.train_rate).as_str());
            rate.append(")");
            assert(rate@ =~= self.counters_spec(r)[1].0);
            counters.push(Counter { tag: rate, value: r.env_rate });
            let mut steps: String = String::new();
            steps.append("Train steps (env ");
            steps.append(decimal(self.env_steps).as_str());
            steps.append(")");
            assert(steps@ =~= self.counters_spec(r)[2].0);
            counters.push(Counter { tag: steps, value: self.train_steps });
        }
        counters
    }
}

/// Whether a line is due without a display: a second has passed since the last one.
pub fn print_due(now: u64, last_print: u64) -> (due: bool)
    requires
        last_print <= now,
    ensures
        due == (now - last_print >= 1_000_000_000),
{
    now - last_print >= 1_000_000_000
}

/// A window of at least one entry never holds more entries than its size, and always
/// holds the latest one.
pub proof fn windows_keep_their_size<T>(window: Seq<T>, size: nat, next: T)
    requires
        size >= 1,
        window.len() <= size,
    ensures
        slid(window, size, next).len() <= size,
        slid(window, size, next).last() == next,
{
}

/// The latest sample is always among those that a rate is taken over.
pub proof fn latest_sample_is_kept(samples: Seq<(u64, usize)>, now: u64, window: u64)
    requires
        samples.len() > 0,
    ensures
        recent_samples(samples, now, window).len() > 0,
        recent_samples(samples, now, window).last() == samples.last(),
    decreases samples.len(),
{
    if samples.len() > 2 && now - samples[0].0 > window {
        latest_sample_is_kept(samples.skip(1), now, window);
    }
}

/// A window holds the latest entries: as many as have come, up to its size.
pub proof fn windows_hold_the_latest<T>(window: Seq<T>, size: nat, next: T, k: int)
    requires
        size >= 1,
        window.len() <= size,
    ensures
        slid(window, size, next).len() == if window.len() < size {
            window.len() + 1
        } else {
            size
        },
        1 <= k < slid(window, size, next).len() ==> slid(window, size, next)[slid(
            window,
            size,
            next,
        ).len() - 1 - k] == window[window.len() - k],
{
}

/// The samples of a rate are the latest ones. Those that went were all older than the window,
/// and of those that stay the oldest is within it, unless only two are left.
pub proof fn old_samples_go(samples: Seq<(u64, usize)>, now: u64, window: u64) -> (gone: nat)
    ensures
        gone <= samples.len(),
        recent_samples(samples, now, window) == samples.skip(gone as int),
        forall|i: int| 0 <= i < gone ==> now - (#[trigger] samples[i]).0 > window,
        samples.len() >= 2 ==> samples.len() - gone >= 2,
        samples.len() - gone > 2 ==> now - samples[gone as int].0 <= window,
    decreases samples.len(),
{
    if samples.len() > 2 && now - samples[0].0 > window {
        let rest = old_samples_go(samples.skip(1), now, window);
        assert(samples.skip(1).skip(rest as int) =~= samples.skip(rest as int + 1));
        assert forall|i: int| 0 <= i < rest + 1 implies now - (#[trigger] samples[i]).0
            > window by {
            if i > 0 {
                assert(samples.skip(1)[i - 1] == samples[i]);
            }
        }
        rest + 1
    } else {
        assert(samples.skip(0) =~= samples);
        0
    }
}

/// A run shows losses in any game, ratings and opponents in board games alone, rewards in
/// other games alone, and the temperature where visits are sampled; the opponent comes last,
/// and the losses follow each other.
pub proof fn metrics_fit_the_game(board_game: bool, algorithm: SearchAlgorithm)
    ensures
        ({
            let list = metrics_spec(board_game, algorithm);
            &&& board_game && algorithm == SearchAlgorithm::Puct ==> list.len() == 5 && list[0]
                == Metric::Elo && list[1] == Metric::Tau && list[2] == Metric::Loss && list[3]
                == Metric::ConsistencyLoss && list[4] == Metric::EvalOpponent
            &&& board_game && algorithm != SearchAlgorithm::Puct ==> list.len() == 4 && list[0]
                == Metric::Elo && list[1] == Metric::Loss && list[2] == Metric::ConsistencyLoss
                && list[3] == Metric::EvalOpponent
            &&& !board_game && algorithm == SearchAlgorithm::Puct ==> list.len() == 5 && list[0]
                == Metric::BestGameReward && list[1] == Metric::AvgGameReward && list[2]
                == Metric::Tau && list[3] == Metric::Loss && list[4] == Metric::ConsistencyLoss
            &&& !board_game && algorithm != SearchAlgorithm::Puct ==> list.len() == 4 && list[0]
                == Metric::BestGameReward && list[1] == Metric::AvgGameReward && list[2]
                == Metric::Loss && list[3] == Metric::ConsistencyLoss
        }),
{
    let keep = |m: Metric| shown(m, board_game, algorithm);
    let s0 = Seq::<Metric>::empty();
    let s1 = s0.push(Metric::BestGameReward);
    let s2 = s1.push(Metric::AvgGameReward);
    let s3 = s2.push(Metric::Elo);
    let s4 = s3.push(Metric::Tau);
    let s5 = s4.push(Metric::Loss);
    let s6 = s5.push(Metric::ConsistencyLoss);
    let s7 = s6.push(Metric::EvalOpponent);
    assert(s7 =~= seq![
        Metric::BestGameReward,
        Metric::AvgGameReward,
        Metric::Elo,
        Metric::Tau,
        Metric::Loss,
        Metric::ConsistencyLoss,
        Metric::EvalOpponent,
    ]);
    lemma_filter_push(s0, Metric::BestGameReward, keep);
    lemma_filter_push(s1, Metric::AvgGameReward, keep);
    lemma_filter_push(s2, Metric::Elo, keep);
    lemma_filter_push(s3, Metric::Tau, keep);
    lemma_filter_push(s4, Metric::Loss, keep);
    lemma_filter_push(s5, Metric::ConsistencyLoss, keep);
    lemma_filter_push(s6, Metric::EvalOpponent, keep);
    assert(s0.filter(keep) =~= s0) by {
        reveal(Seq::filter);
    }
}

/// No two metrics have one name.
pub proof fn names_tell_metrics_apart(a: Metric, b: Metric)
    requires
        a.name_spec() == b.name_spec(),
    ensures
        a == b,
{
    reveal_strlit("Best Game Reward");
    reveal_strlit("Avg Game Reward");
    reveal_strlit("Elo");
    reveal_strlit("Tau");
    reveal_strlit("Loss");
    reveal_strlit("Consistency Loss");
    reveal_strlit("Eval Opponent");
    assert("Best Game Reward"@[0] == 'B');
    assert("Avg Game Reward"@[0] == 'A');
    assert("Elo"@[0] == 'E' && "Elo"@.len() == 3);
    assert("Tau"@[0] == 'T');
    assert("Loss"@[0] == 'L');
    assert("Consistency Loss"@[0] == 'C');
    assert("Eval Opponent"@[0] == 'E' && "Eval Opponent"@.len() == 13);
}

/// The numbers of the display: the games, and then the training steps and the games won in a
/// board game, or the speed of the environments and the training steps in another.
pub proof fn display_shows_the_counts(tui: TrainingTui, r: Readings)
    ensures
        tui.counters_spec(r).len() == 3,
        tui.counters_spec(r)[0].1 == tui.games_finished,
        tui.board_game ==> tui.counters_spec(r)[1].1 == tui.train_steps && tui.counters_spec(
            r,
        )[2].1 == r.win_pct,
        !tui.board_game ==> tui.counters_spec(r)[1].1 == r.env_rate && tui.counters_spec(r)[2].1
            == tui.train_steps,
{
}

/// The best reward is one that was seen, and no game has had a larger one; before the first game it is
/// below any number that can come.
pub proof fn best_rewards_are_never_beaten(best: Single, reward: Single)
    requires
        !best.nan(),
        !reward.nan(),
    ensures
        best_so_far(best, reward) == best || best_so_far(best, reward) == reward,
        best_so_far(best, reward).rank() >= best.rank(),
        best_so_far(best, reward).rank() >= reward.rank(),
        best == Single::neg_infinity_spec() ==> best_so_far(best, reward).rank() == reward.rank(),
{
}

/// All counters but those of games stay as they are when a game ends.
pub proof fn games_leave_other_counters_alone(before: TrainingTui, after: TrainingTui)
    requires
        after.same_but_games(&before),
    ensures
        after.total_steps == before.total_steps && after.avg_window == before.avg_window,
        after.rate_window_nanos == before.rate_window_nanos,
        after.env_steps == before.env_steps && after.train_steps == before.train_steps,
        after.rate_samples@ == before.rate_samples@,
        after.train_rate_samples@ == before.train_rate_samples@,
        after.buffer_states == before.buffer_states && after.board_game == before.board_game,
{
}

} // verus!
