//! The configuration of a training run and the rules that it has to keep.
use vstd::prelude::*;
use vstd::string::*;
use crate::single::{Double, Single, power_of_two};
use crate::text::{characters, push_char};
use crate::utils::TemperatureSchedule;

verus! {

/// Which optimizer trains the networks.
#[derive(Clone, Copy, Debug, PartialEq, Eq, Structural)]
pub enum OptimChoice {
    Adam,
    AdamW,
    Sgd,
}

/// How the search picks among a node's children.
#[derive(Clone, Copy, Debug, PartialEq, Eq, Structural)]
pub enum SearchAlgorithm {
    /// Upper confidence bounds throughout the tree, with noise on the root's priors and
    /// visit counts as policy targets.
    Puct,
    /// Sequential halving at the root, the improved policy below and as the target.
    Gumbel,
}

impl Default for SearchAlgorithm {
    fn default() -> (algorithm: SearchAlgorithm)
        ensures
            algorithm is Puct,
    {
        SearchAlgorithm::Puct
    }
}

/// Which game is played.
#[derive(Clone, Copy, Debug, PartialEq, Eq, Structural)]
pub enum EnvironmentName {
    CartPole,
    TicTacToe,
    Othello,
    Chess,
    Atari,
}

impl EnvironmentName {
    /// The name of the game.
    pub open spec fn name_spec(self) -> Seq<char> {
        match self {
            EnvironmentName::CartPole => "CartPole"@,
            EnvironmentName::TicTacToe => "TicTacToe"@,
            EnvironmentName::Othello => "Othello"@,
            EnvironmentName::Chess => "Chess"@,
            EnvironmentName::Atari => "Atari"@,
        }
    }

    /// The name of the game.
    pub fn name(&self) -> (name: &'static str)
        ensures
            name@ == self.name_spec(),
    {
        match self {
            EnvironmentName::CartPole => "CartPole",
            EnvironmentName::TicTacToe => "TicTacToe",
            EnvironmentName::Othello => "Othello",
            EnvironmentName::Chess => "Chess",
            EnvironmentName::Atari => "Atari",
        }
    }
}

/// Where networks run.
#[derive(Clone, Copy, Debug, PartialEq, Eq, Structural)]
pub enum BackendChoice {
    /// The best one that was compiled in.
    Auto,
    Cuda,
    Rocm,
    Metal,
    Vulkan,
    Wgpu,
    Flex,
    NdArray,
    /// LibTorch on the processor.
    LibTorch,
    /// LibTorch on the graphics card.
    LibTorchGpu,
}

impl Default for BackendChoice {
    fn default() -> (choice: BackendChoice)
        ensures
            choice is Auto,
    {
        BackendChoice::Auto
    }
}

/// Which family of networks is trained.
#[derive(Clone, Copy, Debug, PartialEq, Eq, Structural)]
pub enum NetworkType {
    Linear,
    ResNet,
}

/// The sizes of a fully connected network.
#[derive(Clone, Copy, Debug, PartialEq, Eq, Structural)]
pub struct NetworkSubConfig {
    pub latent_space_dims: usize,
    pub fc_hidden_size: usize,
    pub n_layers: usize,
}

/// The sizes of the fully connected family.
#[derive(Clone, Copy, Debug, PartialEq, Eq, Structural)]
pub struct LinearSubConfig {
    pub representation: NetworkSubConfig,
    pub dynamic: NetworkSubConfig,
    pub prediction: NetworkSubConfig,
}

/// Global pooling within a tower: how often, and over how many channels.
#[derive(Clone, Copy, Debug, PartialEq, Eq, Structural)]
pub struct GPoolConfig {
    pub every: usize,
    pub pool_channels: usize,
}

/// Global pooling in the heads.
#[derive(Clone, Copy, Debug, PartialEq, Eq, Structural)]
pub struct HeadPoolConfig {
    pub policy_channels: usize,
    pub value_channels: usize,
}

/// The sizes of the representation tower.
#[derive(Clone, Copy, Debug, PartialEq, Eq, Structural)]
pub struct ResNetRepresentationConfig {
    pub channels: usize,
    pub n_blocks: usize,
    pub gpool: GPoolConfig,
}

/// The sizes of another tower.
#[derive(Clone, Copy, Debug, PartialEq, Eq, Structural)]
pub struct ResNetBlockConfig {
    pub channels: usize,
    pub n_blocks: usize,
    pub fc_hidden_size: usize,
    pub gpool: GPoolConfig,
}

/// The sizes of the convolutional family.
#[derive(Clone, Copy, Debug, PartialEq, Eq, Structural)]
pub struct ResNetSubConfig {
    pub representation: ResNetRepresentationConfig,
    pub dynamic: ResNetBlockConfig,
    pub prediction: ResNetBlockConfig,
    pub head_gpool: HeadPoolConfig,
}

/// The sizes of the projection for the consistency loss.
#[derive(Clone, Copy, Debug, PartialEq, Eq, Structural)]
pub struct ProjectionSubConfig {
    pub proj_hidden: usize,
    pub proj_out: usize,
    pub pred_hidden: usize,
}

/// The part of the configuration that shapes the networks.
#[derive(Clone, Copy, Debug, PartialEq, Eq, Structural)]
pub struct NetConfig {
    pub network_type: NetworkType,
    pub obs_dim: usize,
    pub action_space: usize,
    pub support_size: usize,
    pub categorical: bool,
    pub board_height: usize,
    pub board_width: usize,
    pub obs_channels: usize,
    pub linear: Option<LinearSubConfig>,
    pub resnet: Option<ResNetSubConfig>,
    pub projection: ProjectionSubConfig,
}

/// The settings of search by upper confidence bounds.
#[derive(Clone, Debug)]
pub struct PuctSubConfig {
    pub dirichlet_alpha: Single,
    pub root_exploration_fraction: Single,
    pub temperature_schedule: Vec<TemperatureSchedule>,
}

/// The settings of search by sequential halving.
#[derive(Clone, Copy, Debug, PartialEq, Eq, Structural)]
pub struct GumbelSubConfig {
    pub max_num_considered_actions: usize,
    pub c_visit: Single,
    pub c_scale: Single,
}

/// One step of the ladder of benchmark opponents, with the rating that it stands for.
#[derive(Clone, Copy, Debug, PartialEq, Eq, Structural)]
pub enum RungConfig {
    Random { elo: Single },
    AlphaBeta { depth: usize, epsilon: Single, elo: Single },
}

/// The settings of evaluation against the ladder.
#[derive(Clone, Debug)]
pub struct EvalConfig {
    /// Training steps between evaluations; 0 turns them off.
    pub interval: usize,
    pub games: usize,
    /// The simulations of a move, unless those of training are to be used.
    pub num_simulations: Option<usize>,
    pub random_opening_plies: usize,
    pub promote_score: Single,
    pub demote_score: Single,
    /// Fixed, so that every evaluation replays the same openings.
    pub seed: u64,
    /// The ladder, unless the game's own is to be used.
    pub ladder: Option<Vec<RungConfig>>,
}

/// The bits of one quarter.
pub const QUARTER_BITS: u32 = 0x3e80_0000;

/// The bits of three quarters.
pub const THREE_QUARTERS_BITS: u32 = 0x3f40_0000;

/// The bits of two.
pub const TWO_BITS: u32 = 0x4000_0000;

/// The bits of ten.
pub const TEN_BITS: u32 = 0x4120_0000;

/// The bits of the number nearest to one hundred-thousandth.
pub const EPS_BITS: u32 = 0x3727_c5ac;

/// The bits of one in double precision.
pub const ONE_DOUBLE_BITS: u64 = 0x3ff0_0000_0000_0000;

pub fn default_eval_interval() -> (n: usize)
    ensures
        n == 500,
{
    500
}

pub fn default_eval_games() -> (n: usize)
    ensures
        n == 100,
{
    100
}

pub fn default_random_opening_plies() -> (n: usize)
    ensures
        n == 4,
{
    4
}

pub fn default_promote_score() -> (score: Single)
    ensures
        score.bits == THREE_QUARTERS_BITS,
{
    Single::from_bits(THREE_QUARTERS_BITS)
}

pub fn default_demote_score() -> (score: Single)
    ensures
        score.bits == QUARTER_BITS,
{
    Single::from_bits(QUARTER_BITS)
}

pub fn default_eval_seed() -> (seed: u64)
    ensures
        seed == 0x5EED_0E10,
{
    0x5EED_0E10
}

pub fn default_avg_window() -> (n: usize)
    ensures
        n == 100,
{
    100
}

pub fn default_reanalyze_pool() -> (n: usize)
    ensures
        n == 4096,
{
    4096
}

pub fn default_support_size() -> (n: usize)
    ensures
        n == 50,
{
    50
}

pub fn default_lr_decay_steps() -> (n: usize)
    ensures
        n == 350_000,
{
    350_000
}

pub fn default_rate_window_secs() -> (secs: Single)
    ensures
        secs.bits == TEN_BITS,
{
    Single::from_bits(TEN_BITS)
}

pub fn default_eps() -> (eps: Single)
    ensures
        eps.bits == EPS_BITS,
{
    Single::from_bits(EPS_BITS)
}

pub fn default_value_coef() -> (coef: Single)
    ensures
        coef.bits == QUARTER_BITS,
{
    Single::from_bits(QUARTER_BITS)
}

pub fn default_unit_coef() -> (coef: Single)
    ensures
        coef == Single::one_spec(),
{
    Single::one()
}

pub fn default_consistency_coef() -> (coef: Single)
    ensures
        coef.bits == TWO_BITS,
{
    Single::from_bits(TWO_BITS)
}

pub fn default_lr_decay_rate() -> (rate: Double)
    ensures
        rate.bits == ONE_DOUBLE_BITS,
{
    Double { bits: ONE_DOUBLE_BITS }
}

impl Default for EvalConfig {
    fn default() -> (conf: EvalConfig)
        ensures
            conf.interval == 500,
            conf.games == 100,
            conf.num_simulations is None,
            conf.random_opening_plies == 4,
            conf.promote_score.bits == THREE_QUARTERS_BITS,
            conf.demote_score.bits == QUARTER_BITS,
            conf.seed == 0x5EED_0E10,
            conf.ladder is None,
    {
        EvalConfig {
            interval: default_eval_interval(),
            games: default_eval_games(),
            num_simulations: None,
            random_opening_plies: default_random_opening_plies(),
            promote_score: default_promote_score(),
            demote_score: default_demote_score(),
            seed: default_eval_seed(),
            ladder: None,
        }
    }
}

pub(crate) fn copy_rungs(rungs: &Vec<RungConfig>) -> (copy: Vec<RungConfig>)
    ensures
        copy@ == rungs@,
{
    let mut copy: Vec<RungConfig> = Vec::new();
    let mut i: usize = 0;
    while i < rungs.len()
        invariant
            i <= rungs@.len(),
            copy@ == rungs@.take(i as int),
        decreases rungs@.len() - i,
    {
        copy.push(rungs[i]);
        i = i + 1;
        assert(copy@ =~= rungs@.take(i as int));
    }
    assert(copy@ =~= rungs@);
    copy
}

impl EvalConfig {
    /// Whether two settings are the same.
    pub open spec fn same(&self, other: &EvalConfig) -> bool {
        &&& self.interval == other.interval
        &&& self.games == other.games
        &&& self.num_simulations == other.num_simulations
        &&& self.random_opening_plies == other.random_opening_plies
        &&& self.promote_score == other.promote_score
        &&& self.demote_score == other.demote_score
        &&& self.seed == other.seed
        &&& self.ladder is Some <==> other.ladder is Some
        &&& self.ladder is Some ==> self.ladder->0@ == other.ladder->0@
    }

    /// The same settings once more.
    pub fn duplicate(&self) -> (copy: EvalConfig)
        ensures
            copy.same(self),
    {
        EvalConfig {
            interval: self.interval,
            games: self.games,
            num_simulations: self.num_simulations,
            random_opening_plies: self.random_opening_plies,
            promote_score: self.promote_score,
            demote_score: self.demote_score,
            seed: self.seed,
            ladder: match &self.ladder {
                Some(rungs) => Some(copy_rungs(rungs)),
                None => None,
            },
        }
    }
}

/// A rung of a built-in ladder: alpha-beta search, with the bits of its noise and its
/// rating.
pub open spec fn search_rung(depth: usize, epsilon_bits: u32, elo_bits: u32) -> RungConfig {
    RungConfig::AlphaBeta {
        depth,
        epsilon: Single { bits: epsilon_bits },
        elo: Single { bits: elo_bits },
    }
}

/// The built-in ladder of a game; empty where a game has none.
pub open spec fn default_ladder_spec(environment: EnvironmentName) -> Seq<RungConfig> {
    let random = RungConfig::Random { elo: Single::zero_spec() };
    match environment {
        EnvironmentName::Othello => seq![
            random,
            search_rung(1, E_0_05, ELO_500),
            search_rung(3, E_0_02, ELO_1000),
            search_rung(5, 0, ELO_1400),
        ],
        EnvironmentName::TicTacToe => seq![
            random,
            search_rung(1, E_0_2, ELO_300),
            search_rung(3, E_0_1, ELO_600),
            search_rung(9, 0, ELO_900),
        ],
        EnvironmentName::Chess => seq![
            random,
            search_rung(1, E_0_1, ELO_400),
            search_rung(2, E_0_05, ELO_800),
            search_rung(3, 0, ELO_1200),
        ],
        EnvironmentName::CartPole | EnvironmentName::Atari => Seq::empty(),
    }
}

/// The bits of the numbers that the built-in ladders are made of.
pub const E_0_02: u32 = 0x3ca3_d70a;

pub const E_0_05: u32 = 0x3d4c_cccd;

pub const E_0_1: u32 = 0x3dcc_cccd;

pub const E_0_2: u32 = 0x3e4c_cccd;

pub const ELO_300: u32 = 0x4396_0000;

pub const ELO_400: u32 = 0x43c8_0000;

pub const ELO_500: u32 = 0x43fa_0000;

pub const ELO_600: u32 = 0x4416_0000;

pub const ELO_800: u32 = 0x4448_0000;

pub const ELO_900: u32 = 0x4461_0000;

pub const ELO_1000: u32 = 0x447a_0000;

pub const ELO_1200: u32 = 0x4496_0000;

pub const ELO_1400: u32 = 0x44af_0000;

fn make_rung(depth: usize, epsilon_bits: u32, elo_bits: u32) -> (rung: RungConfig)
    ensures
        rung == search_rung(depth, epsilon_bits, elo_bits),
{
    RungConfig::AlphaBeta {
        depth,
        epsilon: Single::from_bits(epsilon_bits),
        elo: Single::from_bits(elo_bits),
    }
}

fn four_rungs(second: RungConfig, third: RungConfig, fourth: RungConfig) -> (ladder: Vec<
    RungConfig,
>)
    ensures
        ladder@ == seq![RungConfig::Random { elo: Single::zero_spec() }, second, third, fourth],
{
    let mut ladder: Vec<RungConfig> = Vec::new();
    ladder.push(RungConfig::Random { elo: Single::zero() });
    ladder.push(second);
    ladder.push(third);
    ladder.push(fourth);
    assert(ladder@ =~= seq![
        RungConfig::Random { elo: Single::zero_spec() },
        second,
        third,
        fourth,
    ]);
    ladder
}

/// The built-in ladder of a game. Games that are not board games have an empty one, which
/// turns evaluation off.
pub fn default_ladder(environment: &EnvironmentName) -> (ladder: Vec<RungConfig>)
    ensures
        ladder@ == default_ladder_spec(*environment),
{
    match environment {
        EnvironmentName::Othello => four_rungs(
            make_rung(1, E_0_05, ELO_500),
            make_rung(3, E_0_02, ELO_1000),
            make_rung(5, 0, ELO_1400),
        ),
        EnvironmentName::TicTacToe => four_rungs(
            make_rung(1, E_0_2, ELO_300),
            make_rung(3, E_0_1, ELO_600),
            make_rung(9, 0, ELO_900),
        ),
        EnvironmentName::Chess => four_rungs(
            make_rung(1, E_0_1, ELO_400),
            make_rung(2, E_0_05, ELO_800),
            make_rung(3, 0, ELO_1200),
        ),
        EnvironmentName::CartPole => Vec::new(),
        EnvironmentName::Atari => Vec::new(),
    }
}

/// Everything that a training run is configured by.
#[derive(Clone, Debug)]
pub struct MuZeroConfig {
    pub network_type: NetworkType,
    pub environment: EnvironmentName,
    pub atari_game: Option<String>,
    pub linear: Option<LinearSubConfig>,
    pub resnet: Option<ResNetSubConfig>,
    pub optimizer: OptimChoice,
    pub n_steps: usize,
    pub unroll_steps: usize,
    pub training_batch_size: usize,
    pub game_batch_size: usize,
    pub discount: Single,
    pub learning_rate: Double,
    pub grad_clip: Single,
    pub weight_decay: Single,
    pub momentum: Single,
    pub eps: Single,
    pub num_simulations: usize,
    pub support_size: usize,
    pub value_coef: Single,
    pub policy_coef: Single,
    pub reward_coef: Single,
    pub consistency_coef: Single,
    pub projection: ProjectionSubConfig,
    pub augmentation: bool,
    pub lr_warmup_steps: usize,
    pub lr_decay_rate: Double,
    pub lr_decay_steps: usize,
    pub search_algorithm: SearchAlgorithm,
    pub puct: Option<PuctSubConfig>,
    pub gumbel: Option<GumbelSubConfig>,
    pub eval: Option<EvalConfig>,
    pub training_steps: usize,
    pub train_ratio: Single,
    pub buffer_size: usize,
    /// The average reward is taken over this many finished games.
    pub avg_window: usize,
    /// Rates are taken over this many seconds.
    pub rate_window_secs: Single,
    pub inference_update_interval: usize,
    pub checkpoint_interval: usize,
    /// The probability of refreshing stored targets at a step.
    pub reanalyze_fraction: Single,
    pub reanalyze_batch_size: usize,
    pub rayon_min_chunk_len: usize,
    pub async_training: bool,
    pub load_from_checkpoint: bool,
    pub training_backend: BackendChoice,
    pub inference_backend: BackendChoice,
    pub eval_backend: BackendChoice,
    pub checkpoint_name: String,
    /// The rest is taken from the game, never from the file.
    pub action_space: usize,
    pub obs_dim: usize,
    pub is_twoplayer: bool,
    pub board_height: usize,
    pub board_width: usize,
    pub obs_channels: usize,
}

/// A rule that a configuration breaks.
#[derive(Clone, Copy, Debug, PartialEq, Eq, Structural)]
pub enum ConfigError {
    Discount,
    LearningRate,
    LrDecayRate,
    WeightDecay,
    Eps,
    TrainingBatchSize,
    GameBatchSize,
    NumSimulations,
    UnrollSteps,
    NSteps,
    BufferSize,
    SupportSize,
    ValueCoef,
    PolicyCoef,
    RewardCoef,
    ConsistencyCoef,
    ProjectionSizes,
    PuctMissing,
    RootExplorationFraction,
    DirichletAlpha,
    TemperatureScheduleEmpty,
    GumbelMissing,
    MaxNumConsideredActions,
    CScale,
    CVisit,
    EvalGames,
    EvalScores,
    EvalScoreOrder,
    LadderUnsupported,
    LadderEmpty,
    RungDepth { rung: usize },
    RungEpsilon { rung: usize },
    AtariGameMissing,
    FlatObservation,
}

impl ConfigError {
    /// The place of a rule in the order in which the rules are checked.
    pub open spec fn place(self) -> int {
        match self {
            ConfigError::Discount => 0,
            ConfigError::LearningRate => 1,
            ConfigError::LrDecayRate => 2,
            ConfigError::WeightDecay => 3,
            ConfigError::Eps => 4,
            ConfigError::TrainingBatchSize => 5,
            ConfigError::GameBatchSize => 6,
            ConfigError::NumSimulations => 7,
            ConfigError::UnrollSteps => 8,
            ConfigError::NSteps => 9,
            ConfigError::BufferSize => 10,
            ConfigError::SupportSize => 11,
            ConfigError::ValueCoef => 12,
            ConfigError::PolicyCoef => 13,
            ConfigError::RewardCoef => 14,
            ConfigError::ConsistencyCoef => 15,
            ConfigError::ProjectionSizes => 16,
            ConfigError::PuctMissing => 17,
            ConfigError::RootExplorationFraction => 18,
            ConfigError::DirichletAlpha => 19,
            ConfigError::TemperatureScheduleEmpty => 20,
            ConfigError::GumbelMissing => 21,
            ConfigError::MaxNumConsideredActions => 22,
            ConfigError::CScale => 23,
            ConfigError::CVisit => 24,
            ConfigError::EvalGames => 25,
            ConfigError::EvalScores => 26,
            ConfigError::EvalScoreOrder => 27,
            ConfigError::LadderUnsupported => 28,
            ConfigError::LadderEmpty => 29,
            ConfigError::RungDepth { rung } => 30 + 2 * rung,
            ConfigError::RungEpsilon { rung } => 31 + 2 * rung,
            ConfigError::AtariGameMissing => 32 + 2 * usize::MAX,
            ConfigError::FlatObservation => 33 + 2 * usize::MAX,
        }
    }
}

impl MuZeroConfig {
    /// Whether a rule is broken. The two rules on the game are not among these.
    pub open spec fn breaks(&self, rule: ConfigError) -> bool {
        let zero = Single::zero_spec();
        match rule {
            ConfigError::Discount => !(zero.lt_spec(self.discount) && Single::one_spec().ge_spec(
                self.discount,
            )),
            ConfigError::LearningRate => !self.learning_rate.positive(),
            ConfigError::LrDecayRate => !self.lr_decay_rate.positive(),
            ConfigError::WeightDecay => !(self.weight_decay.ge_spec(zero)
                && self.weight_decay.lt_spec(Single::one_spec())),
            ConfigError::Eps => !zero.lt_spec(self.eps),
            ConfigError::TrainingBatchSize => self.training_batch_size < 1,
            ConfigError::GameBatchSize => self.game_batch_size < 1,
            ConfigError::NumSimulations => self.num_simulations < 1,
            ConfigError::UnrollSteps => self.unroll_steps < 1,
            ConfigError::NSteps => self.n_steps < 1,
            ConfigError::BufferSize => self.buffer_size < 1,
            ConfigError::SupportSize => self.support_size < 1,
            ConfigError::ValueCoef => !self.value_coef.ge_spec(zero),
            ConfigError::PolicyCoef => !self.policy_coef.ge_spec(zero),
            ConfigError::RewardCoef => !self.reward_coef.ge_spec(zero),
            ConfigError::ConsistencyCoef => !self.consistency_coef.ge_spec(zero),
            ConfigError::ProjectionSizes => zero.lt_spec(self.consistency_coef) && (
            self.projection.proj_hidden < 1 || self.projection.proj_out < 1
                || self.projection.pred_hidden < 1),
            ConfigError::PuctMissing => self.search_algorithm is Puct && self.puct is None,
            ConfigError::RootExplorationFraction => self.search_algorithm is Puct && self.puct is Some
                && !self.puct->0.root_exploration_fraction.in_unit_interval(),
            ConfigError::DirichletAlpha => self.search_algorithm is Puct && self.puct is Some
                && !zero.lt_spec(self.puct->0.dirichlet_alpha),
            ConfigError::TemperatureScheduleEmpty => self.search_algorithm is Puct
                && self.puct is Some && self.puct->0.temperature_schedule@.len() == 0,
            ConfigError::GumbelMissing => self.search_algorithm is Gumbel && self.gumbel is None,
            ConfigError::MaxNumConsideredActions => self.search_algorithm is Gumbel
                && self.gumbel is Some && self.gumbel->0.max_num_considered_actions < 1,
            ConfigError::CScale => self.search_algorithm is Gumbel && self.gumbel is Some
                && !zero.lt_spec(self.gumbel->0.c_scale),
            ConfigError::CVisit => self.search_algorithm is Gumbel && self.gumbel is Some
                && !self.gumbel->0.c_visit.ge_spec(zero),
            ConfigError::EvalGames => self.eval is Some && self.eval->0.games < 2,
            ConfigError::EvalScores => self.eval is Some && !(
            self.eval->0.promote_score.in_unit_interval()
                && self.eval->0.demote_score.in_unit_interval()),
            ConfigError::EvalScoreOrder => self.eval is Some && !self.eval->0.demote_score.lt_spec(
                self.eval->0.promote_score,
            ),
            ConfigError::LadderUnsupported => self.eval is Some && self.eval->0.ladder is Some
                && default_ladder_spec(self.environment).len() == 0,
            ConfigError::LadderEmpty => self.eval is Some && self.eval->0.ladder is Some
                && self.eval->0.ladder->0@.len() == 0,
            ConfigError::RungDepth { rung } => self.eval is Some && self.eval->0.ladder is Some
                && rung < self.eval->0.ladder->0@.len() && rung_too_shallow(
                self.eval->0.ladder->0@[rung as int],
            ),
            ConfigError::RungEpsilon { rung } => self.eval is Some && self.eval->0.ladder is Some
                && rung < self.eval->0.ladder->0@.len() && rung_noise_wrong(
                self.eval->0.ladder->0@[rung as int],
            ),
            ConfigError::AtariGameMissing => false,
            ConfigError::FlatObservation => false,
        }
    }

    /// Whether a configuration keeps all rules.
    pub open spec fn valid(&self) -> bool {
        forall|rule: ConfigError| !#[trigger] self.breaks(rule)
    }

    /// Whether `rule` is broken and none before it is.
    pub open spec fn first_broken(&self, rule: ConfigError) -> bool {
        &&& self.breaks(rule)
        &&& forall|other: ConfigError|
            other.place() < rule.place() ==> !#[trigger] self.breaks(other)
    }
}

/// Whether a rung searches no ply.
pub open spec fn rung_too_shallow(rung: RungConfig) -> bool {
    rung matches RungConfig::AlphaBeta { depth, epsilon: _, elo: _ } && depth < 1
}

/// Whether a rung's noise is no probability.
pub open spec fn rung_noise_wrong(rung: RungConfig) -> bool {
    rung matches RungConfig::AlphaBeta { depth: _, epsilon, elo: _ }
        && !epsilon.in_unit_interval()
}

/// Holds a configuration to the rules: the first one that it breaks comes back.
pub fn validate(conf: &MuZeroConfig) -> (checked: Result<(), ConfigError>)
    ensures
        match checked {
            Ok(_) => conf.valid(),
            Err(rule) => conf.first_broken(rule),
        },
{
    let zero: Single = Single::zero();
    if !(zero.less(conf.discount) && Single::one().at_least(conf.discount)) {
        return Err(ConfigError::Discount);
    }
    if !conf.learning_rate.is_positive() {
        return Err(ConfigError::LearningRate);
    }
    if !conf.lr_decay_rate.is_positive() {
        return Err(ConfigError::LrDecayRate);
    }
    if !(conf.weight_decay.at_least(zero) && conf.weight_decay.less(Single::one())) {
        return Err(ConfigError::WeightDecay);
    }
    if !zero.less(conf.eps) {
        return Err(ConfigError::Eps);
    }
    if conf.training_batch_size < 1 {
        return Err(ConfigError::TrainingBatchSize);
    }
    if conf.game_batch_size < 1 {
        return Err(ConfigError::GameBatchSize);
    }
    if conf.num_simulations < 1 {
        return Err(ConfigError::NumSimulations);
    }
    if conf.unroll_steps < 1 {
        return Err(ConfigError::UnrollSteps);
    }
    if conf.n_steps < 1 {
        return Err(ConfigError::NSteps);
    }
    if conf.buffer_size < 1 {
        return Err(ConfigError::BufferSize);
    }
    if conf.support_size < 1 {
        return Err(ConfigError::SupportSize);
    }
    if !conf.value_coef.at_least(zero) {
        return Err(ConfigError::ValueCoef);
    }
    if !conf.policy_coef.at_least(zero) {
        return Err(ConfigError::PolicyCoef);
    }
    if !conf.reward_coef.at_least(zero) {
        return Err(ConfigError::RewardCoef);
    }
    if !conf.consistency_coef.at_least(zero) {
        return Err(ConfigError::ConsistencyCoef);
    }
    if zero.less(conf.consistency_coef) && (conf.projection.proj_hidden < 1
        || conf.projection.proj_out < 1 || conf.projection.pred_hidden < 1) {
        return Err(ConfigError::ProjectionSizes);
    }
    if conf.search_algorithm == SearchAlgorithm::Puct {
        match &conf.puct {
            None => {
                return Err(ConfigError::PuctMissing);
            },
            Some(puct) => {
                if !puct.root_exploration_fraction.is_in_unit_interval() {
                    return Err(ConfigError::RootExplorationFraction);
                }
                if !zero.less(puct.dirichlet_alpha) {
                    return Err(ConfigError::DirichletAlpha);
                }
                if puct.temperature_schedule.len() == 0 {
                    return Err(ConfigError::TemperatureScheduleEmpty);
                }
            },
        }
    }
    if conf.search_algorithm == SearchAlgorithm::Gumbel {
        match &conf.gumbel {
            None => {
                return Err(ConfigError::GumbelMissing);
            },
            Some(gumbel) => {
                if gumbel.max_num_considered_actions < 1 {
                    return Err(ConfigError::MaxNumConsideredActions);
                }
                if !zero.less(gumbel.c_scale) {
                    return Err(ConfigError::CScale);
                }
                if !gumbel.c_visit.at_least(zero) {
                    return Err(ConfigError::CVisit);
                }
            },
        }
    }
    match &conf.eval {
        None => Ok(()),
        Some(eval) => validate_eval(conf, eval),
    }
}

/// The rules on evaluation, once all others are kept.
fn validate_eval(conf: &MuZeroConfig, eval: &EvalConfig) -> (checked: Result<(), ConfigError>)
    requires
        conf.eval == Some(*eval),
        forall|rule: ConfigError| rule.place() < 25 ==> !#[trigger] conf.breaks(rule),
    ensures
        match checked {
            Ok(_) => conf.valid(),
            Err(rule) => conf.first_broken(rule),
        },
{
    if eval.games < 2 {
        return Err(ConfigError::EvalGames);
    }
    if !(eval.promote_score.is_in_unit_interval() && eval.demote_score.is_in_unit_interval()) {
        return Err(ConfigError::EvalScores);
    }
    if !eval.demote_score.less(eval.promote_score) {
        return Err(ConfigError::EvalScoreOrder);
    }
    match &eval.ladder {
        None => Ok(()),
        Some(ladder) => {
            if default_ladder(&conf.environment).len() == 0 {
                return Err(ConfigError::LadderUnsupported);
            }
            if ladder.len() == 0 {
                return Err(ConfigError::LadderEmpty);
            }
            let mut i: usize = 0;
            while i < ladder.len()
                invariant
                    i <= ladder@.len(),
                    conf.eval == Some(*eval),
                    eval.ladder == Some(*ladder),
                    forall|rule: ConfigError|
                        rule.place() < 30 + 2 * i ==> !#[trigger] conf.breaks(rule),
                decreases ladder@.len() - i,
            {
                match ladder[i] {
                    RungConfig::Random { elo: _ } => {},
                    RungConfig::AlphaBeta { depth, epsilon, elo: _ } => {
                        if depth < 1 {
                            return Err(ConfigError::RungDepth { rung: i });
                        }
                        if !epsilon.is_in_unit_interval() {
                            return Err(ConfigError::RungEpsilon { rung: i });
                        }
                    },
                }
                assert(!conf.breaks(ConfigError::RungDepth { rung: i }));
                assert(!conf.breaks(ConfigError::RungEpsilon { rung: i }));
                assert forall|rule: ConfigError| rule.place() < 30 + 2 * (i + 1) implies
                    !#[trigger] conf.breaks(rule) by {
                    if rule.place() >= 30 + 2 * i {
                        assert(rule == (ConfigError::RungDepth { rung: i }) || rule == (
                        ConfigError::RungEpsilon { rung: i }));
                    }
                }
                i = i + 1;
            }
            assert forall|rule: ConfigError| !#[trigger] conf.breaks(rule) by {
                if rule.place() >= 30 + 2 * ladder@.len() {
                    match rule {
                        ConfigError::RungDepth { rung } => {},
                        ConfigError::RungEpsilon { rung } => {},
                        _ => {},
                    }
                }
            }
            Ok(())
        },
    }
}

/// Whether a character is a decimal digit.
pub open spec fn is_digit(c: char) -> bool {
    '0' <= c && c <= '9'
}

/// Whether the character at `i` is an underscore between two digits.
pub open spec fn separates_digits(text: Seq<char>, i: int) -> bool {
    &&& text[i] == '_'
    &&& 0 < i < text.len() - 1
    &&& is_digit(text[i - 1])
    &&& is_digit(text[i + 1])
}

/// The first `end` characters without the underscores between digits.
pub open spec fn stripped(text: Seq<char>, end: int) -> Seq<char>
    decreases end,
{
    if end <= 0 {
        Seq::empty()
    } else if separates_digits(text, end - 1) {
        stripped(text, end - 1)
    } else {
        stripped(text, end - 1).push(text[end - 1])
    }
}

fn digit_at(chars: &Vec<char>, i: usize) -> (digit: bool)
    requires
        i < chars@.len(),
    ensures
        digit == is_digit(chars@[i as int]),
{
    let c: char = chars[i];
    '0' <= c && c <= '9'
}

/// Takes the underscores out of numbers such as `10_000`, and leaves all others.
pub fn strip_numeric_underscores(input: &str) -> (out: String)
    ensures
        out@ == stripped(input@, input@.len() as int),
{
    let chars: Vec<char> = characters(input);
    let mut out: String = String::new();
    let mut i: usize = 0;
    while i < chars.len()
        invariant
            i <= chars@.len(),
            chars@ == input@,
            out@ == stripped(input@, i as int),
        decreases chars@.len() - i,
    {
        let c: char = chars[i];
        let separator: bool = c == '_' && i > 0 && i < chars.len() - 1 && digit_at(&chars, i - 1)
            && digit_at(&chars, i + 1);
        if !separator {
            push_char(&mut out, c);
        }
        i = i + 1;
    }
    out
}

/// Text without an underscore between digits is left as it is.
pub proof fn plain_text_is_left_alone(text: Seq<char>, end: int)
    requires
        0 <= end <= text.len(),
        forall|i: int| 0 <= i < text.len() ==> !#[trigger] separates_digits(text, i),
    ensures
        stripped(text, end) == text.take(end),
    decreases end,
{
    if end > 0 {
        plain_text_is_left_alone(text, end - 1);
        assert(!separates_digits(text, end - 1));
        assert(text.take(end) =~= text.take(end - 1).push(text[end - 1]));
    } else {
        assert(text.take(0) =~= Seq::<char>::empty());
    }
}

/// What is known of the first `end` characters once they are stripped: no underscore is left
/// between digits, and the last ones are those of the text.
proof fn lemma_stripped(text: Seq<char>, end: int)
    requires
        0 <= end <= text.len(),
    ensures
        ({
            let out = stripped(text, end);
            &&& end > 0 ==> out.len() > 0
            &&& end > 0 && !separates_digits(text, end - 1) ==> out.last() == text[end - 1]
            &&& end > 0 && separates_digits(text, end - 1) ==> out.last() == text[end - 2]
            &&& end > 0 && text[end - 1] == '_' && !separates_digits(text, end - 1) ==> if end
                == 1 {
                out.len() == 1
            } else {
                out.len() >= 2 && out[out.len() - 2] == text[end - 2]
            }
            &&& forall|i: int| 0 <= i < out.len() ==> !#[trigger] separates_digits(out, i)
        }),
    decreases end,
{
    if end > 0 {
        lemma_stripped(text, end - 1);
        let before = stripped(text, end - 1);
        let out = stripped(text, end);
        if separates_digits(text, end - 1) {
            assert(is_digit(text[end - 2]));
            assert(!separates_digits(text, end - 2));
        } else {
            assert forall|i: int| 0 <= i < out.len() implies !#[trigger] separates_digits(
                out,
                i,
            ) by {
                if i < before.len() - 1 {
                    assert(!separates_digits(before, i));
                } else if i == before.len() - 1 && separates_digits(out, i) {
                    assert(before.last() == '_');
                    assert(text[end - 2] == '_');
                    assert(is_digit(before[before.len() - 2]));
                    assert(separates_digits(text, end - 2));
                }
            }
        }
    }
}

/// Stripping leaves no underscore between digits, so that stripping twice is stripping once.
pub proof fn stripping_twice_is_stripping_once(text: Seq<char>)
    ensures
        ({
            let once = stripped(text, text.len() as int);
            &&& forall|i: int| 0 <= i < once.len() ==> !#[trigger] separates_digits(once, i)
            &&& stripped(once, once.len() as int) == once
        }),
{
    let once = stripped(text, text.len() as int);
    lemma_stripped(text, text.len() as int);
    plain_text_is_left_alone(once, once.len() as int);
    assert(once.take(once.len() as int) =~= once);
}

/// A text without its underscores.
pub open spec fn without_underscores(text: Seq<char>) -> Seq<char> {
    text.filter(|c: char| c != '_')
}

/// Stripping takes out nothing but underscores.
pub proof fn stripping_loses_only_underscores(text: Seq<char>, end: int)
    requires
        0 <= end <= text.len(),
    ensures
        without_underscores(stripped(text, end)) == without_underscores(text.take(end)),
    decreases end,
{
    reveal(Seq::filter);
    if end > 0 {
        stripping_loses_only_underscores(text, end - 1);
        assert(text.take(end).drop_last() =~= text.take(end - 1));
        assert(text.take(end).last() == text[end - 1]);
        let before = stripped(text, end - 1);
        if !separates_digits(text, end - 1) {
            assert(stripped(text, end).drop_last() =~= before);
        }
    } else {
        assert(text.take(0) =~= Seq::<char>::empty());
    }
}

/// What the library has to know of a game.
#[derive(Debug)]
pub struct EnvInfo {
    pub action_size: usize,
    pub obs_shape: Vec<usize>,
    pub obs_dim: usize,
    pub num_players: usize,
}

/// The product of the first `end` sizes.
pub open spec fn product(sizes: Seq<usize>, end: int) -> int
    decreases end,
{
    if end <= 0 {
        1
    } else {
        product(sizes, end - 1) * sizes[end - 1]
    }
}

/// Whether the products of the sizes fit the machine.
pub open spec fn products_fit(sizes: Seq<usize>) -> bool {
    forall|end: int| 0 <= end <= sizes.len() ==> #[trigger] product(sizes, end) <= usize::MAX
}

/// The number of channels of an observation: the product of all sizes but the last two,
/// and at least one.
pub open spec fn channels_spec(shape: Seq<usize>) -> int {
    let channels = product(shape, shape.len() - 2);
    if channels < 1 {
        1
    } else {
        channels
    }
}

fn product_of(sizes: &Vec<usize>, end: usize) -> (p: usize)
    requires
        end <= sizes@.len(),
        products_fit(sizes@),
    ensures
        p == product(sizes@, end as int),
{
    let mut p: usize = 1;
    let mut i: usize = 0;
    while i < end
        invariant
            i <= end <= sizes@.len(),
            products_fit(sizes@),
            p == product(sizes@, i as int),
        decreases end - i,
    {
        assert(product(sizes@, i + 1) == product(sizes@, i as int) * sizes@[i as int]);
        assert(product(sizes@, i + 1) <= usize::MAX);
        assert(p * sizes@[i as int] >= 0) by (nonlinear_arith)
            requires
                p >= 0,
                sizes@[i as int] >= 0,
        ;
        p = p * sizes[i];
        i = i + 1;
    }
    p
}

/// Whether two configurations agree in all but what is taken from the game.
pub open spec fn same_settings(a: MuZeroConfig, b: MuZeroConfig) -> bool {
    a == (MuZeroConfig {
        action_space: a.action_space,
        obs_dim: a.obs_dim,
        is_twoplayer: a.is_twoplayer,
        board_height: a.board_height,
        board_width: a.board_width,
        obs_channels: a.obs_channels,
        ..b
    })
}

/// The rule that a configuration breaks for a game, if it does: first the rules of its
/// own, then that Atari names a game, then that convolutions have a board to work on.
pub open spec fn conf_error(conf: MuZeroConfig, info: EnvInfo, rule: ConfigError) -> bool {
    if !conf.valid() {
        conf.first_broken(rule)
    } else if conf.environment is Atari && conf.atari_game is None {
        rule is AtariGameMissing
    } else {
        &&& conf.network_type is ResNet
        &&& info.obs_shape@.len() < 2
        &&& rule is FlatObservation
    }
}

/// Holds a configuration to the rules and completes it by what the game says: its
/// actions, its observations, its players and its board. What the file says of these does not
/// count; a game with flat observations has no board.
pub fn get_conf(mut conf: MuZeroConfig, info: &EnvInfo) -> (done: Result<MuZeroConfig, ConfigError>)
    requires
        products_fit(info.obs_shape@),
    ensures
        done is Ok <==> forall|rule: ConfigError| !#[trigger] conf_error(conf, *info, rule),
        done matches Err(rule) ==> conf_error(conf, *info, rule),
        done matches Ok(c) ==> {
            &&& same_settings(c, conf)
            &&& c.action_space == info.action_size
            &&& c.obs_dim == info.obs_dim
            &&& c.is_twoplayer == (info.num_players > 1)
            &&& if info.obs_shape@.len() >= 2 {
                let shape = info.obs_shape@;
                &&& c.board_height == shape[shape.len() - 2]
                &&& c.board_width == shape[shape.len() - 1]
                &&& c.obs_channels == channels_spec(shape)
            } else {
                &&& c.board_height == 0
                &&& c.board_width == 0
                &&& c.obs_channels == 0
            }
        },
{
    let ghost given = conf;
    match validate(&conf) {
        Err(rule) => {
            assert(!conf.valid());
            assert(conf_error(given, *info, rule));
            return Err(rule);
        },
        Ok(_) => {},
    }
    if conf.environment == EnvironmentName::Atari && conf.atari_game.is_none() {
        assert(conf_error(given, *info, ConfigError::AtariGameMissing));
        return Err(ConfigError::AtariGameMissing);
    }
    let len: usize = info.obs_shape.len();
    if conf.network_type == NetworkType::ResNet && len < 2 {
        assert(conf_error(given, *info, ConfigError::FlatObservation));
        return Err(ConfigError::FlatObservation);
    }
    if len < 2 {
        conf.board_height = 0;
        conf.board_width = 0;
        conf.obs_channels = 0;
    } else {
        conf.board_height = info.obs_shape[len - 2];
        conf.board_width = info.obs_shape[len - 1];
        let channels: usize = product_of(&info.obs_shape, len - 2);
        conf.obs_channels = if channels < 1 {
            1
        } else {
            channels
        };
    }
    conf.action_space = info.action_size;
    conf.obs_dim = info.obs_dim;
    conf.is_twoplayer = info.num_players > 1;
    Ok(conf)
}

impl MuZeroConfig {
    /// The sizes of the fully connected family.
    pub fn linear(&self) -> (linear: &LinearSubConfig)
        requires
            self.linear is Some,
        ensures
            *linear == self.linear->0,
    {
        self.linear.as_ref().unwrap()
    }

    /// The sizes of the convolutional family.
    pub fn resnet(&self) -> (resnet: &ResNetSubConfig)
        requires
            self.resnet is Some,
        ensures
            *resnet == self.resnet->0,
    {
        self.resnet.as_ref().unwrap()
    }

    /// The settings of search by upper confidence bounds.
    pub fn puct(&self) -> (puct: &PuctSubConfig)
        requires
            self.puct is Some,
        ensures
            *puct == self.puct->0,
    {
        self.puct.as_ref().unwrap()
    }

    /// The settings of search by sequential halving.
    pub fn gumbel(&self) -> (gumbel: &GumbelSubConfig)
        requires
            self.gumbel is Some,
        ensures
            *gumbel == self.gumbel->0,
    {
        self.gumbel.as_ref().unwrap()
    }

    /// The settings of evaluation, the built-in ones where none are given.
    pub fn eval(&self) -> (eval: EvalConfig)
        ensures
            self.eval matches Some(given) ==> eval.same(&given),
            self.eval is None ==> {
                &&& eval.interval == 500
                &&& eval.games == 100
                &&& eval.num_simulations is None
                &&& eval.random_opening_plies == 4
                &&& eval.promote_score.bits == THREE_QUARTERS_BITS
                &&& eval.demote_score.bits == QUARTER_BITS
                &&& eval.seed == 0x5EED_0E10
                &&& eval.ladder is None
            },
    {
        match &self.eval {
            Some(eval) => eval.duplicate(),
            None => EvalConfig::default(),
        }
    }

    /// Whether values are learned as distributions: not in board games, whose value is a
    /// plain number.
    pub fn categorical(&self) -> (categorical: bool)
        ensures
            categorical == !self.is_twoplayer,
    {
        !self.is_twoplayer
    }

    /// Whether a rotated or mirrored position is worth the same: on square boards, but not
    /// in chess, where pawns have a direction and castling a side.
    pub open spec fn board_symmetric_spec(&self) -> bool {
        &&& self.is_twoplayer
        &&& self.board_height > 0
        &&& self.board_height == self.board_width
        &&& !(self.environment is Chess)
    }

    /// Whether a rotated or mirrored position is worth the same.
    pub fn board_symmetric(&self) -> (symmetric: bool)
        ensures
            symmetric == self.board_symmetric_spec(),
    {
        self.is_twoplayer && self.board_height > 0 && self.board_height == self.board_width
            && self.environment != EnvironmentName::Chess
    }

    /// The part of the configuration that shapes the networks.
    pub fn net_config(&self) -> (net: NetConfig)
        ensures
            net == (NetConfig {
                network_type: self.network_type,
                obs_dim: self.obs_dim,
                action_space: self.action_space,
                support_size: self.support_size,
                categorical: !self.is_twoplayer,
                board_height: self.board_height,
                board_width: self.board_width,
                obs_channels: self.obs_channels,
                linear: self.linear,
                resnet: self.resnet,
                projection: self.projection,
            }),
    {
        NetConfig {
            network_type: self.network_type,
            obs_dim: self.obs_dim,
            action_space: self.action_space,
            support_size: self.support_size,
            categorical: self.categorical(),
            board_height: self.board_height,
            board_width: self.board_width,
            obs_channels: self.obs_channels,
            linear: self.linear,
            resnet: self.resnet,
            projection: self.projection,
        }
    }

    /// The directory of the run's checkpoint files.
    pub fn checkpoint_dir(&self) -> (dir: String)
        ensures
            dir@ == "model/"@ + self.environment.name_spec() + "/"@ + self.checkpoint_name@,
    {
        let mut dir: String = String::new();
        dir.append("model/");
        dir.append(self.environment.name());
        dir.append("/");
        dir.append(self.checkpoint_name.as_str());
        assert(dir@ =~= "model/"@ + self.environment.name_spec() + "/"@ + self.checkpoint_name@);
        dir
    }

    /// Where the weights to resume from lie: nowhere unless the run resumes.
    pub fn resume_path(&self) -> (path: Option<String>)
        ensures
            path is Some <==> self.load_from_checkpoint,
            path matches Some(p) ==> p@ == "model/"@ + self.environment.name_spec() + "/"@
                + self.checkpoint_name@ + "/latest"@,
    {
        if self.load_from_checkpoint {
            let mut path: String = self.checkpoint_dir();
            path.append("/latest");
            Some(path)
        } else {
            None
        }
    }
}

/// Built-in ladders keep every rule on ladders, and start with random play.
pub proof fn default_ladders_are_valid(environment: EnvironmentName, i: int)
    requires
        0 <= i < default_ladder_spec(environment).len(),
    ensures
        !rung_too_shallow(default_ladder_spec(environment)[i]),
        !rung_noise_wrong(default_ladder_spec(environment)[i]),
        default_ladder_spec(environment)[0] == (RungConfig::Random { elo: Single::zero_spec() }),
{
}

/// What a valid configuration is, in numbers: a discount above zero and up to one, rates above
/// zero, weights that are not below zero, sizes of at least one, and for the search and the
/// evaluation that it asks for the settings that they need.
pub proof fn valid_configurations_keep_their_bounds(conf: MuZeroConfig)
    ensures
        conf.valid() <==> {
            let zero = Single::zero_spec();
            let one = Single::one_spec();
            &&& zero.lt_spec(conf.discount) && !one.lt_spec(conf.discount)
            &&& 0 < conf.learning_rate.bits <= 0x7ff0_0000_0000_0000
            &&& 0 < conf.lr_decay_rate.bits <= 0x7ff0_0000_0000_0000
            &&& conf.weight_decay.lt_spec(one) && !conf.weight_decay.lt_spec(zero)
            &&& zero.lt_spec(conf.eps)
            &&& conf.training_batch_size >= 1 && conf.game_batch_size >= 1
            &&& conf.num_simulations >= 1 && conf.unroll_steps >= 1 && conf.n_steps >= 1
            &&& conf.buffer_size >= 1 && conf.support_size >= 1
            &&& not_below_zero(conf.value_coef) && not_below_zero(conf.policy_coef)
            &&& not_below_zero(conf.reward_coef) && not_below_zero(conf.consistency_coef)
            &&& zero.lt_spec(conf.consistency_coef) ==> conf.projection.proj_hidden >= 1
                && conf.projection.proj_out >= 1 && conf.projection.pred_hidden >= 1
            &&& conf.search_algorithm == SearchAlgorithm::Puct ==> {
                &&& conf.puct is Some
                &&& a_share(conf.puct->0.root_exploration_fraction)
                &&& zero.lt_spec(conf.puct->0.dirichlet_alpha)
                &&& conf.puct->0.temperature_schedule@.len() >= 1
            }
            &&& conf.search_algorithm == SearchAlgorithm::Gumbel ==> {
                &&& conf.gumbel is Some
                &&& conf.gumbel->0.max_num_considered_actions >= 1
                &&& zero.lt_spec(conf.gumbel->0.c_scale)
                &&& not_below_zero(conf.gumbel->0.c_visit)
            }
            &&& conf.eval matches Some(eval) ==> {
                &&& eval.games >= 2
                &&& a_share(eval.promote_score) && a_share(eval.demote_score)
                &&& eval.demote_score.lt_spec(eval.promote_score)
                &&& eval.ladder matches Some(ladder) ==> {
                    &&& conf.environment == EnvironmentName::TicTacToe || conf.environment
                        == EnvironmentName::Othello || conf.environment == EnvironmentName::Chess
                    &&& ladder@.len() >= 1
                    &&& forall|i: int|
                        0 <= i < ladder@.len() ==> fit_for_a_ladder(#[trigger] ladder@[i])
                }
            }
        },
{
    assert(!conf.breaks(ConfigError::Discount) <==> Single::zero_spec().lt_spec(conf.discount)
        && !Single::one_spec().lt_spec(conf.discount));
    if conf.valid() {
        assert(!conf.breaks(ConfigError::LearningRate));
        assert(!conf.breaks(ConfigError::LrDecayRate));
        assert(!conf.breaks(ConfigError::WeightDecay));
        assert(!conf.breaks(ConfigError::Eps));
        assert(!conf.breaks(ConfigError::TrainingBatchSize));
        assert(!conf.breaks(ConfigError::GameBatchSize));
        assert(!conf.breaks(ConfigError::NumSimulations));
        assert(!conf.breaks(ConfigError::UnrollSteps));
        assert(!conf.breaks(ConfigError::NSteps));
        assert(!conf.breaks(ConfigError::BufferSize));
        assert(!conf.breaks(ConfigError::SupportSize));
        assert(!conf.breaks(ConfigError::ValueCoef));
        assert(!conf.breaks(ConfigError::PolicyCoef));
        assert(!conf.breaks(ConfigError::RewardCoef));
        assert(!conf.breaks(ConfigError::ConsistencyCoef));
        assert(!conf.breaks(ConfigError::ProjectionSizes));
        assert(!conf.breaks(ConfigError::PuctMissing));
        assert(!conf.breaks(ConfigError::RootExplorationFraction));
        assert(!conf.breaks(ConfigError::DirichletAlpha));
        assert(!conf.breaks(ConfigError::TemperatureScheduleEmpty));
        assert(!conf.breaks(ConfigError::GumbelMissing));
        assert(!conf.breaks(ConfigError::MaxNumConsideredActions));
        assert(!conf.breaks(ConfigError::CScale));
        assert(!conf.breaks(ConfigError::CVisit));
        assert(!conf.breaks(ConfigError::EvalGames));
        assert(!conf.breaks(ConfigError::EvalScores));
        assert(!conf.breaks(ConfigError::EvalScoreOrder));
        assert(!conf.breaks(ConfigError::LadderUnsupported));
        assert(!conf.breaks(ConfigError::LadderEmpty));
        if conf.eval is Some && conf.eval->0.ladder is Some {
            let ladder = conf.eval->0.ladder->0;
            assert forall|i: int| 0 <= i < ladder@.len() implies fit_for_a_ladder(
                #[trigger] ladder@[i],
            ) by {
                assert(ladder@.len() == ladder.len());
                assert(!conf.breaks(ConfigError::RungDepth { rung: i as usize }));
                assert(!conf.breaks(ConfigError::RungEpsilon { rung: i as usize }));
            }
        }
    }
}

/// Whether a number is zero or more.
pub open spec fn not_below_zero(x: Single) -> bool {
    !x.nan() && !x.lt_spec(Single::zero_spec())
}

/// Whether a number is a share of a whole: from zero to one.
pub open spec fn a_share(x: Single) -> bool {
    !x.nan() && !x.lt_spec(Single::zero_spec()) && !Single::one_spec().lt_spec(x)
}

/// Whether a rung can stand on a ladder: it plays at random, or it searches and its noise is a
/// share of its moves.
pub open spec fn fit_for_a_ladder(rung: RungConfig) -> bool {
    match rung {
        RungConfig::Random { elo: _ } => true,
        RungConfig::AlphaBeta { depth, epsilon, elo: _ } => depth >= 1 && a_share(epsilon),
    }
}

/// The order in which broken rules are told: each before the next, and the rungs of a ladder from
/// the first one on, for each its depth before its noise.
pub proof fn rules_are_told_in_order(rung: usize, next: usize)
    requires
        rung < next,
    ensures
        0 <= ConfigError::Discount.place() < ConfigError::LearningRate.place()
            < ConfigError::LrDecayRate.place() < ConfigError::WeightDecay.place()
            < ConfigError::Eps.place() < ConfigError::TrainingBatchSize.place()
            < ConfigError::GameBatchSize.place() < ConfigError::NumSimulations.place()
            < ConfigError::UnrollSteps.place() < ConfigError::NSteps.place()
            < ConfigError::BufferSize.place() < ConfigError::SupportSize.place()
            < ConfigError::ValueCoef.place() < ConfigError::PolicyCoef.place()
            < ConfigError::RewardCoef.place() < ConfigError::ConsistencyCoef.place()
            < ConfigError::ProjectionSizes.place() < ConfigError::PuctMissing.place(),
        ConfigError::PuctMissing.place() < ConfigError::RootExplorationFraction.place()
            < ConfigError::DirichletAlpha.place() < ConfigError::TemperatureScheduleEmpty.place()
            < ConfigError::GumbelMissing.place() < ConfigError::MaxNumConsideredActions.place()
            < ConfigError::CScale.place() < ConfigError::CVisit.place()
            < ConfigError::EvalGames.place() < ConfigError::EvalScores.place()
            < ConfigError::EvalScoreOrder.place() < ConfigError::LadderUnsupported.place()
            < ConfigError::LadderEmpty.place() < (ConfigError::RungDepth { rung }).place(),
        (ConfigError::RungDepth { rung }).place() < (ConfigError::RungEpsilon { rung }).place()
            < (ConfigError::RungDepth { rung: next }).place(),
{
}

/// A rule that is told is broken, and no rule that is told before it is.
pub proof fn first_broken_rule_is_told(conf: MuZeroConfig, told: ConfigError, other: ConfigError)
    requires
        conf.first_broken(told),
        conf.breaks(other),
    ensures
        conf.breaks(told),
        !conf.valid(),
        told.place() <= other.place(),
{
}

/// A ladder gets harder from rung to rung: the ratings rise, the searches go deeper, and their
/// noise goes down until there is none. Only board games have a ladder.
pub proof fn ladders_get_harder(environment: EnvironmentName, i: int, j: int)
    requires
        0 <= i < j < default_ladder_spec(environment).len(),
    ensures
        environment == EnvironmentName::TicTacToe || environment == EnvironmentName::Othello
            || environment == EnvironmentName::Chess,
        default_ladder_spec(environment).len() == 4,
        default_ladder_spec(environment)[0] == (RungConfig::Random { elo: Single { bits: 0 } }),
        default_ladder_spec(environment)[j] matches RungConfig::AlphaBeta {
            depth,
            epsilon,
            elo,
        } && {
            &&& depth >= 1
            &&& j == 3 ==> epsilon == Single::zero_spec()
            &&& Single::zero_spec().lt_spec(elo)
            &&& default_ladder_spec(environment)[i] matches RungConfig::AlphaBeta {
                depth: shallower,
                epsilon: noisier,
                elo: lower,
            } ==> shallower < depth && epsilon.lt_spec(noisier) && lower.lt_spec(elo)
        },
{
}

/// The depths and ratings of the rungs that search: what each of them stands for, game by game.
pub proof fn rungs_are_rated(environment: EnvironmentName, i: int)
    requires
        1 <= i < default_ladder_spec(environment).len(),
    ensures
        default_ladder_spec(environment)[i] matches RungConfig::AlphaBeta {
            depth,
            epsilon,
            elo,
        } && {
            &&& environment == EnvironmentName::Othello ==> {
                &&& depth == 2 * i - 1
                &&& elo.value() == if i == 3 {
                    1400int * power_of_two(149)
                } else {
                    500 * i * power_of_two(149)
                }
            }
            &&& environment == EnvironmentName::TicTacToe ==> {
                &&& depth == if i == 3 {
                    9
                } else {
                    2 * i - 1
                }
                &&& elo.value() == 300 * i * power_of_two(149)
            }
            &&& environment == EnvironmentName::Chess ==> {
                &&& depth == i
                &&& elo.value() == 400 * i * power_of_two(149)
            }
        },
{
    let p = power_of_two(134) as int;
    assert(power_of_two(149) == 32768 * p) by {
        reveal_with_fuel(power_of_two, 16);
    }
    assert(power_of_two(135) == 2 * p && power_of_two(136) == 4 * p) by {
        reveal_with_fuel(power_of_two, 3);
    }
    assert(Single { bits: ELO_300 }.value() == 0x96_0000 * p);
    assert(Single { bits: ELO_400 }.value() == 0xc8_0000 * p);
    assert(Single { bits: ELO_500 }.value() == 0xfa_0000 * p);
    assert(Single { bits: ELO_600 }.value() == 0x96_0000 * (2 * p));
    assert(Single { bits: ELO_800 }.value() == 0xc8_0000 * (2 * p));
    assert(Single { bits: ELO_900 }.value() == 0xe1_0000 * (2 * p));
    assert(Single { bits: ELO_1000 }.value() == 0xfa_0000 * (2 * p));
    assert(Single { bits: ELO_1200 }.value() == 0x96_0000 * (4 * p));
    assert(Single { bits: ELO_1400 }.value() == 0xaf_0000 * (4 * p));
    let q = power_of_two(149) as int;
    assert(i == 1 || i == 2 || i == 3);
    if i == 1 {
        assert(300 * i * q == 300 * q && 400 * i * q == 400 * q && 500 * i * q == 500 * q)
            by (nonlinear_arith)
            requires
                i == 1,
        ;
    } else if i == 2 {
        assert(300 * i * q == 600 * q && 400 * i * q == 800 * q && 500 * i * q == 1000 * q)
            by (nonlinear_arith)
            requires
                i == 2,
        ;
    } else {
        assert(300 * i * q == 900 * q && 400 * i * q == 1200 * q) by (nonlinear_arith)
            requires
                i == 3,
        ;
    }
}

/// Character by character: an underscore goes where a digit stands before it and a digit after
/// it, and everything else stays.
pub proof fn strips_between_digits_alone(text: Seq<char>, i: int)
    requires
        0 <= i < text.len(),
    ensures
        ({
            let between = text[i] == '_' && 0 < i && i + 1 < text.len() && '0' <= text[i - 1]
                && text[i - 1] <= '9' && '0' <= text[i + 1] && text[i + 1] <= '9';
            stripped(text, i + 1) == if between {
                stripped(text, i)
            } else {
                stripped(text, i).push(text[i])
            }
        }),
        stripped(text, 0) == Seq::<char>::empty(),
{
}

/// The channels and the board make up the observation: their product is the product of all its
/// sizes, and without channels of its own a board has one.
pub proof fn channels_and_board_make_up_the_observation(
    shape: Seq<usize>,
    front: Seq<usize>,
    height: usize,
    width: usize,
)
    requires
        shape == front.push(height).push(width),
        product(front, front.len() as int) >= 1,
    ensures
        channels_spec(shape) == product(front, front.len() as int),
        product(shape, shape.len() as int) == channels_spec(shape) * height * width,
        product(seq![], 0) == 1,
        product(seq![height], 1) == height,
        channels_spec(seq![height, width]) == 1,
{
    lemma_product_of_the_front(shape, front, front.len() as int);
    assert(product(shape, front.len() as int + 1) == product(shape, front.len() as int) * height);
    assert(product(shape, front.len() as int + 2) == product(shape, front.len() as int + 1) * width);
    reveal_with_fuel(product, 2);
    assert(product(seq![height], 1) == 1 * height);
}

proof fn lemma_product_of_the_front(shape: Seq<usize>, front: Seq<usize>, end: int)
    requires
        0 <= end <= front.len() <= shape.len(),
        forall|i: int| 0 <= i < front.len() ==> shape[i] == front[i],
    ensures
        product(shape, end) == product(front, end),
    decreases end,
{
    if end > 0 {
        lemma_product_of_the_front(shape, front, end - 1);
    }
}

/// The rules on the game come after all others: a configuration for Atari has to name its game,
/// and convolutions need a board.
pub proof fn games_are_checked_last(conf: MuZeroConfig, info: EnvInfo, rule: ConfigError)
    requires
        conf.valid(),
    ensures
        conf.environment == EnvironmentName::Atari && conf.atari_game is None ==> (conf_error(
            conf,
            info,
            rule,
        ) <==> rule == ConfigError::AtariGameMissing),
        !(conf.environment == EnvironmentName::Atari && conf.atari_game is None) ==> (conf_error(
            conf,
            info,
            rule,
        ) <==> rule == ConfigError::FlatObservation && conf.network_type == NetworkType::ResNet
            && info.obs_shape@.len() <= 1),
{
}

/// No two games have one name.
pub proof fn names_tell_games_apart(a: EnvironmentName, b: EnvironmentName)
    requires
        a.name_spec() == b.name_spec(),
    ensures
        a == b,
{
    reveal_strlit("CartPole");
    reveal_strlit("TicTacToe");
    reveal_strlit("Othello");
    reveal_strlit("Chess");
    reveal_strlit("Atari");
    assert("CartPole"@[0] == 'C' && "CartPole"@.len() == 8);
    assert("TicTacToe"@[0] == 'T');
    assert("Othello"@[0] == 'O');
    assert("Chess"@[0] == 'C' && "Chess"@.len() == 5);
    assert("Atari"@[0] == 'A');
}

/// Positions may be rotated and mirrored in the board games with a square board whose rules do
/// not tell the sides of the board apart.
pub proof fn square_boards_are_symmetric(conf: MuZeroConfig)
    ensures
        conf.environment == EnvironmentName::Chess ==> !conf.board_symmetric_spec(),
        !conf.is_twoplayer ==> !conf.board_symmetric_spec(),
        conf.board_height != conf.board_width || conf.board_width == 0
            ==> !conf.board_symmetric_spec(),
        conf.environment != EnvironmentName::Chess && conf.is_twoplayer && conf.board_height
            == conf.board_width && conf.board_width > 0 ==> conf.board_symmetric_spec(),
{
}

/// Settings that are the same are the same in everything.
pub proof fn same_settings_agree_in_everything(a: EvalConfig, b: EvalConfig)
    requires
        a.same(&b),
    ensures
        a.interval == b.interval && a.games == b.games && a.num_simulations == b.num_simulations,
        a.random_opening_plies == b.random_opening_plies && a.seed == b.seed,
        a.promote_score == b.promote_score && a.demote_score == b.demote_score,
        a.ladder is None <==> b.ladder is None,
        a.ladder matches Some(rungs) ==> rungs@ == b.ladder->0@,
{
}

/// What a completed configuration keeps of the one that was given.
pub proof fn completing_keeps_the_settings(a: MuZeroConfig, b: MuZeroConfig)
    requires
        same_settings(a, b),
    ensures
        a.network_type == b.network_type && a.environment == b.environment,
        a.atari_game == b.atari_game && a.linear == b.linear && a.resnet == b.resnet,
        a.optimizer == b.optimizer && a.n_steps == b.n_steps && a.unroll_steps == b.unroll_steps,
        a.training_batch_size == b.training_batch_size && a.game_batch_size == b.game_batch_size,
        a.discount == b.discount && a.learning_rate == b.learning_rate,
        a.num_simulations == b.num_simulations && a.support_size == b.support_size,
        a.value_coef == b.value_coef && a.policy_coef == b.policy_coef,
        a.reward_coef == b.reward_coef && a.consistency_coef == b.consistency_coef,
        a.projection == b.projection && a.augmentation == b.augmentation,
        a.search_algorithm == b.search_algorithm && a.puct == b.puct && a.gumbel == b.gumbel,
        a.eval == b.eval && a.training_steps == b.training_steps && a.buffer_size == b.buffer_size,
        a.checkpoint_name == b.checkpoint_name && a.load_from_checkpoint == b.load_from_checkpoint,
{
}

/// The noise of the rungs below the last one, in moves of a hundred and as near as bits can hold it: on
/// the ladder of Othello five and two, on that of chess ten and five, and on that of tic-tac-toe twenty
/// and ten.
pub proof fn rungs_have_their_noise(environment: EnvironmentName, i: int)
    requires
        1 <= i < default_ladder_spec(environment).len() - 1,
    ensures
        default_ladder_spec(environment)[i] matches RungConfig::AlphaBeta {
            depth,
            epsilon,
            elo,
        } && {
            let hundredths = match environment {
                EnvironmentName::Othello => if i == 1 {
                    5int
                } else {
                    2
                },
                EnvironmentName::Chess => if i == 1 {
                    10int
                } else {
                    5
                },
                _ => if i == 1 {
                    20int
                } else {
                    10
                },
            };
            -100 * power_of_two(122) <= 100 * epsilon.value() - hundredths * power_of_two(149) <= 100
                * power_of_two(122)
        },
{
    let p = power_of_two(120) as int;
    assert(power_of_two(121) == 2 * p && power_of_two(122) == 4 * p && power_of_two(123) == 8 * p)
        by {
        reveal_with_fuel(power_of_two, 4);
    }
    assert(power_of_two(149) == 0x2000_0000 * p) by {
        reveal_with_fuel(power_of_two, 30);
    }
    assert(Single { bits: E_0_02 }.value() == 0xa3_d70a * p);
    assert(Single { bits: E_0_05 }.value() == 0xcc_cccd * (2 * p));
    assert(Single { bits: E_0_1 }.value() == 0xcc_cccd * (4 * p));
    assert(Single { bits: E_0_2 }.value() == 0xcc_cccd * (8 * p));
    assert(i == 1 || i == 2);
}

} // verus!
