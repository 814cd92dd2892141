use mz_rs::config::{
    BackendChoice, ConfigError, EnvInfo, EnvironmentName, EvalConfig, GumbelSubConfig,
    MuZeroConfig, NetworkType, OptimChoice, ProjectionSubConfig, PuctSubConfig, RungConfig,
    SearchAlgorithm, default_avg_window, default_consistency_coef, default_demote_score,
    default_eps, default_eval_games, default_eval_interval, default_eval_seed, default_ladder,
    default_lr_decay_rate, default_lr_decay_steps, default_promote_score,
    default_random_opening_plies, default_rate_window_secs, default_reanalyze_pool,
    default_support_size, default_unit_coef, default_value_coef, get_conf,
    strip_numeric_underscores, validate,
};
use mz_rs::single::{Double, Single};
use mz_rs::utils::TemperatureSchedule;

fn single(x: f32) -> Single {
    Single::from_bits(x.to_bits())
}

fn float(s: Single) -> f32 {
    f32::from_bits(s.to_bits())
}

fn double(x: f64) -> Double {
    Double { bits: x.to_bits() }
}

fn base_config() -> MuZeroConfig {
    MuZeroConfig {
        network_type: NetworkType::Linear,
        environment: EnvironmentName::TicTacToe,
        atari_game: None,
        linear: None,
        resnet: None,
        optimizer: OptimChoice::AdamW,
        n_steps: 10,
        unroll_steps: 5,
        training_batch_size: 64,
        game_batch_size: 16,
        discount: single(0.997),
        learning_rate: double(1e-3),
        grad_clip: single(1.0),
        weight_decay: single(1e-4),
        momentum: single(0.9),
        eps: default_eps(),
        num_simulations: 50,
        support_size: default_support_size(),
        value_coef: default_value_coef(),
        policy_coef: default_unit_coef(),
        reward_coef: default_unit_coef(),
        consistency_coef: default_consistency_coef(),
        projection: ProjectionSubConfig { proj_hidden: 256, proj_out: 256, pred_hidden: 64 },
        augmentation: false,
        lr_warmup_steps: 0,
        lr_decay_rate: default_lr_decay_rate(),
        lr_decay_steps: default_lr_decay_steps(),
        search_algorithm: SearchAlgorithm::Gumbel,
        puct: None,
        gumbel: Some(GumbelSubConfig {
            max_num_considered_actions: 16,
            c_visit: single(50.0),
            c_scale: single(0.1),
        }),
        eval: None,
        training_steps: 1000,
        train_ratio: single(1.0),
        buffer_size: 10_000,
        avg_window: default_avg_window(),
        rate_window_secs: default_rate_window_secs(),
        inference_update_interval: 10,
        checkpoint_interval: 100,
        reanalyze_fraction: single(0.0),
        reanalyze_batch_size: default_reanalyze_pool(),
        rayon_min_chunk_len: 8,
        async_training: false,
        load_from_checkpoint: false,
        training_backend: BackendChoice::Auto,
        inference_backend: BackendChoice::Auto,
        eval_backend: BackendChoice::Auto,
        checkpoint_name: String::from("run"),
        action_space: 9,
        obs_dim: 27,
        is_twoplayer: true,
        board_height: 3,
        board_width: 3,
        obs_channels: 3,
    }
}

fn puct_config() -> MuZeroConfig {
    MuZeroConfig {
        search_algorithm: SearchAlgorithm::Puct,
        puct: Some(PuctSubConfig {
            dirichlet_alpha: single(0.25),
            root_exploration_fraction: single(0.25),
            temperature_schedule: vec![TemperatureSchedule { step: None, tau: single(1.0) }],
        }),
        gumbel: None,
        ..base_config()
    }
}

fn with_eval(change: impl Fn(&mut EvalConfig)) -> MuZeroConfig {
    let mut eval = EvalConfig::default();
    change(&mut eval);
    MuZeroConfig { eval: Some(eval), ..base_config() }
}

fn with_ladder(environment: EnvironmentName, ladder: Vec<RungConfig>) -> MuZeroConfig {
    let eval = EvalConfig { ladder: Some(ladder), ..EvalConfig::default() };
    MuZeroConfig { environment, eval: Some(eval), ..base_config() }
}

fn rung(depth: usize, epsilon: f32, elo: f32) -> RungConfig {
    RungConfig::AlphaBeta { depth, epsilon: single(epsilon), elo: single(elo) }
}

#[test]
fn good_configurations_pass() {
    assert_eq!(validate(&base_config()), Ok(()));
    assert_eq!(validate(&puct_config()), Ok(()));
    assert_eq!(validate(&with_eval(|_| ())), Ok(()));
    let ladder = vec![RungConfig::Random { elo: single(0.0) }, rung(1, 1.0, 400.0)];
    assert_eq!(validate(&with_ladder(EnvironmentName::Othello, ladder)), Ok(()));
    // Projection sizes do not matter without the consistency loss.
    let none = ProjectionSubConfig { proj_hidden: 0, proj_out: 0, pred_hidden: 0 };
    let plain =
        MuZeroConfig { consistency_coef: single(0.0), projection: none, ..base_config() };
    assert_eq!(validate(&plain), Ok(()));
}

#[test]
fn numbers_out_of_range_are_refused() {
    for discount in [0.0, -0.5, 1.5, f32::NAN] {
        let conf = MuZeroConfig { discount: single(discount), ..base_config() };
        assert_eq!(validate(&conf), Err(ConfigError::Discount));
    }
    let conf = MuZeroConfig { discount: single(1.0), ..base_config() };
    assert_eq!(validate(&conf), Ok(()));
    let refused = |conf: MuZeroConfig| validate(&conf).unwrap_err();
    let base = base_config;
    assert_eq!(refused(MuZeroConfig { learning_rate: double(0.0), ..base() }), ConfigError::LearningRate);
    assert_eq!(refused(MuZeroConfig { lr_decay_rate: double(-1.0), ..base() }), ConfigError::LrDecayRate);
    assert_eq!(refused(MuZeroConfig { weight_decay: single(1.0), ..base() }), ConfigError::WeightDecay);
    assert_eq!(refused(MuZeroConfig { weight_decay: single(-0.1), ..base() }), ConfigError::WeightDecay);
    assert_eq!(refused(MuZeroConfig { eps: single(0.0), ..base() }), ConfigError::Eps);
    assert_eq!(refused(MuZeroConfig { training_batch_size: 0, ..base() }), ConfigError::TrainingBatchSize);
    assert_eq!(refused(MuZeroConfig { game_batch_size: 0, ..base() }), ConfigError::GameBatchSize);
    assert_eq!(refused(MuZeroConfig { num_simulations: 0, ..base() }), ConfigError::NumSimulations);
    assert_eq!(refused(MuZeroConfig { unroll_steps: 0, ..base() }), ConfigError::UnrollSteps);
    assert_eq!(refused(MuZeroConfig { n_steps: 0, ..base() }), ConfigError::NSteps);
    assert_eq!(refused(MuZeroConfig { buffer_size: 0, ..base() }), ConfigError::BufferSize);
    assert_eq!(refused(MuZeroConfig { support_size: 0, ..base() }), ConfigError::SupportSize);
    assert_eq!(refused(MuZeroConfig { value_coef: single(-1.0), ..base() }), ConfigError::ValueCoef);
    assert_eq!(refused(MuZeroConfig { policy_coef: single(f32::NAN), ..base() }), ConfigError::PolicyCoef);
    assert_eq!(refused(MuZeroConfig { reward_coef: single(-0.1), ..base() }), ConfigError::RewardCoef);
    assert_eq!(refused(MuZeroConfig { consistency_coef: single(-2.0), ..base() }), ConfigError::ConsistencyCoef);
    let flat = ProjectionSubConfig { proj_hidden: 256, proj_out: 0, pred_hidden: 64 };
    assert_eq!(refused(MuZeroConfig { projection: flat, ..base() }), ConfigError::ProjectionSizes);
    // Of two broken rules the first one counts.
    let both = MuZeroConfig { n_steps: 0, eps: single(-1.0), ..base() };
    assert_eq!(refused(both), ConfigError::Eps);
}

#[test]
fn search_settings_out_of_range_are_refused() {
    let refused = |conf: MuZeroConfig| validate(&conf).unwrap_err();
    assert_eq!(refused(MuZeroConfig { puct: None, ..puct_config() }), ConfigError::PuctMissing);
    let puct = |change: &dyn Fn(&mut PuctSubConfig)| {
        let mut conf = puct_config();
        change(conf.puct.as_mut().unwrap());
        validate(&conf).unwrap_err()
    };
    assert_eq!(
        puct(&|p| p.root_exploration_fraction = single(1.01)),
        ConfigError::RootExplorationFraction
    );
    assert_eq!(puct(&|p| p.dirichlet_alpha = single(0.0)), ConfigError::DirichletAlpha);
    assert_eq!(puct(&|p| p.temperature_schedule.clear()), ConfigError::TemperatureScheduleEmpty);
    assert_eq!(refused(MuZeroConfig { gumbel: None, ..base_config() }), ConfigError::GumbelMissing);
    let gumbel = |change: &dyn Fn(&mut GumbelSubConfig)| {
        let mut conf = base_config();
        change(conf.gumbel.as_mut().unwrap());
        validate(&conf).unwrap_err()
    };
    assert_eq!(
        gumbel(&|g| g.max_num_considered_actions = 0),
        ConfigError::MaxNumConsideredActions
    );
    assert_eq!(gumbel(&|g| g.c_scale = single(0.0)), ConfigError::CScale);
    assert_eq!(gumbel(&|g| g.c_visit = single(-1.0)), ConfigError::CVisit);
}

#[test]
fn evaluation_settings_out_of_range_are_refused() {
    let refused = |conf: MuZeroConfig| validate(&conf).unwrap_err();
    assert_eq!(refused(with_eval(|e| e.games = 1)), ConfigError::EvalGames);
    assert_eq!(refused(with_eval(|e| e.promote_score = single(1.5))), ConfigError::EvalScores);
    assert_eq!(refused(with_eval(|e| e.demote_score = single(-0.5))), ConfigError::EvalScores);
    assert_eq!(refused(with_eval(|e| e.demote_score = single(0.75))), ConfigError::EvalScoreOrder);
    let random = || vec![RungConfig::Random { elo: single(0.0) }];
    assert_eq!(
        refused(with_ladder(EnvironmentName::CartPole, random())),
        ConfigError::LadderUnsupported
    );
    assert_eq!(refused(with_ladder(EnvironmentName::Chess, vec![])), ConfigError::LadderEmpty);
    let mut shallow = random();
    shallow.push(rung(0, 0.0, 1.0));
    assert_eq!(
        refused(with_ladder(EnvironmentName::Chess, shallow)),
        ConfigError::RungDepth { rung: 1 }
    );
    assert_eq!(
        refused(with_ladder(EnvironmentName::Chess, vec![rung(1, 1.1, 1.0)])),
        ConfigError::RungEpsilon { rung: 0 }
    );
}

#[test]
fn underscores_leave_numbers_alone() {
    let strip = strip_numeric_underscores;
    assert_eq!(strip("buffer_size: 100_000"), "buffer_size: 100000");
    assert_eq!(strip("1_2_3 _4 5_ a_6 7_b __ 8__9"), "123 _4 5_ a_6 7_b __ 8__9");
    assert_eq!(strip(""), "");
    for text in ["1_2_3 _4 5_ a_6 7_b __ 8__9", "1_000_000", "_1_2_"] {
        let once = strip(text);
        assert_eq!(strip(&once), once);
        assert_eq!(once.replace('_', ""), text.replace('_', ""));
    }
}

fn info(action_size: usize, obs_shape: Vec<usize>, num_players: usize) -> EnvInfo {
    let obs_dim = obs_shape.iter().product();
    EnvInfo { action_size, obs_shape, obs_dim, num_players }
}

#[test]
fn games_complete_the_configuration() {
    let conf = MuZeroConfig { network_type: NetworkType::ResNet, ..base_config() };
    let conf = get_conf(conf, &info(65, vec![2, 3, 8, 9], 2)).unwrap();
    assert_eq!((conf.board_height, conf.board_width, conf.obs_channels), (8, 9, 6));
    assert_eq!((conf.action_space, conf.obs_dim, conf.is_twoplayer), (65, 432, true));
    assert!(!conf.categorical());
    assert!(!conf.board_symmetric());

    let flat = get_conf(base_config(), &info(2, vec![4], 1)).unwrap();
    assert_eq!((flat.action_space, flat.obs_dim, flat.is_twoplayer), (2, 4, false));
    assert_eq!((flat.board_height, flat.board_width, flat.obs_channels), (0, 0, 0));
    let linear = get_conf(base_config(), &info(65, vec![2, 8, 9], 2)).unwrap();
    assert_eq!((linear.board_height, linear.board_width, linear.obs_channels), (8, 9, 2));
    assert!(flat.categorical());

    let conf = MuZeroConfig { network_type: NetworkType::ResNet, ..base_config() };
    assert_eq!(get_conf(conf, &info(2, vec![4], 1)).unwrap_err(), ConfigError::FlatObservation);
    let atari = MuZeroConfig { environment: EnvironmentName::Atari, ..base_config() };
    assert_eq!(get_conf(atari, &info(2, vec![4], 1)).unwrap_err(), ConfigError::AtariGameMissing);
    let broken = MuZeroConfig { n_steps: 0, ..base_config() };
    assert_eq!(get_conf(broken, &info(2, vec![4], 1)).unwrap_err(), ConfigError::NSteps);
}

#[test]
fn chess_env_info_builds_a_resnet() {
    let conf = MuZeroConfig {
        network_type: NetworkType::ResNet,
        environment: EnvironmentName::Chess,
        ..base_config()
    };
    let conf = get_conf(conf, &info(4672, vec![119, 8, 8], 2)).unwrap();
    assert_eq!((conf.board_height, conf.board_width, conf.obs_channels), (8, 8, 119));
    assert!(!conf.board_symmetric(), "chess must opt out of dihedral augmentation");
    let othello = MuZeroConfig { environment: EnvironmentName::Othello, ..conf };
    assert!(othello.board_symmetric());
}

#[test]
fn defaults_are_what_they_seem() {
    assert_eq!(default_eval_interval(), 500);
    assert_eq!(default_eval_games(), 100);
    assert_eq!(default_random_opening_plies(), 4);
    assert_eq!(float(default_promote_score()), 0.75);
    assert_eq!(float(default_demote_score()), 0.25);
    assert_eq!(default_eval_seed(), 0x5EED_0E10);
    assert_eq!(default_avg_window(), 100);
    assert_eq!(float(default_rate_window_secs()), 10.0);
    assert_eq!(default_reanalyze_pool(), 4096);
    assert_eq!(default_support_size(), 50);
    assert_eq!(float(default_eps()), 1e-5);
    assert_eq!(float(default_value_coef()), 0.25);
    assert_eq!(float(default_unit_coef()), 1.0);
    assert_eq!(float(default_consistency_coef()), 2.0);
    assert_eq!(f64::from_bits(default_lr_decay_rate().bits), 1.0);
    assert_eq!(default_lr_decay_steps(), 350_000);
    assert_eq!(SearchAlgorithm::default(), SearchAlgorithm::Puct);
    assert_eq!(BackendChoice::default(), BackendChoice::Auto);
    let eval = base_config().eval();
    assert_eq!((eval.interval, eval.games, eval.random_opening_plies), (500, 100, 4));
}

#[test]
fn board_games_have_their_ladders() {
    let random = RungConfig::Random { elo: single(0.0) };
    assert_eq!(
        default_ladder(&EnvironmentName::Othello),
        vec![random, rung(1, 0.05, 500.0), rung(3, 0.02, 1000.0), rung(5, 0.0, 1400.0)]
    );
    assert_eq!(
        default_ladder(&EnvironmentName::TicTacToe),
        vec![random, rung(1, 0.2, 300.0), rung(3, 0.1, 600.0), rung(9, 0.0, 900.0)]
    );
    assert_eq!(
        default_ladder(&EnvironmentName::Chess),
        vec![random, rung(1, 0.1, 400.0), rung(2, 0.05, 800.0), rung(3, 0.0, 1200.0)]
    );
    assert!(default_ladder(&EnvironmentName::CartPole).is_empty());
    assert!(default_ladder(&EnvironmentName::Atari).is_empty());
    for environment in [EnvironmentName::Othello, EnvironmentName::TicTacToe, EnvironmentName::Chess] {
        let ladder = default_ladder(&environment);
        assert_eq!(validate(&with_ladder(environment, ladder)), Ok(()));
    }
}

#[test]
fn checkpoints_have_their_directory() {
    let mut conf = base_config();
    assert_eq!(conf.checkpoint_dir(), "model/TicTacToe/run");
    assert_eq!(conf.resume_path(), None);
    conf.load_from_checkpoint = true;
    assert_eq!(conf.resume_path().unwrap(), "model/TicTacToe/run/latest");
}

#[test]
fn network_settings_are_passed_on() {
    let net = base_config().net_config();
    assert_eq!((net.obs_dim, net.action_space, net.support_size), (27, 9, 50));
    assert!(!net.categorical);
    assert_eq!(net.projection.pred_hidden, 64);
    assert_eq!(puct_config().puct().temperature_schedule.len(), 1);
    assert_eq!(base_config().gumbel().max_num_considered_actions, 16);
}
