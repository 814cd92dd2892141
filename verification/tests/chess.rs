use mz_rs::chess_bot::{ChessGame, best_move, best_move_uci, chess_bot_move};
use mz_rs::chess_eval::{
    advance_halfmove_clock, encode_board, features_of_fen, halfmove_clock, piece_value, play,
    prune_underpromotions, pst, pst_value, ranked_moves,
};
use mz_rs::kept::Kept;
use mz_rs::mcts::McTree;
use mz_rs::opponent::{BoardGame, StepResult};
use mz_rs::position::{Kind, Move, Position, Status, count_bits};
use mz_rs::single::Single;
use mz_rs::wave::{
    Leaf, Pending, Predicted, SearchConfig, WaveModel, claim, search_sequential,
    search_with_stats, watchdog,
};

const START: &str = "rnbqkbnr/pppppppp/8/8/8/8/PPPPPPPP/RNBQKBNR w KQkq - 0 1";
const FOOLS_MATE: &str = "rnb1kbnr/pppp1ppp/8/4p3/6Pq/5P2/PPPPP2P/RNBQKBNR w KQkq - 1 3";
const PROMOTION: &str = "7k/P7/8/8/8/8/8/K7 w - - 3 40";

fn single(x: f32) -> Single {
    Single::from_bits(x.to_bits())
}

fn float(s: Single) -> f32 {
    f32::from_bits(s.to_bits())
}

/// Chess with one action for each legal move, in the order of the move list.
struct Board {
    fen: String,
    moves: Vec<Move>,
}

impl Board {
    fn read(fen: &str) -> Board {
        let position = Position::read(fen).unwrap();
        Board { fen: String::from(fen), moves: position.moves }
    }
}

impl BoardGame for Board {
    fn initial() -> Self {
        Board::read(START)
    }

    fn max_steps() -> usize {
        400
    }

    fn legal_mask(&self) -> Vec<bool> {
        vec![true; self.moves.len()]
    }

    fn heuristic(&self) -> Single {
        let f = features_of_fen(&self.fen).unwrap();
        let sign = if f.white_to_move { 1.0 } else { -1.0 };
        let (mine, theirs) = (f.my_moves as f32, f.opp_moves as f32);
        let mobility = (mine - theirs) / (mine + theirs + 1.0);
        let material = sign * f.material as f32 / 2000.0;
        let positional = sign * f.positional as f32 / 600.0;
        single((0.7 * material + 0.2 * positional + 0.1 * mobility).clamp(-0.99, 0.99))
    }

    fn step(&self, action: usize) -> (Self, StepResult) {
        let fen = play(&self.fen, &self.moves[action]).unwrap();
        let position = Position::read(&fen).unwrap();
        let reward = if position.status == Status::Checkmate { 1.0 } else { 0.0 };
        let done = position.status != Status::Ongoing;
        (
            Board { fen, moves: position.moves },
            StepResult { reward: single(reward), score: single(reward * 100.0), done, truncated: false },
        )
    }
}

fn bot(fen: &str, depth: u32, seed: u64) -> Option<String> {
    chess_bot_move(fen, &Board::read(fen), depth, seed)
}

#[test]
fn chess_bot_plays_a_legal_move_from_the_start_position() {
    let mv = bot("rnbqkbnr/pppppppp/8/8/8/8/PPPPPPPP/RNBQKBNR w KQkq - 0 1", 2, 42)
        .expect("start position has legal moves");
    assert_eq!(mv.len(), 4);
}

#[test]
fn takes_a_free_queen() {
    let mv = bot("4k3/8/8/q7/8/8/8/Q3K3 w - - 0 1", 1, 7).unwrap();
    assert_eq!(mv, "a1a5");
}

#[test]
fn chess_bot_none_when_game_is_already_over() {
    assert!(bot("rnb1kbnr/pppp1ppp/8/4p3/6Pq/5P2/PPPPP2P/RNBQKBNR w KQkq - 1 3", 2, 1).is_none());
}

#[test]
fn bots_need_a_readable_position_and_its_game() {
    let start = Board::read(START);
    assert!(best_move_uci("nonsense", &start, 1, 1).is_none());
    assert!(best_move_uci(PROMOTION, &start, 1, 1).is_none());
    // Depth and seed have their least values.
    let least = best_move_uci(START, &start, 0, 0);
    assert_eq!(least, best_move_uci(START, &start, 1, 1));
    assert!(least.is_some());
}

#[test]
fn bots_mate_in_one() {
    let fen = "6k1/5ppp/8/8/8/8/8/R3K3 w Q - 0 1";
    for seed in 0..4 {
        assert_eq!(bot(fen, 2, seed).unwrap(), "a1a8");
    }
}

/// A policy that likes central squares.
fn policy() -> Vec<Single> {
    (0..4096)
        .map(|i: usize| {
            let dest = i % 64;
            let centre = (dest / 8).min(7 - dest / 8) + (dest % 8).min(7 - dest % 8);
            single(centre as f32 / 4.0)
        })
        .collect()
}

#[test]
fn chess_mamba_bot_plays_a_legal_move_from_the_start_position() {
    let mv = best_move(START, &policy()).expect("start position has legal moves");
    assert!(mv.len() == 4 || mv.len() == 5);
}

#[test]
fn chess_mamba_bot_none_when_game_is_already_over() {
    assert!(best_move(FOOLS_MATE, &policy()).is_none());
}

#[test]
fn ranked_moves_lists_every_legal_move_with_the_top_pick_first() {
    let ranked = ranked_moves(START, &policy());
    assert_eq!(ranked.first().cloned(), best_move(START, &policy()));
    // Start position: 16 pawn/knight moves, no promotions to prune.
    assert_eq!(ranked.len(), 20);
    // The only moves to the centre are the double steps of the middle pawns.
    assert!(ranked[0] == "d2d4" || ranked[0] == "e2e4");
    assert!(ranked[1] == "d2d4" || ranked[1] == "e2e4");
    // And the least central ones go to the edge.
    assert!(ranked[16..].iter().all(|m| m.ends_with("a3") || m.ends_with("h3")));
}

#[test]
fn ranked_moves_empty_when_game_is_already_over() {
    assert!(ranked_moves(FOOLS_MATE, &policy()).is_empty());
    assert!(ranked_moves("not a position", &policy()).is_empty());
}

/// A network that likes central squares and judges by the count of moves.
struct Toy {
    config: SearchConfig,
    evaluated: Vec<usize>,
    /// The positions and clocks that it was asked with.
    asked: Vec<(String, u32)>,
    short_answer: bool,
}

impl Toy {
    fn new() -> Toy {
        Toy {
            config: SearchConfig::one_by_one(),
            evaluated: Vec::new(),
            asked: Vec::new(),
            short_answer: false,
        }
    }

    fn q(&self, tree: &McTree, node: usize) -> f32 {
        let n = &tree.arena[node];
        let total = n.n + n.vln;
        if total == 0 { 0.0 } else { (float(n.w) + float(n.vlw)) / total as f32 }
    }
}

impl WaveModel for Toy {
    fn stake(&self, sum: Single) -> Single {
        single(float(sum) + float(self.config.virtual_loss))
    }

    fn release(&self, sum: Single) -> Single {
        single(float(sum) - float(self.config.virtual_loss))
    }

    fn plus(&self, sum: Single, value: Single) -> Single {
        single(float(sum) + float(value))
    }

    fn score(&mut self, tree: &McTree, node: usize) -> Vec<Single> {
        let parent = &tree.arena[node];
        let parent_total = parent.n + parent.vln;
        let base = float(self.config.cpuct_base);
        let c = float(self.config.cpuct_init)
            + float(self.config.cpuct_factor) * ((parent_total as f32 + base) / base).ln();
        let mass: f32 = parent
            .children
            .iter()
            .filter(|(_, i)| tree.arena[*i].n > 0)
            .map(|(_, i)| float(tree.arena[*i].prior))
            .sum();
        let fpu = -self.q(tree, node) - float(self.config.fpu_reduction) * mass.sqrt();
        let sqrt_total = (parent_total.max(1) as f32).sqrt();
        let mut scores = Vec::new();
        for &(_, i) in &parent.children {
            let child = &tree.arena[i];
            let child_total = child.n + child.vln;
            let u = c * float(child.prior) * sqrt_total / (1.0 + child_total as f32);
            let q = if child_total > 0 { -self.q(tree, i) } else { fpu };
            scores.push(single(q + u));
        }
        scores
    }

    fn evaluate(&mut self, leaves: &Vec<Pending>) -> Vec<Predicted> {
        self.evaluated.push(leaves.len());
        self.asked.extend(leaves.iter().map(|leaf| (leaf.walk.fen.clone(), leaf.walk.clock)));
        let table = policy();
        leaves
            .iter()
            .map(|leaf| {
                let mut priors: Vec<f32> = leaf
                    .moves
                    .iter()
                    .map(|m| float(table[m.source as usize * 64 + m.dest as usize]).exp())
                    .collect();
                let sum: f32 = priors.iter().sum();
                priors.iter_mut().for_each(|p| *p /= sum);
                if self.short_answer {
                    priors.pop();
                }
                Predicted {
                    priors: priors.into_iter().map(single).collect(),
                    value: single((leaf.moves.len() as f32 / 40.0 - 0.5).tanh()),
                }
            })
            .collect()
    }
}

#[test]
fn sequential_plays_a_legal_move_from_the_start_position() {
    let mut model = Toy::new();
    let mv = search_sequential(START, 16, &mut model).expect("start position has legal moves");
    assert!(mv.len() == 4 || mv.len() == 5);
    // One evaluation for the root and one for each simulation.
    assert_eq!(model.evaluated, vec![1; 17]);
}

#[test]
fn chess_mamba_mcts_none_when_game_is_already_over() {
    let mut model = Toy::new();
    assert!(search_sequential(FOOLS_MATE, 16, &mut model).is_none());
    assert!(model.evaluated.is_empty());
}

#[test]
fn chess_mamba_mcts_batched_plays_a_legal_move_from_the_start_position() {
    let mut model = Toy::new();
    let outcome = search_with_stats(START, 16, 8, true, &mut model).unwrap();
    let mv = outcome.best_move.expect("start position has legal moves");
    assert!(mv.len() == 4 || mv.len() == 5);
    assert_eq!(outcome.cache_hits + outcome.cache_misses, 16);
    assert_eq!(model.evaluated.iter().sum::<usize>() as u64, 1 + outcome.cache_misses);
}

#[test]
fn chess_mamba_mcts_batched_none_when_game_is_already_over() {
    let mut model = Toy::new();
    let outcome = search_with_stats(FOOLS_MATE, 16, 8, true, &mut model).unwrap();
    assert!(outcome.best_move.is_none());
    let outcome = search_with_stats("8/8", 16, 8, true, &mut model).unwrap();
    assert!(outcome.best_move.is_none());
    assert_eq!((outcome.collisions, outcome.cache_hits, outcome.cache_misses), (0, 0, 0));
}

#[test]
fn lone_simulations_do_not_collide() {
    let mut model = Toy::new();
    let outcome = search_with_stats(START, 60, 1, true, &mut model).unwrap();
    assert_eq!(outcome.collisions, 0);
    assert_eq!(outcome.cache_hits + outcome.cache_misses, 60);
}

#[test]
fn searches_find_mate_in_one() {
    let mut model = Toy::new();
    let fen = "6k1/5ppp/8/8/8/8/8/R3K3 w Q - 0 1";
    assert_eq!(search_sequential(fen, 200, &mut model).unwrap(), "a1a8");
    // Simulations that end in mate need no evaluation.
    assert!(model.evaluated.len() < 201);
}

/// A network that gives one move all of its prior.
struct Straight {
    dest: [u8; 2],
    asked: Vec<u32>,
}

impl WaveModel for Straight {
    fn stake(&self, sum: Single) -> Single {
        sum
    }

    fn release(&self, sum: Single) -> Single {
        sum
    }

    fn plus(&self, sum: Single, value: Single) -> Single {
        single(float(sum) + float(value))
    }

    fn score(&mut self, tree: &McTree, node: usize) -> Vec<Single> {
        tree.arena[node].children.iter().map(|&(_, i)| tree.arena[i].prior).collect()
    }

    fn evaluate(&mut self, leaves: &Vec<Pending>) -> Vec<Predicted> {
        self.asked.extend(leaves.iter().map(|leaf| leaf.walk.clock));
        leaves
            .iter()
            .map(|leaf| Predicted {
                priors: leaf
                    .moves
                    .iter()
                    .map(|m| single(if self.dest.contains(&m.dest) { 1.0 } else { 0.0 }))
                    .collect(),
                value: single(0.0),
            })
            .collect()
    }
}

#[test]
fn networks_are_asked_with_the_clock_of_the_leaf() {
    // A king's step counts on, and the capture of the pawn on a2 starts again.
    let mut model = Straight { dest: [8, 55], asked: Vec::new() };
    let fen = "7k/8/8/8/8/8/p7/1K6 w - - 17 60";
    assert!(search_sequential(fen, 2, &mut model).is_some());
    assert_eq!(model.asked, [17, 0, 1]);
    // Without captures and pawn moves the clock counts every ply.
    let mut model = Straight { dest: [8, 55], asked: Vec::new() };
    let fen = "7k/8/8/8/8/8/8/1KQ5 w - - 17 60";
    assert!(search_sequential(fen, 2, &mut model).is_some());
    assert_eq!(model.asked, [17, 18, 19]);
    // A pawn's move starts again.
    let mut model = Straight { dest: [24, 55], asked: Vec::new() };
    let fen = "7k/8/8/8/8/8/P7/1KQ5 w - - 17 60";
    assert!(search_with_stats(fen, 2, 1, true, &mut model).is_some());
    assert_eq!(model.asked, [17, 0, 1]);
}

#[test]
fn kept_evaluations_are_those_of_their_positions() {
    // Steps of the kings in another order lead to the same position, which is evaluated once.
    let mut model = Toy::new();
    let fen = "7k/8/8/8/8/8/8/K7 w - - 0 1";
    let outcome = search_with_stats(fen, 120, 4, true, &mut model).unwrap();
    assert!(outcome.cache_hits > 0);
    assert_eq!(model.asked.len() as u64, 1 + outcome.cache_misses);
    // Without them every leaf is evaluated.
    let mut model = Toy::new();
    let outcome = search_with_stats(fen, 120, 4, false, &mut model).unwrap();
    assert_eq!(outcome.cache_hits, 0);
    assert_eq!(model.asked.len(), 121);
}

#[test]
fn evaluations_are_found_under_their_positions_only() {
    let mut kept = Kept::new();
    assert_eq!(kept.find(7, "a"), None);
    kept.keep(7, "a", &vec![single(0.5)], single(1.0));
    // Another position under the same key has its own evaluation.
    assert_eq!(kept.find(7, "b"), None);
    kept.keep(7, "b", &vec![single(0.25)], single(2.0));
    let of = |kept: &Kept, key: u64, fen: &str| {
        let evaluation = &kept.evaluations[kept.find(key, fen)?];
        Some((float(evaluation.priors[0]), float(evaluation.value)))
    };
    assert_eq!(of(&kept, 7, "a"), Some((0.5, 1.0)));
    assert_eq!(of(&kept, 7, "b"), Some((0.25, 2.0)));
    // And it is found under any key.
    assert_eq!(of(&kept, 8, "a"), Some((0.5, 1.0)));
    // A later one takes its place.
    kept.keep(7, "a", &vec![single(0.75)], single(3.0));
    assert_eq!(of(&kept, 7, "a"), Some((0.75, 3.0)));
    assert_eq!(kept.evaluations.len(), 2);
}

#[test]
fn equal_searches_say_the_same() {
    let (mut one, mut other) = (Toy::new(), Toy::new());
    let a = search_with_stats(START, 90, 8, true, &mut one).unwrap();
    let b = search_with_stats(START, 90, 8, true, &mut other).unwrap();
    assert_eq!(a.best_move, b.best_move);
    assert_eq!(
        (a.collisions, a.cache_hits, a.cache_misses),
        (b.collisions, b.cache_hits, b.cache_misses)
    );
    assert_eq!(one.asked, other.asked);
}

#[test]
fn searches_have_a_move_where_one_is_legal() {
    let stalemate = "7k/5Q2/6K1/8/8/8/8/8 b - - 0 1";
    // All that is legal is to promote.
    let promotions = "8/P7/8/8/8/4b1k1/8/7K w - - 0 1";
    assert_eq!(Position::read(promotions).unwrap().moves.len(), 4);
    for (fen, some) in [(START, true), (FOOLS_MATE, false), (stalemate, false), (promotions, true)] {
        let outcome = search_with_stats(fen, 8, 2, true, &mut Toy::new()).unwrap();
        assert_eq!(outcome.best_move.is_some(), some, "{fen}");
        assert_eq!(ranked_moves(fen, &policy()).is_empty(), !some, "{fen}");
        if let Some(uci) = outcome.best_move {
            let position = Position::read(fen).unwrap();
            assert!(position.moves.iter().any(|m| m.uci() == uci));
        }
    }
}

#[test]
fn moves_are_made_of_numbers() {
    let m = Move::from_indices(12, 60, Some(4));
    assert_eq!((m.source, m.dest, m.promotion), (12, 60, Some(Kind::Queen)));
    let m = Move::from_indices(64, 99, Some(6));
    assert_eq!((m.source, m.dest, m.promotion), (0, 0, Some(Kind::King)));
    assert_eq!(Move::from_indices(1, 2, None).promotion, None);
}

#[test]
fn pawns_are_taken_in_passing_only_where_one_stands_beside() {
    for (fen, open) in [
        // A white pawn stands beside the black one.
        ("4k3/8/8/4pP2/8/8/8/4K3 w - e6 0 1", true),
        ("4k3/8/8/3Pp3/8/8/8/4K3 w - e6 0 1", true),
        // Only the file of the square counts.
        ("4k3/8/8/4pP2/8/8/8/4K3 w - e1 0 1", true),
        // No pawn stands beside it, or none of the side to move, or on another file.
        ("4k3/8/8/4p3/8/8/8/4K3 w - e6 0 1", false),
        ("4k3/8/8/4pp2/8/8/8/4K3 w - e6 0 1", false),
        ("4k3/8/8/4p2P/8/8/8/4K3 w - e6 0 1", false),
        // A file does not go on at the other edge.
        ("4k3/8/7P/p7/8/8/8/4K3 w - a6 0 1", false),
        // No square is named.
        ("4k3/8/8/4pP2/8/8/8/4K3 w - - 0 1", false),
        ("4k3/8/8/4pP2/8/8/8/4K3 w - e 0 1", false),
        ("4k3/8/8/4pP2/8/8/8/4K3 w - e9 0 1", false),
        // Black takes on the other side of the board.
        ("4k3/8/8/8/4Pp2/8/8/4K3 b - e3 0 1", true),
        ("4k3/8/8/8/4P3/5p2/8/4K3 b - e3 0 1", false),
    ] {
        assert_eq!(Position::read(fen).unwrap().en_passant, open, "{fen}");
    }
}

#[test]
fn short_answers_end_the_search() {
    let mut model = Toy { short_answer: true, ..Toy::new() };
    assert!(search_with_stats(START, 16, 8, true, &mut model).is_none());
    assert!(search_sequential(START, 16, &mut model).is_none());
}

#[test]
fn walks_leave_no_stake_behind() {
    let mut model = Toy::new();
    let position = Position::read(START).unwrap();
    let mut tree = McTree::new(START);
    let priors = vec![single(0.05); position.moves.len()];
    tree.expand(0, &position.moves, &priors);
    let walk = tree.walk_down(START, 0, &mut model).unwrap();
    assert_eq!((walk.path.len(), walk.path[0]), (2, 0));
    assert_eq!(walk.fen, position.after(&position.moves[walk.path[1] - 1]));
    assert!(walk.path.iter().all(|&node| tree.arena[node].vln == 1));
    tree.arrive(&walk);
    assert_eq!(tree.collisions, 0);
    tree.back_up(&walk.path, single(0.5), &model);
    assert!(tree.arena.iter().all(|node| node.vln == 0 && float(node.vlw) == 0.0));
    assert_eq!((tree.arena[0].n, float(tree.arena[0].w)), (1, -0.5));
    assert_eq!((tree.arena[walk.path[1]].n, float(tree.arena[walk.path[1]].w)), (1, 0.5));
    // A clock that is full cannot count on.
    assert!(tree.walk_down(START, u32::MAX, &mut model).is_none());
}

#[test]
fn leaves_have_the_keys_of_their_positions() {
    for fen in [START, PROMOTION] {
        assert_eq!(Leaf::read(fen).hash, Position::read(fen).unwrap().hash);
    }
}

#[test]
fn clocks_of_any_height_are_searched() {
    let fen = "7k/8/8/8/8/8/8/KQ6 w - - 4000000000 1";
    assert!(search_sequential(fen, 8, &mut Toy::new()).is_some());
}

#[test]
fn mirrored_positions_have_the_opposite_balance() {
    let pairs = [
        ("r3k3/ppp5/8/3q4/8/2N5/5PPP/4K2R w - - 0 1", "4k2r/5ppp/2n5/8/3Q4/8/PPP5/R3K3 w - - 0 1"),
        ("4k3/8/8/8/8/8/P7/4K3 w - - 0 1", "4k3/p7/8/8/8/8/8/4K3 w - - 0 1"),
    ];
    for (one, other) in pairs {
        let (a, b) = (features_of_fen(one).unwrap(), features_of_fen(other).unwrap());
        assert_eq!((a.material, a.positional), (-b.material, -b.positional));
        assert_ne!(a.material, 0);
    }
}

#[test]
fn search_settings_are_what_they_seem() {
    let one = SearchConfig::one_by_one();
    assert_eq!((one.simulations, one.threads, one.batch_size), (32, 1, 1));
    let waves = SearchConfig::in_waves();
    assert_eq!((waves.simulations, waves.threads, waves.batch_size), (800, 1, 32));
    for config in [one, waves] {
        assert_eq!(float(config.virtual_loss), 1.0);
        assert_eq!(float(config.cpuct_init), 1.745);
        assert_eq!(float(config.cpuct_base), 38739.0);
        assert_eq!(float(config.cpuct_factor), 3.894);
        assert_eq!(float(config.fpu_reduction), 0.330);
    }
}

#[test]
fn watchdogs_warn_and_cut_off() {
    let step = |completed, aborted, elapsed, last| {
        let s = watchdog(completed, 10, aborted, elapsed, last, 2_000, 30_000);
        (s.warn, s.abort, s.stop)
    };
    assert_eq!(step(10, false, 50_000, 0), (false, false, true));
    assert_eq!(step(3, true, 50_000, 0), (false, false, true));
    assert_eq!(step(3, false, 2_000, 0), (false, false, false));
    assert_eq!(step(3, false, 2_001, 0), (true, false, false));
    assert_eq!(step(3, false, 30_001, 30_000), (false, true, true));
    assert_eq!(claim(0), None);
    assert_eq!(claim(5), Some(4));
}

#[test]
fn positions_are_read_as_they_stand() {
    let p = Position::read(START).unwrap();
    assert_eq!(p.moves.len(), 20);
    assert_eq!((p.white, p.black), (0xffff, 0xffff_0000_0000_0000));
    assert_eq!(p.pieces[Kind::Pawn.index()], 0x00ff_0000_0000_ff00);
    assert_eq!(p.pieces[Kind::King.index()], 0x1000_0000_0000_0010);
    assert!(p.white_to_move && !p.en_passant);
    assert_eq!((p.white_castles, p.black_castles), ((true, true), (true, true)));
    assert_eq!(p.status, Status::Ongoing);
    assert_eq!(p.mobility(), (20, 20));

    let p = Position::read("4k3/8/8/8/3pP3/8/8/4K2R b K e3 0 1").unwrap();
    assert!(!p.white_to_move && p.en_passant);
    assert_eq!((p.white_castles, p.black_castles), ((true, false), (false, false)));
    assert_eq!(Position::read(FOOLS_MATE).unwrap().status, Status::Checkmate);
    assert_eq!(Position::read("7k/5Q2/6K1/8/8/8/8/8 b - - 0 1").unwrap().status, Status::Stalemate);
    assert!(Position::read("").is_none());
    // Without a king on each side there is nothing to read, however the other got lost.
    for placement in ["8/8/8/8/8/8/8/8", "4k3/8/8/8/8/8/8/8", "4K3/8/8/8/8/8/8/8", "K7p/8/8/8/8/8/8/4k3"] {
        assert!(Position::read(&format!("{placement} w - - 0 1")).is_none());
    }
    // Ranks may end early.
    assert!(Position::read("4k/8/8/8/8/8/8/4K w - - 0 1").is_some());
    // Eighteen moving pieces fit the list of moves, and nineteen do not.
    let p = Position::read("4k3/8/8/8/8/PPPPPPPP/PPPPPPPP/4K3 w - - 0 1").unwrap();
    assert_eq!(p.moves.len(), 10);
    assert!(Position::read("4k3/8/8/8/NNNNNNNN/8/NN6/NNNNNNNK w - - 0 1").is_some());
    assert!(Position::read("4k3/8/8/8/NNNNNNNN/8/NNN5/NNNNNNNK w - - 0 1").is_none());
    // However many stand, those that cannot go anywhere do not count.
    let p = Position::read("4k3/8/8/8/PPPPPPPP/PPPPPPPP/PPPPPPPP/RBNQKNBR w - - 0 1").unwrap();
    assert_eq!(p.moves.len(), 8);
    // A pawn to take in passing needs two more places.
    assert!(Position::read("4k3/8/8/3pP3/NNNNNNNN/8/NNNNNNN1/7K w - d6 0 1").is_none());
    assert!(Position::read("4k3/8/8/3pP3/NNNNNNNN/8/NNNNNN2/7K w - d6 0 1").is_some());
    assert_eq!(count_bits(0xf0f0), 8);
    // In check there is no passing.
    assert_eq!(Position::read("4k3/8/8/8/8/8/4r3/4K3 w - - 0 1").unwrap().mobility().1, 0);
}

#[test]
fn positions_tell_themselves_apart_by_their_keys() {
    let start = Position::read(START).unwrap();
    let again = Position::read(START).unwrap();
    assert_eq!(start.hash, again.hash);
    assert_ne!(start.hash, Position::read(FOOLS_MATE).unwrap().hash);
}

#[test]
fn moves_have_their_notation() {
    let p = Position::read(PROMOTION).unwrap();
    let mut names: Vec<String> = p.moves.iter().map(|m| m.uci()).collect();
    names.sort();
    assert_eq!(names, ["a1a2", "a1b1", "a1b2", "a7a8b", "a7a8n", "a7a8q", "a7a8r"]);
    let mut kept: Vec<String> = prune_underpromotions(&p.moves).iter().map(|m| m.uci()).collect();
    kept.sort();
    assert_eq!(kept, ["a1a2", "a1b1", "a1b2", "a7a8q"]);
    assert_eq!(ranked_moves(PROMOTION, &policy()).len(), 4);
}

#[test]
fn moves_are_played() {
    let p = Position::read(START).unwrap();
    let m = *p.moves.iter().find(|m| m.uci() == "g1f3").unwrap();
    let after = play(START, &m).unwrap();
    assert!(after.starts_with("rnbqkbnr/pppppppp/8/8/8/5N2/PPPPPPPP/RNBQKB1R b KQkq -"));
    assert_eq!(p.after(&m), after);
    assert!(play(&after, &m).is_none());
    assert!(play("no board", &m).is_none());
}

#[test]
fn clocks_count_quiet_moves() {
    assert_eq!(halfmove_clock(START), 0);
    assert_eq!(halfmove_clock(PROMOTION), 3);
    assert_eq!(halfmove_clock("8/8/8/8/8/8/8/8 w - -"), 0);
    assert_eq!(halfmove_clock("8/8/8/8/8/8/8/8 w - - x 1"), 0);
    assert_eq!(halfmove_clock("8/8/8/8/8/8/8/8 w - - 17 1"), 17);
    let p = Position::read("4k3/8/8/q7/8/8/3P4/Q3K3 w - - 5 9").unwrap();
    let by_name = |name: &str| *p.moves.iter().find(|m| m.uci() == name).unwrap();
    assert_eq!(advance_halfmove_clock(&p, &by_name("e1e2"), 5), 6);
    assert_eq!(advance_halfmove_clock(&p, &by_name("a1a5"), 5), 0);
    let p = Position::read(START).unwrap();
    assert_eq!(advance_halfmove_clock(&p, &p.moves[0], 5), 0);
}

#[test]
fn boards_are_encoded_square_by_square() {
    let p = Position::read(START).unwrap();
    let planes = encode_board(&p, single(0.25));
    assert_eq!(planes.len(), 64 * 20);
    let at = |square: usize, channel: usize| float(planes[square * 20 + channel]);
    // A white rook on a1, a black king on e8, nothing on e4.
    assert_eq!((at(0, 3), at(60, 6 + 5)), (1.0, 1.0));
    assert_eq!((0..12).map(|c| at(28, c)).sum::<f32>(), 0.0);
    assert_eq!((0..12).map(|c| at(0, c)).sum::<f32>(), 1.0);
    for square in [0, 28, 63] {
        let aux: Vec<f32> = (12..20).map(|c| at(square, c)).collect();
        assert_eq!(aux, [1.0, 1.0, 1.0, 1.0, 0.0, 0.25, 1.0, 0.0]);
    }
}

#[test]
fn evaluations_weigh_material_and_places() {
    let f = features_of_fen(START).unwrap();
    assert_eq!((f.material, f.positional, f.my_moves, f.opp_moves), (0, 0, 20, 20));
    let f = features_of_fen("4k3/8/1q6/8/8/8/8/R3K3 b - - 0 1").unwrap();
    assert_eq!(f.material, piece_value(Kind::Rook) - piece_value(Kind::Queen));
    assert!(!f.white_to_move);
    assert!(features_of_fen("").is_none());
    let values: Vec<i32> = [Kind::Pawn, Kind::Knight, Kind::Bishop, Kind::Rook, Kind::Queen, Kind::King]
        .into_iter()
        .map(piece_value)
        .collect();
    assert_eq!(values, [100, 320, 330, 500, 900, 0]);
    // A square is worth the same for both sides, seen from their own.
    let table = pst(Kind::Pawn);
    for square in 0..64 {
        assert_eq!(pst_value(&table, square, true), pst_value(&table, (7 - square / 8) * 8 + square % 8, false));
    }
    assert_eq!(pst_value(&table, 48, true), 50);
}

#[test]
fn games_of_chess_go_move_by_move() {
    let mut game = ChessGame::create_chess(5000);
    assert_eq!(game.simulations(), 800);
    game.set_simulations(0);
    assert_eq!(game.simulations(), 1);
    assert!(!game.play_uci("e2e5"));
    assert_eq!(game.fen, START);
    for mv in ["f2f3", "e7e5", "g2g4"] {
        assert!(!game.is_over());
        assert!(game.play_uci(mv));
    }
    assert!(!game.play_uci("d8h4q"));
    assert!(game.play_uci("d8h4"));
    assert!(game.is_over());
    assert_eq!(game.history.len(), 4);
    assert_eq!(game.history[0], START);
    game.reset();
    assert_eq!(game.fen, START);
    assert!(game.history.is_empty());
}
