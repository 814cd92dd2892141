use mz_rs::text::{decimal, parse_number, words};
use mz_rs::uci::{
    Action, DEFAULT_BATCH_SIZE, DEFAULT_SIMULATIONS, Edition, LEAF_SIMULATIONS, LEAF_THREADS,
    UciEngine, UciGame, best_move_line,
};

const START: &str = "rnbqkbnr/pppppppp/8/8/8/8/PPPPPPPP/RNBQKBNR w KQkq - 0 1";

fn engine() -> UciEngine {
    UciEngine::new(DEFAULT_SIMULATIONS, DEFAULT_BATCH_SIZE)
}

fn said(action: Action) -> Vec<String> {
    match action {
        Action::Say { lines } => lines,
        other => panic!("{other:?}"),
    }
}

fn searched(engine: &mut UciEngine) -> String {
    match engine.handle("go movetime 100") {
        Action::Search { fen, .. } => fen,
        other => panic!("{other:?}"),
    }
}

#[test]
fn engines_introduce_themselves() {
    let mut engine = engine();
    assert_eq!(
        said(engine.handle("uci")),
        [
            "id name Bee-Mamba-BatchedMCTS-tch",
            "id author bee-chess",
            "option name Simulations type spin default 800 min 1 max 100000",
            "option name BatchSize type spin default 64 min 1 max 512",
            "uciok"
        ]
    );
    assert_eq!(said(engine.handle("  isready ")), ["readyok"]);
    assert!(matches!(engine.handle(""), Action::Quiet));
    assert!(matches!(engine.handle("ponderhit"), Action::Quiet));
    assert!(matches!(engine.handle("quit"), Action::Quit));
}

#[test]
fn engines_that_search_leaf_by_leaf_have_no_options() {
    let mut engine = UciEngine::by_leaves(LEAF_SIMULATIONS, LEAF_THREADS);
    assert_eq!(engine.edition, Edition::Leaves);
    assert_eq!(
        said(engine.handle("uci")),
        ["id name Bee-Mamba-lc0MCTS-tch", "id author bee-chess", "uciok"]
    );
    assert!(matches!(engine.handle("setoption name Simulations value 100"), Action::Quiet));
    assert!(matches!(engine.handle("position startpos moves e2e4"), Action::Quiet));
    match engine.handle("go") {
        Action::SearchLeaves { fen, simulations, threads } => {
            assert_eq!(fen, "rnbqkbnr/pppppppp/8/8/4P3/8/PPPP1PPP/RNBQKBNR b KQkq - 0 1");
            assert_eq!((simulations, threads), (32, 4));
        }
        other => panic!("{other:?}"),
    }
    assert_eq!(said(engine.handle("isready")), ["readyok"]);
    assert!(matches!(engine.handle("quit"), Action::Quit));
}

#[test]
fn engines_search_what_they_are_given() {
    let mut engine = engine();
    assert_eq!(searched(&mut engine), START);
    assert!(matches!(engine.handle("position startpos moves e2e4 e7e5 g1f3"), Action::Quiet));
    assert_eq!(
        searched(&mut engine),
        "rnbqkbnr/pppp1ppp/8/4p3/4P3/5N2/PPPP1PPP/RNBQKB1R b KQkq - 1 2"
    );
    assert!(matches!(engine.handle("position fen 4k3/8/8/8/8/8/8/R3K3 w Q - 12 40"), Action::Quiet));
    assert_eq!(searched(&mut engine), "4k3/8/8/8/8/8/8/R3K3 w Q - 12 40");
    assert!(matches!(
        engine.handle("position fen 4k3/8/8/8/8/8/8/R3K3 w Q - 12 40 moves a1a7 e8d8"),
        Action::Quiet
    ));
    assert_eq!(searched(&mut engine), "3k4/R7/8/8/8/8/8/4K3 w - - 14 41");
    assert!(matches!(engine.handle("ucinewgame"), Action::Quiet));
    assert_eq!(searched(&mut engine), START);
}

#[test]
fn clocks_that_are_no_numbers_have_their_least_values() {
    let mut engine = engine();
    engine.handle("position fen 4k3/8/8/8/8/8/8/R3K3 w Q - x y");
    assert_eq!(searched(&mut engine), "4k3/8/8/8/8/8/8/R3K3 w Q - 0 1");
}

#[test]
fn bad_positions_are_refused() {
    let mut engine = engine();
    engine.handle("position startpos moves d2d4");
    let before = searched(&mut engine);
    for line in [
        "position",
        "position fen",
        "position fen 8/8 w - - 0 1",
        "position here",
        "position startpos moves d2d4 d2d4",
        "position startpos moves nonsense",
    ] {
        assert!(matches!(engine.handle(line), Action::Refuse), "{line}");
        assert_eq!(searched(&mut engine), before);
    }
}

#[test]
fn options_are_set() {
    let mut engine = engine();
    engine.handle("setoption name Simulations value 100");
    engine.handle("setoption name BatchSize value 16");
    assert_eq!((engine.simulations, engine.batch_size), (100, 16));
    for line in [
        "setoption name Simulations value many",
        "setoption name Simulations",
        "setoption Simulations value 5",
        "setoption name Hash value 5",
        "setoption name BatchSize value -1",
    ] {
        engine.handle(line);
    }
    assert_eq!((engine.simulations, engine.batch_size), (100, 16));
    match engine.handle("go") {
        Action::Search { simulations, batch_size, .. } => {
            assert_eq!((simulations, batch_size), (100, 16))
        }
        other => panic!("{other:?}"),
    }
}

#[test]
fn moves_without_room_on_the_clock_are_refused() {
    let mut game = UciGame::new();
    game.fullmove_number = u32::MAX;
    assert!(!game.push_uci("e2e4"));
    game.fullmove_number = 1;
    assert!(game.push_uci("e2e4"));
    assert_eq!((game.halfmove_clock, game.fullmove_number), (0, 1));
    assert!(game.push_uci("g8f6"));
    assert_eq!((game.halfmove_clock, game.fullmove_number), (1, 2));
}

#[test]
fn moves_are_played_as_they_are_given() {
    let mut game = UciGame::new();
    // What follows two squares counts only as the letter of a promotion.
    assert!(game.push_uci("e2e4 etc"));
    assert_eq!(game.fen(), "rnbqkbnr/pppppppp/8/8/4P3/8/PPPP1PPP/RNBQKBNR b KQkq - 0 1");
    // No rule is asked whether a move is legal.
    assert!(game.push_uci("a8a5"));
    assert_eq!(game.fen(), "1nbqkbnr/pppppppp/8/r7/4P3/8/PPPP1PPP/RNBQKBNR w KQk - 1 2");
    // Nothing stands on e2, h9 is no square, and k is no promotion.
    for uci in ["e2e3", "h1h9", "e4e5k", "e4", "", "e4\u{e9}5"] {
        assert!(!game.push_uci(uci), "{uci}");
    }
    // Kings are not taken, and not moved by the other side.
    for uci in ["d1e8", "e8e7"] {
        assert!(!game.push_uci(uci), "{uci}");
    }
    assert!(game.push_uci("g1f3"));
    assert_eq!((game.halfmove_clock, game.fullmove_number), (2, 2));
}

#[test]
fn outcomes_are_told() {
    assert_eq!(best_move_line(Some("e7e8q")), "bestmove e7e8q");
    assert_eq!(best_move_line(None), "bestmove (none)");
}

#[test]
fn texts_are_taken_apart() {
    assert_eq!(words("  a bc\t\u{a0}d\n"), ["a", "bc", "d"]);
    assert!(words(" \t ").is_empty());
    assert_eq!(parse_number("007"), Some(7));
    assert_eq!(parse_number("+12"), Some(12));
    assert_eq!(parse_number("4294967295"), Some(u32::MAX));
    for text in ["", "+", "-1", "4294967296", "1a", "1 "] {
        assert_eq!(parse_number(text), None, "{text}");
        assert_eq!(text.parse::<u32>().ok(), None);
    }
    assert_eq!(decimal(0), "0");
    assert_eq!(decimal(90210), "90210");
}
