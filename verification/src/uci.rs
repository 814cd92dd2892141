//! A chess engine's side of the UCI protocol: what it does with each line that it reads.
use vstd::prelude::*;
use vstd::string::*;
use crate::chess_bot::start_fen;
use crate::chess_eval::{clock_after, pawns_and_captures_start_the_clock};
use crate::position::{
    Move, after_move, after_move_of, board_letters, can_be_made, canonical, canonical_of,
    fen_accepted, is_accepted, is_piece_letter, lemma_squares, letter_at, named_move, parse_move,
    space_part, white_to_move, white_to_move_of,
};
use crate::text::{
    contents, decimal, decimal_spec, decimals_are_read_back, is_space, number_spec, parse_number,
    same_text, space_parts_words, words, words_hold_no_space, words_spec,
};

verus! {

/// The simulations of a search unless others are asked for.
pub const DEFAULT_SIMULATIONS: u32 = 800;

/// The leaves of a wave unless others are asked for.
pub const DEFAULT_BATCH_SIZE: u32 = 64;

/// The simulations of a search leaf by leaf unless others are asked for.
pub const LEAF_SIMULATIONS: u32 = 32;

/// The threads of a search leaf by leaf unless others are asked for.
pub const LEAF_THREADS: u32 = 4;

/// A position with its clocks.
pub struct Setup {
    pub fen: Seq<char>,
    pub clock: u32,
    pub number: u32,
}

/// The position of a game, with the clocks that a board does not keep.
#[derive(Debug)]
pub struct UciGame {
    pub fen: String,
    pub halfmove_clock: u32,
    pub fullmove_number: u32,
}

impl View for UciGame {
    type V = Setup;

    open spec fn view(&self) -> Setup {
        Setup { fen: self.fen@, clock: self.halfmove_clock, number: self.fullmove_number }
    }
}

/// The position that a game starts from.
pub open spec fn new_setup() -> Setup {
    Setup { fen: start_fen(), clock: 0, number: 1 }
}

/// Texts with a space between each two.
pub open spec fn joined(parts: Seq<Seq<char>>) -> Seq<char>
    decreases parts.len(),
{
    if parts.len() == 0 {
        Seq::empty()
    } else if parts.len() == 1 {
        parts[0]
    } else {
        joined(parts.drop_last()) + " "@ + parts.last()
    }
}

/// The position that the six fields of a FEN describe; none where the board cannot be read.
/// The clocks have their least values where they are no numbers.
pub open spec fn setup_of(fields: Seq<Seq<char>>) -> Option<Setup> {
    let board = joined(fields.take(4));
    if fen_accepted(board) {
        Some(
            Setup {
                fen: canonical_of(board),
                clock: match number_spec(fields[4]) {
                    Some(n) => n,
                    None => 0,
                },
                number: match number_spec(fields[5]) {
                    Some(n) => n,
                    None => 1,
                },
            },
        )
    } else {
        None
    }
}

/// The position after a move; none where the notation names no move, the move cannot be made,
/// or a clock is full. That a move is legal is left to the one who gives it.
pub open spec fn pushed(setup: Setup, uci: Seq<char>) -> Option<Setup> {
    match named_move(uci) {
        Some(m) => if can_be_made(setup.fen, m) && setup.clock < u32::MAX && setup.number
            < u32::MAX {
            Some(
                Setup {
                    fen: after_move_of(setup.fen, m),
                    clock: clock_after(setup.fen, m, setup.clock as int) as u32,
                    number: if white_to_move_of(setup.fen) {
                        setup.number
                    } else {
                        (setup.number + 1) as u32
                    },
                },
            )
        } else {
            None
        },
        None => None,
    }
}

/// The position after moves, one after the other.
pub open spec fn pushed_all(setup: Setup, moves: Seq<Seq<char>>) -> Option<Setup>
    decreases moves.len(),
{
    if moves.len() == 0 {
        Some(setup)
    } else {
        match pushed_all(setup, moves.drop_last()) {
            Some(before) => pushed(before, moves.last()),
            None => None,
        }
    }
}

/// The position that a position command asks for, given the words after it: the start, or
/// the six fields of a FEN, and then moves if there are any.
pub open spec fn asked_for(w: Seq<Seq<char>>) -> Option<Setup> {
    if w.len() > 0 && w[0] == "startpos"@ {
        with_moves(new_setup(), w.skip(1))
    } else if w.len() >= 7 && w[0] == "fen"@ {
        match setup_of(w.subrange(1, 7)) {
            Some(setup) => with_moves(setup, w.skip(7)),
            None => None,
        }
    } else {
        None
    }
}

/// The position after the moves that words name, where they begin with the word for it.
pub open spec fn with_moves(setup: Setup, w: Seq<Seq<char>>) -> Option<Setup> {
    if w.len() > 0 && w[0] == "moves"@ {
        pushed_all(setup, w.skip(1))
    } else {
        Some(setup)
    }
}

/// The FEN of a position with its clocks.
pub open spec fn full_fen(setup: Setup) -> Seq<char> {
    let w = words_spec(setup.fen, 0);
    let fields = if w.len() > 4 {
        w.take(4)
    } else {
        w
    };
    joined(fields) + " "@ + decimal_spec(setup.clock as nat) + " "@ + decimal_spec(
        setup.number as nat,
    )
}

fn join(parts: &Vec<String>, from: usize, end: usize) -> (text: String)
    requires
        from <= end <= parts@.len(),
    ensures
        text@ == joined(contents(parts@).subrange(from as int, end as int)),
{
    let mut text: String = String::new();
    let mut i: usize = from;
    let ghost all = contents(parts@);
    assert(all.subrange(from as int, from as int) =~= Seq::<Seq<char>>::empty());
    assert(text@ =~= Seq::<char>::empty());
    while i < end
        invariant
            from <= i <= end <= parts@.len(),
            all == contents(parts@),
            text@ == joined(all.subrange(from as int, i as int)),
        decreases end - i,
    {
        let ghost shorter = all.subrange(from as int, i as int);
        let ghost longer = all.subrange(from as int, i + 1);
        let ghost before = text@;
        if i > from {
            text.append(" ");
        }
        text.append(parts[i].as_str());
        proof {
            assert(longer.drop_last() =~= shorter);
            assert(longer.last() == parts@[i as int]@);
            if i == from {
                assert(before =~= Seq::<char>::empty());
                assert(text@ =~= longer[0]);
            } else {
                assert(text@ =~= before + " "@ + parts@[i as int]@);
            }
        }
        i = i + 1;
    }
    text
}

impl UciGame {
    /// A new game.
    pub fn new() -> (game: UciGame)
        ensures
            game@ == new_setup(),
    {
        UciGame {
            fen: "rnbqkbnr/pppppppp/8/8/8/8/PPPPPPPP/RNBQKBNR w KQkq - 0 1".to_owned(),
            halfmove_clock: 0,
            fullmove_number: 1,
        }
    }

    /// The position of six fields of a FEN among words.
    fn from_fields(fields: &Vec<String>, at: usize) -> (game: Option<UciGame>)
        requires
            at + 6 <= fields@.len(),
        ensures
            match game {
                Some(g) => Some(g@),
                None => None,
            } == setup_of(contents(fields@).subrange(at as int, at + 6)),
    {
        let ghost six = contents(fields@).subrange(at as int, at + 6);
        assert(fields@.len() == fields.len());
        let board: String = join(fields, at, at + 4);
        assert(six.take(4) =~= contents(fields@).subrange(at as int, at + 4));
        match canonical(board.as_str()) {
            Some(fen) => {
                let halfmove_clock: u32 = match parse_number(fields[at + 4].as_str()) {
                    Some(n) => n,
                    None => 0,
                };
                let fullmove_number: u32 = match parse_number(fields[at + 5].as_str()) {
                    Some(n) => n,
                    None => 1,
                };
                Some(UciGame { fen, halfmove_clock, fullmove_number })
            },
            None => None,
        }
    }

    /// Plays a move; false, and nothing is played, where its notation names none, the move
    /// cannot be made, or a clock is full.
    pub fn push_uci(&mut self, uci: &str) -> (played: bool)
        ensures
            played == (pushed(old(self)@, uci@) is Some),
            played ==> final(self)@ == pushed(old(self)@, uci@)->0,
            !played ==> *final(self) == *old(self),
    {
        if self.halfmove_clock == u32::MAX || self.fullmove_number == u32::MAX {
            return false;
        }
        let m: Move = match parse_move(uci) {
            Some(m) => m,
            None => {
                return false;
            },
        };
        if !is_accepted(self.fen.as_str()) {
            return false;
        }
        let letters: Vec<char> = board_letters(self.fen.as_str());
        let white: bool = white_to_move(self.fen.as_str());
        let their_king: char = if white {
            'k'
        } else {
            'K'
        };
        assert(m.on_board());
        let source: char = letters[m.source as usize];
        let dest: char = letters[m.dest as usize];
        if !is_piece_letter(source) || source == their_king || dest == their_king {
            return false;
        }
        proof {
            lemma_squares(self.fen@, m.source as int);
            lemma_squares(self.fen@, m.dest as int);
        }
        self.halfmove_clock = if source == 'p' || source == 'P' || is_piece_letter(dest) {
            0
        } else {
            self.halfmove_clock + 1
        };
        if !white {
            self.fullmove_number = self.fullmove_number + 1;
        }
        self.fen = after_move(self.fen.as_str(), &m);
        true
    }

    /// The FEN of the position, with its clocks.
    pub fn fen(&self) -> (fen: String)
        ensures
            fen@ == full_fen(self@),
    {
        let fields: Vec<String> = words(self.fen.as_str());
        let end: usize = if fields.len() > 4 {
            4
        } else {
            fields.len()
        };
        let mut fen: String = join(&fields, 0, end);
        proof {
            let w = contents(fields@);
            assert(w.subrange(0, end as int) =~= if w.len() > 4 {
                w.take(4)
            } else {
                w
            });
        }
        fen.append(" ");
        fen.append(decimal(self.halfmove_clock as usize).as_str());
        fen.append(" ");
        fen.append(decimal(self.fullmove_number as usize).as_str());
        assert(fen@ =~= full_fen(self@));
        fen
    }
}

/// The position that the words of a command ask for, from the word at `at` on.
pub fn apply_position_command(w: &Vec<String>, at: usize) -> (game: Option<UciGame>)
    requires
        at <= w@.len(),
    ensures
        match game {
            Some(g) => Some(g@),
            None => None,
        } == asked_for(contents(w@).skip(at as int)),
{
    let ghost all = contents(w@);
    let ghost rest = all.skip(at as int);
    if at >= w.len() {
        return None;
    }
    assert(rest[0] == w@[at as int]@);
    let mut game: UciGame = UciGame::new();
    let mut next: usize = at + 1;
    if !same_text(w[at].as_str(), "startpos") {
        if !same_text(w[at].as_str(), "fen") || w.len() - at < 7 {
            proof {
                reveal_strlit("startpos");
                reveal_strlit("fen");
            }
            return None;
        }
        assert(rest.subrange(1, 7) =~= all.subrange(at + 1, at + 7));
        match UciGame::from_fields(w, at + 1) {
            Some(g) => {
                game = g;
            },
            None => {
                return None;
            },
        }
        next = at + 7;
        assert(rest.skip(7) =~= all.skip(next as int));
    } else {
        assert(rest.skip(1) =~= all.skip(next as int));
    }
    let ghost base = game@;
    let ghost tail = all.skip(next as int);
    assert(asked_for(rest) == with_moves(base, tail));
    if next < w.len() {
        assert(tail[0] == w@[next as int]@);
    }
    if next < w.len() && same_text(w[next].as_str(), "moves") {
        let mut i: usize = next + 1;
        let ghost moves = tail.skip(1);
        assert(moves.take(0) =~= Seq::<Seq<char>>::empty());
        while i < w.len()
            invariant
                next < i <= w@.len(),
                all == contents(w@),
                tail == all.skip(next as int),
                moves == tail.skip(1),
                pushed_all(base, moves.take(i - next - 1)) == Some(game@),
                asked_for(rest) == pushed_all(base, moves),
                rest == all.skip(at as int),
            decreases w@.len() - i,
        {
            let ghost k = i - next - 1;
            proof {
                assert(moves.take(k + 1).drop_last() =~= moves.take(k));
                assert(moves.take(k + 1).last() == w@[i as int]@);
            }
            if !game.push_uci(w[i].as_str()) {
                proof {
                    assert(pushed_all(base, moves.take(k + 1)) is None);
                    lemma_refused_stays(base, moves, k + 1);
                }
                return None;
            }
            i = i + 1;
        }
        assert(moves.take(moves.len() as int) =~= moves);
    }
    Some(game)
}

/// Once a move is refused, so is every longer line.
proof fn lemma_refused_stays(setup: Setup, moves: Seq<Seq<char>>, end: int)
    requires
        0 <= end <= moves.len(),
        pushed_all(setup, moves.take(end)) is None,
    ensures
        pushed_all(setup, moves) is None,
    decreases moves.len() - end,
{
    if end < moves.len() {
        assert(moves.take(end + 1).drop_last() =~= moves.take(end));
        lemma_refused_stays(setup, moves, end + 1);
    } else {
        assert(moves.take(end) =~= moves);
    }
}

/// What an engine does with a line.
#[derive(Debug)]
pub enum Action {
    /// Nothing that shows.
    Quiet,
    /// It answers with lines.
    Say { lines: Vec<String> },
    /// It searches a position in waves.
    Search { fen: String, simulations: u32, batch_size: u32 },
    /// It searches a position leaf by leaf.
    SearchLeaves { fen: String, simulations: u32, threads: u32 },
    /// It cannot do what it is asked to.
    Refuse,
    /// It stops.
    Quit,
}

/// How an engine searches.
#[derive(Clone, Copy, Debug, PartialEq, Eq, Structural)]
pub enum Edition {
    /// In waves of leaves that are evaluated together. The settings are options.
    Waves,
    /// Leaf by leaf, with threads that share the tree. There are no options.
    Leaves,
}

/// A chess engine: its game and its settings.
#[derive(Debug)]
pub struct UciEngine {
    pub game: UciGame,
    pub edition: Edition,
    pub simulations: u32,
    /// The leaves of a wave.
    pub batch_size: u32,
    /// The threads of a search leaf by leaf.
    pub threads: u32,
}

/// The lines by which an engine says who it is.
pub open spec fn introduction(edition: Edition) -> Seq<Seq<char>> {
    match edition {
        Edition::Waves => seq![
            "id name Bee-Mamba-BatchedMCTS-tch"@,
            "id author bee-chess"@,
            "option name Simulations type spin default 800 min 1 max 100000"@,
            "option name BatchSize type spin default 64 min 1 max 512"@,
            "uciok"@,
        ],
        Edition::Leaves => seq![
            "id name Bee-Mamba-lc0MCTS-tch"@,
            "id author bee-chess"@,
            "uciok"@,
        ],
    }
}

/// The search that an engine goes into.
pub open spec fn goes_into(engine: UciEngine, action: Action) -> bool {
    match engine.edition {
        Edition::Waves => {
            &&& action is Search
            &&& action->Search_fen@ == full_fen(engine.game@)
            &&& action->Search_simulations == engine.simulations
            &&& action->batch_size == engine.batch_size
        },
        Edition::Leaves => {
            &&& action is SearchLeaves
            &&& action->SearchLeaves_fen@ == full_fen(engine.game@)
            &&& action->SearchLeaves_simulations == engine.simulations
            &&& action->threads == engine.threads
        },
    }
}

/// A setting after a command for it, given the words after that: it changes where they name
/// it and give a number.
pub open spec fn setting_after(w: Seq<Seq<char>>, name: Seq<char>, value: u32) -> u32 {
    if w.len() >= 4 && w[0] == "name"@ && w[2] == "value"@ && w[1] == name {
        match number_spec(w[3]) {
            Some(n) => n,
            None => value,
        }
    } else {
        value
    }
}

/// Whether an engine that was `before` has done what the words of a line ask for.
pub open spec fn answers(
    before: UciEngine,
    w: Seq<Seq<char>>,
    after: UciEngine,
    action: Action,
) -> bool {
    let same_settings = after == (UciEngine { game: after.game, ..before });
    if w.len() == 0 {
        action is Quiet && after == before
    } else if w[0] == "uci"@ {
        action is Say && contents(action->lines@) == introduction(
            before.edition,
        ) && after == before
    } else if w[0] == "isready"@ {
        action is Say && contents(action->lines@) == seq!["readyok"@] && after == before
    } else if w[0] == "ucinewgame"@ {
        action is Quiet && same_settings && after.game@ == new_setup()
    } else if w[0] == "setoption"@ && before.edition is Waves {
        &&& action is Quiet
        &&& after == (UciEngine {
            simulations: setting_after(w.skip(1), "Simulations"@, before.simulations),
            batch_size: setting_after(w.skip(1), "BatchSize"@, before.batch_size),
            ..before
        })
    } else if w[0] == "position"@ {
        match asked_for(w.skip(1)) {
            Some(setup) => action is Quiet && same_settings && after.game@ == setup,
            None => action is Refuse && after == before,
        }
    } else if w[0] == "go"@ {
        goes_into(before, action) && after == before
    } else if w[0] == "quit"@ {
        action is Quit && after == before
    } else {
        action is Quiet && after == before
    }
}

fn setting(w: &Vec<String>, name: &str, value: u32) -> (new: u32)
    requires
        w@.len() >= 1,
    ensures
        new == setting_after(contents(w@).skip(1), name@, value),
{
    let ghost rest = contents(w@).skip(1);
    if w.len() < 5 {
        return value;
    }
    assert(rest[0] == w@[1]@ && rest[1] == w@[2]@ && rest[2] == w@[3]@ && rest[3] == w@[4]@);
    if !same_text(w[1].as_str(), "name") || !same_text(w[3].as_str(), "value") || !same_text(
        w[2].as_str(),
        name,
    ) {
        return value;
    }
    match parse_number(w[4].as_str()) {
        Some(n) => n,
        None => value,
    }
}

impl UciEngine {
    /// An engine that searches in waves, before its first game.
    pub fn new(simulations: u32, batch_size: u32) -> (engine: UciEngine)
        ensures
            engine.game@ == new_setup(),
            engine.edition is Waves,
            engine.simulations == simulations,
            engine.batch_size == batch_size,
            engine.threads == 1,
    {
        UciEngine {
            game: UciGame::new(),
            edition: Edition::Waves,
            simulations,
            batch_size,
            threads: 1,
        }
    }

    /// An engine that searches leaf by leaf, before its first game.
    pub fn by_leaves(simulations: u32, threads: u32) -> (engine: UciEngine)
        ensures
            engine.game@ == new_setup(),
            engine.edition is Leaves,
            engine.simulations == simulations,
            engine.batch_size == 1,
            engine.threads == threads,
    {
        UciEngine {
            game: UciGame::new(),
            edition: Edition::Leaves,
            simulations,
            batch_size: 1,
            threads,
        }
    }

    /// The lines by which the engine says who it is.
    fn introduce(&self) -> (lines: Vec<String>)
        ensures
            contents(lines@) == introduction(self.edition),
    {
        let mut lines: Vec<String> = Vec::new();
        match self.edition {
            Edition::Waves => {
                lines.push("id name Bee-Mamba-BatchedMCTS-tch".to_owned());
                lines.push("id author bee-chess".to_owned());
                lines.push(
                    "option name Simulations type spin default 800 min 1 max 100000".to_owned(),
                );
                lines.push("option name BatchSize type spin default 64 min 1 max 512".to_owned());
                lines.push("uciok".to_owned());
            },
            Edition::Leaves => {
                lines.push("id name Bee-Mamba-lc0MCTS-tch".to_owned());
                lines.push("id author bee-chess".to_owned());
                lines.push("uciok".to_owned());
            },
        }
        assert(contents(lines@) =~= introduction(self.edition));
        lines
    }

    /// Does what a line asks for.
    pub fn handle(&mut self, line: &str) -> (action: Action)
        ensures
            answers(*old(self), words_spec(line@, 0), *final(self), action),
    {
        let w: Vec<String> = words(line);
        if w.len() == 0 {
            return Action::Quiet;
        }
        assert(contents(w@)[0] == w@[0]@);
        let command: &str = w[0].as_str();
        if same_text(command, "uci") {
            Action::Say { lines: self.introduce() }
        } else if same_text(command, "isready") {
            let mut lines: Vec<String> = Vec::new();
            lines.push("readyok".to_owned());
            assert(contents(lines@) =~= seq!["readyok"@]);
            Action::Say { lines }
        } else if same_text(command, "ucinewgame") {
            self.game = UciGame::new();
            Action::Quiet
        } else if same_text(command, "setoption") && self.edition == Edition::Waves {
            self.simulations = setting(&w, "Simulations", self.simulations);
            self.batch_size = setting(&w, "BatchSize", self.batch_size);
            Action::Quiet
        } else if same_text(command, "position") {
            match apply_position_command(&w, 1) {
                Some(game) => {
                    self.game = game;
                    Action::Quiet
                },
                None => Action::Refuse,
            }
        } else if same_text(command, "go") {
            let fen: String = self.game.fen();
            match self.edition {
                Edition::Waves => Action::Search {
                    fen,
                    simulations: self.simulations,
                    batch_size: self.batch_size,
                },
                Edition::Leaves => Action::SearchLeaves {
                    fen,
                    simulations: self.simulations,
                    threads: self.threads,
                },
            }
        } else if same_text(command, "quit") {
            Action::Quit
        } else {
            Action::Quiet
        }
    }
}

/// The line that tells the outcome of a search.
pub fn best_move_line(best: Option<&str>) -> (line: String)
    ensures
        line@ == "bestmove "@ + (match best {
            Some(uci) => uci@,
            None => "(none)"@,
        }),
{
    let mut line: String = String::new();
    line.append("bestmove ");
    match best {
        Some(uci) => {
            line.append(uci);
        },
        None => {
            line.append("(none)");
        },
    }
    assert(line@ =~= "bestmove "@ + (match best {
        Some(uci) => uci@,
        None => "(none)"@,
    }));
    line
}

/// A position that an engine was given is the one that it searches: whatever the game was
/// before, after a position command the search is of what the command asks for.
pub proof fn searches_what_it_was_given(
    before: UciEngine,
    command: Seq<Seq<char>>,
    between: UciEngine,
    first: Action,
    go: Seq<Seq<char>>,
    after: UciEngine,
    second: Action,
)
    requires
        command.len() > 0 && command[0] == "position"@,
        asked_for(command.skip(1)) is Some,
        answers(before, command, between, first),
        go.len() > 0 && go[0] == "go"@,
        answers(between, go, after, second),
    ensures
        goes_into(between, second),
        between.game@ == asked_for(command.skip(1))->0,
        between == (UciEngine { game: between.game, ..before }),
{
    reveal_strlit("uci");
    reveal_strlit("isready");
    reveal_strlit("ucinewgame");
    reveal_strlit("setoption");
    reveal_strlit("position");
    reveal_strlit("go");
    assert("position"@.len() == 8 && "uci"@.len() == 3 && "isready"@.len() == 7);
    assert("ucinewgame"@.len() == 10 && "setoption"@.len() == 9 && "go"@.len() == 2);
}

/// Moves are played one after the other: a line of moves is its first part and then the rest.
pub proof fn lines_are_played_in_turn(setup: Setup, first: Seq<Seq<char>>, rest: Seq<Seq<char>>)
    ensures
        pushed_all(setup, first + rest) == match pushed_all(setup, first) {
            Some(between) => pushed_all(between, rest),
            None => None,
        },
        pushed_all(setup, seq![]) == Some(setup),
        rest.len() == 1 ==> pushed_all(setup, rest) == pushed(setup, rest[0]),
    decreases rest.len(),
{
    if rest.len() == 0 {
        assert(first + rest =~= first);
    } else {
        lines_are_played_in_turn(setup, first, rest.drop_last());
        assert((first + rest).drop_last() =~= first + rest.drop_last());
        assert((first + rest).last() == rest.last());
        if rest.len() == 1 {
            assert(pushed_all(setup, rest.drop_last()) == Some(setup));
        }
    }
}

/// What a move does to the clocks. The number of the move counts on where black has moved, and
/// stays where white has; the other clock starts again where a pawn moves or something is
/// taken, and counts on otherwise. The board is that after the move that the notation names.
pub proof fn moves_run_the_clocks(setup: Setup, uci: Seq<char>)
    requires
        pushed(setup, uci) is Some,
    ensures
        named_move(uci) is Some,
        ({
            let m = named_move(uci)->0;
            let after = pushed(setup, uci)->0;
            let mover = letter_at(setup.fen, m.source as int);
            let side = space_part(setup.fen, 1);
            &&& after.fen == after_move_of(setup.fen, m)
            &&& side == seq!['w'] || side == seq!['W'] ==> after.number == setup.number
            &&& side != seq!['w'] && side != seq!['W'] ==> after.number == setup.number + 1
            &&& after.clock == if mover == 'P' || mover == 'p' || seq![
                'P', 'N', 'B', 'R', 'Q', 'K', 'p', 'n', 'b', 'r', 'q', 'k',
            ].contains(letter_at(setup.fen, m.dest as int)) {
                0
            } else {
                setup.clock + 1
            }
        }),
{
    pawns_and_captures_start_the_clock(setup.fen, named_move(uci)->0, setup.clock as int);
}

/// Texts without white space can be told apart again after they were joined.
proof fn lemma_joined_words(parts: Seq<Seq<char>>)
    requires
        forall|k: int| 0 <= k < parts.len() ==> #[trigger] unbroken(parts[k]),
    ensures
        words_spec(joined(parts), 0) == parts,
    decreases parts.len(),
{
    reveal_strlit(" ");
    if parts.len() == 0 {
        words_hold_no_space(Seq::<char>::empty(), 0);
        assert(words_spec(joined(parts), 0) =~= parts);
    } else if parts.len() == 1 {
        assert(unbroken(parts[0]));
        words_hold_no_space(parts[0], 0);
        assert(parts[0].skip(0) =~= parts[0]);
        assert(words_spec(joined(parts), 0) =~= parts);
    } else {
        let front = parts.drop_last();
        let last = parts.last();
        assert forall|k: int| 0 <= k < front.len() implies #[trigger] unbroken(front[k]) by {
            assert(unbroken(parts[k]));
        }
        lemma_joined_words(front);
        assert(unbroken(parts[parts.len() - 1]));
        words_hold_no_space(last, 0);
        assert(last.skip(0) =~= last);
        assert(joined(front) + " "@ + last =~= joined(front).push(' ') + last);
        space_parts_words(joined(front), ' ', last);
        assert(words_spec(joined(parts), 0) =~= parts);
    }
}

/// Whether a text has characters and none of them is white space.
pub open spec fn unbroken(s: Seq<char>) -> bool {
    s.len() > 0 && forall|i: int| 0 <= i < s.len() ==> !is_space(#[trigger] s[i])
}

proof fn lemma_decimals_are_unbroken(n: nat)
    ensures
        unbroken(decimal_spec(n)),
{
    decimals_are_read_back(n);
    let s = decimal_spec(n);
    assert forall|i: int| 0 <= i < s.len() implies !is_space(#[trigger] s[i]) by {
        assert('0' <= s[i] && s[i] <= '9');
    }
}

/// The FEN of a position with its clocks starts with the fields of the board, four at most,
/// and its last two fields are numbers: those of the clock and of the move.
pub proof fn clocks_follow_the_board(setup: Setup)
    ensures
        ({
            let board = words_spec(setup.fen, 0);
            let fields = words_spec(full_fen(setup), 0);
            let n = if board.len() < 4 {
                board.len() as int
            } else {
                4
            };
            &&& fields.len() == n + 2
            &&& forall|i: int| 0 <= i < n ==> #[trigger] fields[i] == board[i]
            &&& number_spec(fields[n]) == Some(setup.clock)
            &&& number_spec(fields[n + 1]) == Some(setup.number)
        }),
{
    reveal_strlit(" ");
    let w = words_spec(setup.fen, 0);
    let kept = if w.len() > 4 {
        w.take(4)
    } else {
        w
    };
    let clock = decimal_spec(setup.clock as nat);
    let number = decimal_spec(setup.number as nat);
    let fields = kept.push(clock).push(number);
    words_hold_no_space(setup.fen, 0);
    lemma_decimals_are_unbroken(setup.clock as nat);
    lemma_decimals_are_unbroken(setup.number as nat);
    assert forall|k: int| 0 <= k < kept.len() implies #[trigger] unbroken(kept[k]) by {
        assert(kept[k] == w[k]);
    }
    lemma_joined_words(kept);
    words_hold_no_space(clock, 0);
    words_hold_no_space(number, 0);
    assert(clock.skip(0) =~= clock);
    assert(number.skip(0) =~= number);
    let shorter = joined(kept).push(' ') + clock;
    space_parts_words(joined(kept), ' ', clock);
    space_parts_words(shorter, ' ', number);
    assert(full_fen(setup) =~= shorter.push(' ') + number);
    assert(words_spec(full_fen(setup), 0) =~= fields);
    decimals_are_read_back(setup.clock as nat);
    decimals_are_read_back(setup.number as nat);
}

/// The clocks of a FEN are read from its last two fields, and what they say is kept; where
/// they are no numbers, a game is at its start.
pub proof fn clocks_are_read(fields: Seq<Seq<char>>, clock: u32, number: u32)
    requires
        fields.len() == 6,
        setup_of(fields) is Some,
    ensures
        fields[4] == decimal_spec(clock as nat) ==> setup_of(fields)->0.clock == clock,
        fields[5] == decimal_spec(number as nat) ==> setup_of(fields)->0.number == number,
        number_spec(fields[4]) is None ==> setup_of(fields)->0.clock == 0,
        number_spec(fields[5]) is None ==> setup_of(fields)->0.number == 1,
        setup_of(fields)->0.fen == canonical_of(
            fields[0] + " "@ + fields[1] + " "@ + fields[2] + " "@ + fields[3],
        ),
{
    decimals_are_read_back(clock as nat);
    decimals_are_read_back(number as nat);
    let four = fields.take(4);
    assert(four.drop_last() =~= fields.take(3));
    assert(fields.take(3).drop_last() =~= fields.take(2));
    assert(fields.take(2).drop_last() =~= fields.take(1));
    reveal_with_fuel(joined, 4);
    assert(joined(four) =~= fields[0] + " "@ + fields[1] + " "@ + fields[2] + " "@ + fields[3]);
}

/// An option changes where it is named and given a number, and to that number; with another
/// name, with no number or with too few words it stays.
pub proof fn options_change_by_name(w: Seq<Seq<char>>, name: Seq<char>, value: u32, asked: u32)
    ensures
        w.len() >= 4 && w[0] == "name"@ && w[1] == name && w[2] == "value"@ && w[3]
            == decimal_spec(asked as nat) ==> setting_after(w, name, value) == asked,
        w.len() < 4 ==> setting_after(w, name, value) == value,
        w.len() >= 4 && w[1] != name ==> setting_after(w, name, value) == value,
        w.len() >= 4 && number_spec(w[3]) is None ==> setting_after(w, name, value) == value,
{
    decimals_are_read_back(asked as nat);
}

/// Which word makes an engine do what: it stops at one alone, searches at one alone, and says
/// something at two. Only a position command can be refused, and then nothing has changed; the
/// game changes at two words, and the settings at one.
pub proof fn words_do_what_they_say(
    before: UciEngine,
    w: Seq<Seq<char>>,
    after: UciEngine,
    action: Action,
)
    requires
        answers(before, w, after, action),
        w.len() > 0,
    ensures
        action is Quit <==> w[0] == "quit"@,
        action is Search <==> w[0] == "go"@ && before.edition is Waves,
        action is SearchLeaves <==> w[0] == "go"@ && before.edition is Leaves,
        action is Say <==> w[0] == "uci"@ || w[0] == "isready"@,
        action is Refuse <==> w[0] == "position"@ && asked_for(w.skip(1)) is None,
        action is Refuse ==> after == before,
        w[0] != "position"@ && w[0] != "ucinewgame"@ ==> after.game == before.game,
        w[0] != "setoption"@ ==> after.simulations == before.simulations && after.batch_size
            == before.batch_size,
        after.edition == before.edition && after.threads == before.threads,
        action is Search ==> action->Search_simulations == before.simulations && action->batch_size
            == before.batch_size,
        action is SearchLeaves ==> action->SearchLeaves_simulations == before.simulations
            && action->threads == before.threads,
        w[0] == "uci"@ ==> action->lines@.len() > 0 && action->lines@.last()@ == "uciok"@,
        w[0] == "isready"@ ==> action->lines@.len() == 1 && action->lines@[0]@ == "readyok"@,
        w[0] == "ucinewgame"@ ==> after.game.halfmove_clock == 0 && after.game.fullmove_number
            == 1 && after.game.fen@ == start_fen(),
{
    reveal_strlit("uci");
    reveal_strlit("isready");
    reveal_strlit("ucinewgame");
    reveal_strlit("setoption");
    reveal_strlit("position");
    reveal_strlit("go");
    reveal_strlit("quit");
    assert("position"@.len() == 8 && "uci"@.len() == 3 && "isready"@.len() == 7);
    assert("ucinewgame"@.len() == 10 && "setoption"@.len() == 9 && "go"@.len() == 2);
    assert("quit"@.len() == 4);
    if action is Say {
        let lines = action->lines@;
        assert(contents(lines).len() == lines.len());
        assert(lines.len() > 0 ==> contents(lines)[lines.len() - 1] == lines.last()@);
        assert(lines.len() > 0 ==> contents(lines)[0] == lines[0]@);
    }
}

/// The words after a position command: the start, or a FEN of six fields, each with moves
/// behind it or without.
pub proof fn positions_are_asked_for(w: Seq<Seq<char>>)
    ensures
        w.len() == 0 ==> asked_for(w) is None,
        w.len() > 0 && w[0] == "startpos"@ && !(w.len() > 1 && w[1] == "moves"@) ==> asked_for(w)
            == Some(new_setup()),
        w.len() > 1 && w[0] == "startpos"@ && w[1] == "moves"@ ==> asked_for(w) == pushed_all(
            new_setup(),
            w.skip(2),
        ),
        w.len() > 0 && w[0] != "startpos"@ && w[0] != "fen"@ ==> asked_for(w) is None,
        w.len() < 7 && w.len() > 0 && w[0] == "fen"@ ==> asked_for(w) is None,
        w.len() >= 7 && w[0] == "fen"@ && !(w.len() > 7 && w[7] == "moves"@) ==> asked_for(w)
            == setup_of(seq![w[1], w[2], w[3], w[4], w[5], w[6]]),
        w.len() > 7 && w[0] == "fen"@ && w[7] == "moves"@ ==> asked_for(w) == match setup_of(
            seq![w[1], w[2], w[3], w[4], w[5], w[6]],
        ) {
            Some(setup) => pushed_all(setup, w.skip(8)),
            None => None,
        },
        new_setup().fen == start_fen() && new_setup().clock == 0 && new_setup().number == 1,
{
    reveal_strlit("startpos");
    reveal_strlit("fen");
    assert("startpos"@.len() == 8 && "fen"@.len() == 3);
    if w.len() > 0 {
        assert(w.skip(1).len() > 0 ==> w.skip(1)[0] == w[1]);
        assert(w.len() > 1 ==> w.skip(1).skip(1) =~= w.skip(2));
    }
    if w.len() >= 7 {
        assert(w.subrange(1, 7) =~= seq![w[1], w[2], w[3], w[4], w[5], w[6]]);
        assert(w.len() > 7 ==> w.skip(7)[0] == w[7]);
        assert(w.len() > 7 ==> w.skip(7).skip(1) =~= w.skip(8));
    }
}

} // verus!
