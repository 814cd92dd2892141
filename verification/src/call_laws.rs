//! What calls of the library come to, told by what goes in and what comes out, and by how the results
//! of several calls relate.
use vstd::arithmetic::power2::pow2;
use vstd::prelude::*;
use vstd::string::*;
use crate::chess_eval::{
    Features, advance_halfmove_clock, bot_depth, bot_seed, encode_board, features, kind_at,
    material_and_positional, pawns_and_captures_start_the_clock, piece_value,
    pieces_count_for_their_side, planes_show_the_position, prune_underpromotions, pst_spec,
    rank_moves,
};
use crate::config::{
    ConfigError, EnvInfo, MuZeroConfig, default_consistency_coef, default_demote_score, default_eps,
    default_promote_score, default_rate_window_secs, default_value_coef, get_conf, products_fit,
};
use crate::considered::{
    every_simulation_finds_a_candidate, occurrences, rounds_are_halved,
    sequence_of_considered_visits, table_of_considered_visits,
};
use crate::game_buffer::GameBuffer;
use crate::gumbel::value_sign;
use crate::metrics::print_due;
use crate::networks::{
    ConvProjectionConfig, ConvProjectionPlan, DynamicModelConfig, DynamicPlan, PredictionModelConfig,
    PredictionPlan, ResNetConfig, ResNetPlan,
};
use crate::opponent::{
    Opponent, children_are_looked_at_by_their_hints, identity, lemma_identity_is_permutation, stable_order,
};
use crate::othello::OthelloFeatures;
use crate::position::{
    Kind, Move, Position, en_passant_of, has_bit, legal_moves_of, letter_at,
    passing_replies_of, space_part,
};
use crate::replay_buffer::{
    BufferData, ReplayBuffer, entries, unrolls_show_the_stored_positions,
};
use crate::session::flags;
use crate::single::{Single, power_of_two};
use crate::text::{decimal, decimals_are_read_back, parse_number};
use crate::uci::best_move_line;
use crate::train::{advance_schedule, ready_to_train, reanalyze_due};
use crate::utils::{LrPlan, lr_for_step};
use crate::wave::{SearchConfig, WatchdogStep, claim, watchdog};

verus! {

/// The learning rate warms up step by step until it is full, and decays step by step where it
/// decays at all.
pub proof fn rates_warm_up_and_decay(
    warmup_steps: usize,
    decay_steps: usize,
    step: usize,
    plan: LrPlan,
    later: LrPlan,
)
    requires
        step < usize::MAX,
        call_ensures(lr_for_step, (warmup_steps, decay_steps, step), plan),
        call_ensures(lr_for_step, (warmup_steps, decay_steps, (step + 1) as usize), later),
    ensures
        plan.warmup is None <==> warmup_steps <= step,
        plan.warmup matches Some((n, of)) ==> n == step + 1 && of == warmup_steps && 1 <= n <= of,
        later.warmup matches Some((n, of)) ==> plan.warmup == Some(((n - 1) as usize, of)),
        plan.decay is None <==> decay_steps == 0,
        plan.decay matches Some((n, of)) ==> n == step && of == decay_steps,
        plan.decay matches Some((n, of)) ==> later.decay == Some(((n + 1) as usize, of)),
{
}

/// A batch is trained on once there are more positions than it takes, and from then on.
pub proof fn batches_wait_for_positions(
    stored: usize,
    more: usize,
    batch_size: usize,
    ready: bool,
    later: bool,
)
    requires
        stored <= more,
        call_ensures(ready_to_train, (stored, batch_size), ready),
        call_ensures(ready_to_train, (more, batch_size), later),
    ensures
        ready ==> later,
        stored == batch_size ==> !ready,
        stored == batch_size && more > stored ==> later,
{
}

/// Targets are refreshed for draws below the fraction: never for a fraction of zero, and for a
/// larger fraction whenever they are for a smaller one.
pub proof fn larger_fractions_refresh_more(
    draw: Single,
    fraction: Single,
    larger: Single,
    due: bool,
    sooner: bool,
)
    requires
        call_ensures(reanalyze_due, (draw, fraction), due),
        call_ensures(reanalyze_due, (draw, larger), sooner),
        fraction.lt_spec(larger),
    ensures
        due ==> sooner,
        draw == fraction ==> !due && sooner,
        !draw.lt_spec(Single::zero_spec()) && fraction == Single::zero_spec() ==> !due,
{
}

/// A schedule moves on to the next stretch after the last step of the current one, and not before;
/// a stretch without an end is never left.
pub proof fn stretches_are_left_after_their_end(
    current: usize,
    end: Option<usize>,
    step: usize,
    next: usize,
)
    requires
        current < usize::MAX,
        call_ensures(advance_schedule, (current, end, step), next),
    ensures
        end is None ==> next == current,
        end matches Some(last) ==> (step <= last ==> next == current) && (step > last ==> next
            == current + 1),
{
}

/// A line is printed once a second.
pub proof fn lines_are_a_second_apart(now: u64, last_print: u64, due: bool)
    requires
        last_print <= now,
        call_ensures(print_due, (now, last_print), due),
    ensures
        due <==> now >= last_print + 1_000_000_000,
{
}

/// Where the players alternate, what is good for a child is bad for its parent by as much; where
/// one plays alone, it is as good.
pub proof fn children_are_seen_from_their_parents(two_player: bool, sign: Single)
    requires
        call_ensures(value_sign, (two_player,), sign),
    ensures
        !sign.nan(),
        two_player ==> sign.rank() == -Single::one_spec().rank(),
        !two_player ==> sign.rank() == Single::one_spec().rank(),
        two_player <==> sign.lt_spec(Single::zero_spec()),
{
}

/// The bot searches as deep as it is asked to between one ply and four, and goes by its seed.
pub proof fn bots_search_one_to_four_plies(depth: u32, plies: usize, seed: u64, used: u64)
    requires
        call_ensures(bot_depth, (depth,), plies),
        call_ensures(bot_seed, (seed,), used),
    ensures
        1 <= plies <= 4,
        1 <= depth <= 4 ==> plies == depth,
        depth == 0 ==> plies == 1,
        depth > 4 ==> plies == 4,
        used != 0,
        seed != 0 ==> used == seed,
        seed == 0 ==> used == 1,
{
}

/// Simulations are claimed one by one until none is left.
pub proof fn simulations_are_claimed_one_by_one(remaining: u64, left: Option<u64>)
    requires
        call_ensures(claim, (remaining,), left),
    ensures
        remaining == 0 <==> left is None,
        left matches Some(n) ==> n + 1 == remaining,
{
}

/// A watchdog stops once all simulations are done or the search was cut off, and says nothing then.
/// It cuts a search off after the hard limit and stops with it, and warns after the limit without
/// progress.
pub proof fn watchdogs_bark_when_nothing_moves(
    completed: u64,
    simulations: usize,
    aborted: bool,
    elapsed: u64,
    last_progress: u64,
    stall_limit: u64,
    hard_limit: u64,
    step: WatchdogStep,
)
    requires
        last_progress <= elapsed,
        call_ensures(
            watchdog,
            (
                completed,
                simulations,
                aborted,
                elapsed,
                last_progress,
                stall_limit,
                hard_limit,
            ),
            step,
        ),
    ensures
        completed >= simulations || aborted ==> step.stop && !step.warn && !step.abort,
        completed < simulations && !aborted ==> {
            &&& step.warn <==> elapsed > last_progress + stall_limit
            &&& step.abort <==> elapsed > hard_limit
            &&& step.stop <==> step.abort
        },
{
}

/// A pawn is worth less than any other piece that can be taken, and the value of a king is not
/// counted.
pub proof fn pieces_are_worth_more_than_pawns(kind: Kind, value: i32, pawn: i32)
    requires
        call_ensures(piece_value, (kind,), value),
        call_ensures(piece_value, (Kind::Pawn,), pawn),
    ensures
        pawn == 100,
        kind is King ==> value == 0,
        kind is Knight ==> value == 320,
        kind is Bishop ==> value == 330,
        kind is Rook ==> value == 500,
        kind is Queen ==> value == 900,
        kind is Pawn || kind is King || value > 3 * pawn,
{
}

/// The visits that halving asks for, as they are computed: all considered actions get their first
/// visit before any gets its second, what is asked for never falls, and a number of actions is held
/// for its share of the simulations and then halved, but never to less than two.
pub proof fn computed_schedules_are_halved(
    num_considered: usize,
    num_simulations: usize,
    width: nat,
    sequence: Vec<usize>,
    v: int,
)
    requires
        call_ensures(sequence_of_considered_visits, (num_considered, num_simulations), sequence),
        num_considered >= 2,
        num_simulations > 0,
        width > 0,
        pow2((width - 1) as nat) < num_considered <= pow2(width),
        0 <= v < sequence@[num_simulations - 1],
        v == 0 || occurrences(sequence@, v, num_simulations as int) != occurrences(
            sequence@,
            v - 1,
            num_simulations as int,
        ),
    ensures
        sequence@.len() == num_simulations,
        forall|t: int, u: int|
            0 <= t <= u < num_simulations ==> #[trigger] sequence@[t] <= #[trigger] sequence@[u],
        occurrences(sequence@, 0, num_simulations as int) == num_considered,
        ({
            let last = sequence@[num_simulations - 1];
            let size = occurrences(sequence@, v, num_simulations as int) as int;
            let share = num_simulations as int / (width * size);
            let next = v + if share < 1 {
                1
            } else {
                share
            };
            next < last ==> occurrences(sequence@, next, num_simulations as int) == if size / 2 < 2 {
                2
            } else {
                size / 2
            }
        }),
{
    every_simulation_finds_a_candidate(num_considered as nat, num_simulations as nat);
    rounds_are_halved(num_considered as nat, num_simulations as nat, width);
}

/// Two evaluations that differ by a piece on an empty square differ by what that piece is worth
/// there: a white one adds its value and the entry of its table, and a black one takes its value
/// and the entry of the square in the mirror.
pub proof fn evaluations_differ_by_the_piece(
    pieces: Vec<u64>,
    more: Vec<u64>,
    white: u64,
    black: u64,
    kind: int,
    square: int,
    before: (i32, i32),
    with_white: (i32, i32),
    with_black: (i32, i32),
)
    requires
        pieces@.len() == 6,
        0 <= kind < 6,
        0 <= square < 64,
        !has_bit(white, square),
        !has_bit(black, square),
        forall|j: int| 0 <= j < 6 ==> !has_bit(#[trigger] pieces@[j], square),
        more@ == pieces@.update(kind, pieces@[kind] | (1u64 << square as u64)),
        call_ensures(material_and_positional, (&pieces, white, black), before),
        call_ensures(
            material_and_positional,
            (&more, white | (1u64 << square as u64), black),
            with_white,
        ),
        call_ensures(
            material_and_positional,
            (&more, white, black | (1u64 << square as u64)),
            with_black,
        ),
    ensures
        ({
            let value = seq![100int, 320, 330, 500, 900, 0][kind];
            let table = pst_spec(kind_at(kind));
            &&& with_white.0 - before.0 == value
            &&& with_white.1 - before.1 == table[(7 - square / 8) * 8 + square % 8]
            &&& before.0 - with_black.0 == value
            &&& before.1 - with_black.1 == table[square]
        }),
{
    pieces_count_for_their_side(pieces@, white, black, kind, square, true);
    pieces_count_for_their_side(pieces@, white, black, kind, square, false);
}

/// What a network is given of a position: twenty numbers for each square, of which the first twelve
/// show the piece there, white ones before black ones, and the others the castling rights, whether
/// a pawn can be taken in passing, the clock, the side to move, and nothing.
pub proof fn networks_are_given_the_position(
    position: Position,
    clock: Single,
    planes: Vec<Single>,
    square: int,
)
    requires
        position.wf(),
        call_ensures(encode_board, (&position, clock), planes),
        0 <= square < 64,
    ensures
        planes@.len() == 1280,
        ({
            let letter = letter_at(position.fen@, square);
            let rights = space_part(position.fen@, 2);
            let side = space_part(position.fen@, 1);
            let shows = |channel: int, b: bool|
                planes@[square * 20 + channel] == if b {
                    Single::one_spec()
                } else {
                    Single::zero_spec()
                };
            &&& shows(0, letter == 'P') && shows(1, letter == 'N') && shows(2, letter == 'B')
            &&& shows(3, letter == 'R') && shows(4, letter == 'Q') && shows(5, letter == 'K')
            &&& shows(6, letter == 'p') && shows(7, letter == 'n') && shows(8, letter == 'b')
            &&& shows(9, letter == 'r') && shows(10, letter == 'q') && shows(11, letter == 'k')
            &&& shows(12, rights.contains('K')) && shows(13, rights.contains('Q'))
            &&& shows(14, rights.contains('k')) && shows(15, rights.contains('q'))
            &&& shows(16, en_passant_of(position.fen@))
            &&& planes@[square * 20 + 17] == clock
            &&& shows(18, side == seq!['w'] || side == seq!['W'])
            &&& shows(19, false)
        }),
{
    planes_show_the_position(position, clock, square);
    assert forall|channel: int| 0 <= channel < 20 implies #[trigger] planes@[square * 20 + channel]
        == crate::chess_eval::plane_spec(position, clock, square, channel) by {
        let i = square * 20 + channel;
        assert(i / 20 == square && i % 20 == channel);
        assert(planes@[i] == crate::chess_eval::plane_spec(position, clock, i / 20, i % 20));
    }
}

/// What is drawn from a buffer, entry by entry: the stored position with its own policy, action and
/// reward as far as the game goes, and after its end no reward, no value and the uniform policy.
pub proof fn drawn_sequences_show_the_buffer(
    buffer: ReplayBuffer,
    idx: usize,
    steps: usize,
    two_player: bool,
    values: Vec<Single>,
    uniform: Vec<Single>,
    sequence: Vec<BufferData>,
    k: int,
)
    requires
        call_ensures(
            ReplayBuffer::sample_single,
            (&buffer, idx, steps, two_player, &values, &uniform),
            sequence,
        ),
        idx < buffer@.len(),
        0 <= k < steps,
        forall|i: int| 0 <= i < buffer@.len() ==> !(#[trigger] buffer@[i]).is_absorbing,
    ensures
        sequence@.len() == steps,
        ({
            let ended = idx + k >= buffer@.len() || exists|j: int|
                idx <= j < idx + k && (#[trigger] buffer@[j]).is_boundary;
            &&& !ended ==> {
                &&& sequence@[k].policy@ == buffer@[idx + k].policy
                &&& sequence@[k].state@ == buffer@[idx + k].state
                &&& sequence@[k].action == buffer@[idx + k].action
                &&& sequence@[k].reward == buffer@[idx + k].reward
                &&& sequence@[k].value == if two_player {
                    buffer@[idx + k].value
                } else {
                    values@[k]
                }
            }
            &&& ended ==> {
                &&& sequence@[k].policy@ == uniform@
                &&& sequence@[k].reward == Single::zero_spec()
                &&& sequence@[k].value == Single::zero_spec()
            }
            &&& sequence@[k].is_absorbing <==> ended
        }),
{
    unrolls_show_the_stored_positions(
        buffer@,
        idx as int,
        steps as int,
        two_player,
        values@,
        uniform@,
        k,
    );
    let shown = entries(sequence@);
    assert(shown.len() == sequence@.len());
    assert(shown[k] == sequence@[k]@);
}

/// The clock after a move, by what stands on its two squares.
pub proof fn clocks_go_by_the_squares_of_a_move(
    position: Position,
    m: Move,
    prev: u32,
    clock: u32,
)
    requires
        position.wf(),
        m.on_board(),
        prev < u32::MAX,
        call_ensures(advance_halfmove_clock, (&position, &m, prev), clock),
    ensures
        ({
            let source = letter_at(position.fen@, m.source as int);
            let dest = letter_at(position.fen@, m.dest as int);
            clock == if source == 'P' || source == 'p' || seq![
                'P', 'N', 'B', 'R', 'Q', 'K', 'p', 'n', 'b', 'r', 'q', 'k',
            ].contains(dest) {
                0
            } else {
                prev + 1
            }
        }),
{
    pawns_and_captures_start_the_clock(position.fen@, m, prev as int);
    assert(position.pieces@ =~= Seq::new(
        6,
        |k: int| crate::position::piece_board_of(position.fen@, k),
    ));
}

/// The moves in the order of a policy are the same moves, and none comes before one with a larger
/// entry.
pub proof fn moves_are_ranked_by_the_policy(
    moves: Vec<Move>,
    policy: Vec<Single>,
    ranked: Vec<Move>,
    k: int,
    l: int,
)
    requires
        call_ensures(rank_moves, (&moves, &policy), ranked),
        moves@.len() <= usize::MAX,
        0 <= k < l < moves@.len(),
    ensures
        ranked@.len() == moves@.len(),
        moves@.contains(ranked@[k]),
        moves@.contains(ranked@[l]),
        !policy@[ranked@[k].source * 64 + ranked@[k].dest].lt_spec(
            policy@[ranked@[l].source * 64 + ranked@[l].dest],
        ),
{
    let scores = crate::chess_eval::move_scores(moves@, policy@);
    let order = choose|order: Seq<usize>|
        #[trigger] stable_order(scores, identity(moves@.len()), order) && order.len()
            == moves@.len() && forall|i: int|
            0 <= i < ranked@.len() ==> #[trigger] ranked@[i] == moves@[order[i] as int];
    lemma_identity_is_permutation(moves@.len());
    children_are_looked_at_by_their_hints(scores, identity(moves@.len()), order, k, l);
    assert(ranked@[k] == moves@[order[k] as int]);
    assert(ranked@[l] == moves@[order[l] as int]);
}

/// Of moves that turn a pawn into something only those to a queen are kept, and all other moves
/// are.
pub proof fn promotions_are_to_queens(moves: Vec<Move>, kept: Vec<Move>, m: Move)
    requires
        call_ensures(prune_underpromotions, (&moves,), kept),
    ensures
        kept@.contains(m) <==> moves@.contains(m) && (m.promotion is None || m.promotion == Some(
            Kind::Queen,
        )),
{
    let keep = |m: Move| !m.underpromotes();
    if kept@.contains(m) {
        moves@.lemma_filter_contains_rev(keep, m);
        let i = choose|i: int| 0 <= i < kept@.len() && kept@[i] == m;
        moves@.lemma_filter_pred(keep, i);
    }
    if moves@.contains(m) && !m.underpromotes() {
        let i = choose|i: int| 0 <= i < moves@.len() && moves@[i] == m;
        moves@.lemma_filter_contains(keep, i);
    }
}

/// A number that is written down is read as what it was.
pub proof fn numbers_are_read_as_written(n: usize, text: String, given: &str, read: Option<u32>)
    requires
        call_ensures(decimal, (n,), text),
        given@ == text@,
        call_ensures(parse_number, (given,), read),
    ensures
        n <= u32::MAX ==> read == Some(n as u32),
{
    decimals_are_read_back(n as nat);
}

/// A position of all games is found in its own game: the games before it hold as many positions as
/// are before it, less its place in the game.
pub proof fn positions_are_found_in_their_games(
    buffer: GameBuffer,
    flat: usize,
    next: usize,
    place: (usize, usize),
    after: (usize, usize),
)
    requires
        buffer.wf(),
        next == flat + 1,
        next < buffer.total_positions,
        call_ensures(GameBuffer::locate, (&buffer, flat), place),
        call_ensures(GameBuffer::locate, (&buffer, next), after),
        place.1 + 1 < buffer.games@[place.0 as int]@.len(),
    ensures
        after.0 == place.0,
        after.1 == place.1 + 1,
{
    crate::game_buffer::positions_have_one_place(
        buffer.games@,
        next as int,
        place.0 as int,
        place.1 + 1,
        after.0 as int,
        after.1 as int,
    );
}

/// A completed configuration takes from the game what it says of its actions, observations, players
/// and board, whatever the file says of these.
pub proof fn games_complete_the_configuration(
    conf: MuZeroConfig,
    other: MuZeroConfig,
    info: EnvInfo,
    done: Result<MuZeroConfig, ConfigError>,
    other_done: Result<MuZeroConfig, ConfigError>,
)
    requires
        products_fit(info.obs_shape@),
        call_ensures(get_conf, (conf, &info), done),
        call_ensures(get_conf, (other, &info), other_done),
        done is Ok,
        other_done is Ok,
    ensures
        done->Ok_0.action_space == info.action_size,
        done->Ok_0.obs_dim == info.obs_dim,
        done->Ok_0.is_twoplayer <==> info.num_players >= 2,
        done->Ok_0.board_height == other_done->Ok_0.board_height,
        done->Ok_0.board_width == other_done->Ok_0.board_width,
        done->Ok_0.obs_channels == other_done->Ok_0.obs_channels,
        info.obs_shape@.len() >= 2 ==> done->Ok_0.board_width == info.obs_shape@.last(),
        info.obs_shape@.len() >= 2 ==> done->Ok_0.board_height == info.obs_shape@[info.obs_shape@.len()
            - 2],
        info.obs_shape@.len() == 2 ==> done->Ok_0.obs_channels == 1,
        info.obs_shape@.len() == 3 && info.obs_shape@[0] > 0 ==> done->Ok_0.obs_channels
            == info.obs_shape@[0],
        info.obs_shape@.len() < 2 ==> done->Ok_0.board_height == 0 && done->Ok_0.board_width == 0,
        conf.valid(),
        done->Ok_0.num_simulations == conf.num_simulations,
{
    reveal_with_fuel(crate::config::product, 3);
    if !conf.valid() {
        let rule = choose|rule: ConfigError| conf.breaks(rule);
        lemma_some_rule_is_first(conf, rule);
        let first = choose|first: ConfigError| conf.first_broken(first);
        assert(crate::config::conf_error(conf, info, first));
    }
}

/// Where a rule is broken, one of the broken rules comes first.
proof fn lemma_some_rule_is_first(conf: MuZeroConfig, rule: ConfigError)
    requires
        conf.breaks(rule),
    ensures
        exists|first: ConfigError| conf.first_broken(first),
    decreases rule.place(),
{
    if !conf.first_broken(rule) {
        let other = choose|other: ConfigError|
            other.place() < rule.place() && #[trigger] conf.breaks(other);
        lemma_some_rule_is_first(conf, other);
    }
}

/// Flags are numbers: one where a flag is set, and zero where it is not.
pub proof fn flags_are_ones_and_zeros(mask: Vec<bool>, numbers: Vec<u8>, i: int)
    requires
        call_ensures(flags, (&mask,), numbers),
        0 <= i < mask@.len(),
    ensures
        numbers@.len() == mask@.len(),
        mask@[i] ==> numbers@[i] == 1,
        !mask@[i] ==> numbers@[i] == 0,
{
}

/// What an evaluation is made of belongs to the position: its own legal moves, and its side to
/// move.
pub proof fn features_are_of_their_position(
    position: Position,
    f: Features,
    counts: (usize, usize),
)
    requires
        position.wf(),
        call_ensures(features, (&position,), f),
        call_ensures(Position::mobility, (&position,), counts),
    ensures
        f.my_moves == legal_moves_of(position.fen@).len(),
        f.my_moves == counts.0 && f.opp_moves == counts.1,
        passing_replies_of(position.fen@) is None ==> counts.1 == 0,
        passing_replies_of(position.fen@) matches Some(n) ==> counts.1 == n,
        f.white_to_move <==> space_part(position.fen@, 1) == seq!['w'] || space_part(
            position.fen@,
            1,
        ) == seq!['W'],
{
}

/// What the networks take and give: the dynamics give a hidden state and one reward, the prediction
/// one value and a number for each action, from what goes in.
pub proof fn networks_give_what_they_are_for(
    dynamic: DynamicModelConfig,
    d: DynamicPlan,
    prediction: PredictionModelConfig,
    p: PredictionPlan,
)
    requires
        call_ensures(DynamicModelConfig::plan, (&dynamic,), d),
        call_ensures(PredictionModelConfig::plan, (&prediction,), p),
    ensures
        d.backbone1.input == dynamic.hidden_input,
        d.hidden_head2.output == dynamic.hidden_output,
        d.reward_head2.output == 1,
        d.backbone3.output == d.hidden_head1.input && d.backbone3.output == d.reward_head1.input,
        p.backbone1.input == prediction.hidden_size,
        p.policy2.output == prediction.action_space,
        p.value2.output == 1,
        p.backbone2.output == p.value1.input && p.backbone2.output == p.policy1.input,
{
}

/// The heads of the convolutional networks fit their boards: the stem takes the channels of an
/// observation, the dynamics those of a hidden state and one for each action, and the flat layers
/// one number for each square and channel that is left.
pub proof fn heads_fit_their_boards(
    net: ResNetConfig,
    plan: ResNetPlan,
    projection: ConvProjectionConfig,
    c: ConvProjectionPlan,
)
    requires
        2 * (net.board_height * net.board_width) <= usize::MAX,
        net.channels + net.action_space <= usize::MAX,
        call_ensures(ResNetConfig::plan, (&net,), plan),
        call_ensures(ConvProjectionConfig::plan, (&projection,), c),
    ensures
        plan.stem.c_in == net.obs_channels && plan.stem.c_out == net.channels,
        plan.fuse.c_in == net.channels + net.action_space && plan.fuse.c_out == net.channels,
        plan.stem.kernel == 3 && plan.fuse.kernel == 3,
        plan.policy_conv.c_in == net.channels && plan.value_conv.c_in == net.channels
            && plan.reward_conv.c_in == net.channels,
        plan.policy_conv.kernel == 1 && plan.value_conv.kernel == 1 && plan.reward_conv.kernel == 1,
        plan.policy_fc.input == plan.policy_conv.c_out * (net.board_height * net.board_width),
        plan.policy_fc.output == net.action_space,
        plan.value_fc2.output == 1 && plan.reward_fc2.output == 1,
        plan.channels == net.channels && plan.n_blocks == net.n_blocks,
        1 <= c.pool_height <= 6 && 1 <= c.pool_width <= 6,
        c.proj1.input == c.reduce.c_out * c.pool_height * c.pool_width,
        c.reduce.c_in == projection.channels && c.reduce.kernel == 1,
        c.proj2.output == projection.proj_out && c.pred2.output == projection.proj_out,
{
    assert(plan.policy_conv.c_out == 2);
    let squares = net.board_height * net.board_width;
    assert(0 <= squares) by (nonlinear_arith)
        requires
            squares == net.board_height * net.board_width,
    ;
}

/// Runs with different names have different directories for their weights, and a run resumes from
/// the latest ones in its own.
pub proof fn runs_have_directories_of_their_own(
    a: MuZeroConfig,
    b: MuZeroConfig,
    dir: String,
    other: String,
    path: Option<String>,
)
    requires
        call_ensures(MuZeroConfig::checkpoint_dir, (&a,), dir),
        call_ensures(MuZeroConfig::checkpoint_dir, (&b,), other),
        call_ensures(MuZeroConfig::resume_path, (&a,), path),
    ensures
        a.environment == b.environment ==> (dir@ == other@ <==> a.checkpoint_name@
            == b.checkpoint_name@),
        a.load_from_checkpoint <==> path is Some,
        path matches Some(p) ==> p@ == dir@ + "/latest"@,
{
    if a.environment == b.environment && dir@ == other@ {
        let front = "model/"@ + a.environment.name_spec() + "/"@;
        let x = a.checkpoint_name@;
        let y = b.checkpoint_name@;
        assert(dir@ =~= front + x);
        assert(other@ =~= front + y);
        assert(dir@.len() == front.len() + x.len() && other@.len() == front.len() + y.len());
        assert forall|j: int| 0 <= j < x.len() implies x[j] == y[j] by {
            assert(dir@[front.len() + j] == x[j]);
            assert(other@[front.len() + j] == y[j]);
        }
        assert(x =~= y);
    }
}

/// Row `m` of the table is the schedule for `m` actions.
pub proof fn tables_hold_a_schedule_for_each_number(
    max_considered: usize,
    num_simulations: usize,
    table: Vec<Vec<usize>>,
    m: usize,
    sequence: Vec<usize>,
)
    requires
        call_ensures(table_of_considered_visits, (max_considered, num_simulations), table),
        max_considered < usize::MAX,
        m <= max_considered,
        call_ensures(sequence_of_considered_visits, (m, num_simulations), sequence),
    ensures
        table@.len() == max_considered + 1,
        table@[m as int]@ == sequence@,
{
}

/// The two sides see one board of discs from opposite sides: what the one has, the other's opponent
/// has, and every lead is turned round.
pub proof fn sides_see_one_board(
    own: u64,
    opp: u64,
    own_moves: u64,
    opp_moves: u64,
    f: OthelloFeatures,
    g: OthelloFeatures,
)
    requires
        own & opp == 0,
        opp & own == 0,
        call_ensures(crate::othello::features, (own, opp, own_moves, opp_moves), f),
        call_ensures(crate::othello::features, (opp, own, opp_moves, own_moves), g),
    ensures
        f.own_discs == g.opp_discs && f.opp_discs == g.own_discs,
        f.own_moves == g.opp_moves && f.opp_moves == g.own_moves,
        f.corner_lead == -g.corner_lead,
        f.weighted == -g.weighted,
        f.endgame == g.endgame,
        f.endgame <==> f.own_discs + f.opp_discs >= 52,
{
    crate::othello::sides_see_opposite_leads(own, opp, 64);
}

/// The outcome of a search is told by its notation, and different moves are told by different
/// lines.
pub proof fn lines_tell_the_best_move(a: &str, b: &str, line: String, other: String, none: String)
    requires
        call_ensures(best_move_line, (Some(a),), line),
        call_ensures(best_move_line, (Some(b),), other),
        call_ensures(best_move_line, (None,), none),
    ensures
        line@ == "bestmove "@ + a@,
        line@ == other@ ==> a@ == b@,
        none@ == "bestmove "@ + "(none)"@,
{
    let front = "bestmove "@;
    if line@ == other@ {
        assert(line@.len() == front.len() + a@.len() && other@.len() == front.len() + b@.len());
        assert forall|j: int| 0 <= j < a@.len() implies a@[j] == b@[j] by {
            assert(line@[front.len() + j] == a@[j]);
            assert(other@[front.len() + j] == b@[j]);
        }
        assert(a@ =~= b@);
    }
}

/// The numbers of a search in waves are those that they are meant to be, to the nearest that bits can
/// hold: 1.745, 38739, 3.894 and 0.33, in units of two to the power of minus 149. Both ways of
/// searching share them, and the waves take more simulations and more leaves at once.
pub proof fn searches_share_their_settings(leaf: SearchConfig, wave: SearchConfig)
    requires
        call_ensures(SearchConfig::one_by_one, (), leaf),
        call_ensures(SearchConfig::in_waves, (), wave),
    ensures
        -500 * power_of_two(126) <= 1000 * leaf.cpuct_init.value() - 1745 * power_of_two(149) <= 500
            * power_of_two(126),
        leaf.cpuct_base.value() == 38739 * power_of_two(149),
        -1000 * power_of_two(126) <= 1000 * leaf.cpuct_factor.value() - 3894 * power_of_two(149)
            <= 1000 * power_of_two(126),
        -50 * power_of_two(124) <= 100 * leaf.fpu_reduction.value() - 33 * power_of_two(149) <= 50
            * power_of_two(124),
        leaf.virtual_loss.value() == power_of_two(149),
        wave == (SearchConfig {
            simulations: wave.simulations,
            batch_size: wave.batch_size,
            ..leaf
        }),
        leaf.batch_size == 1 && leaf.threads == 1 && leaf.simulations == 32,
        wave.batch_size == 32 && wave.simulations == 800,
        leaf.deadlock_stall_millis == 8 * 1000 && leaf.hard_timeout_millis == 60 * 1000,
{
    let p = power_of_two(124) as int;
    assert(power_of_two(126) == 4 * p && power_of_two(127) == 8 * p) by {
        reveal_with_fuel(power_of_two, 4);
    }
    assert(power_of_two(149) == 0x200_0000 * p) by {
        reveal_with_fuel(power_of_two, 26);
    }
    assert(power_of_two(141) == 0x2_0000 * p) by {
        reveal_with_fuel(power_of_two, 18);
    }
    assert(p >= 1) by {
        assert(power_of_two(124) >= 0);
        lemma_power_is_positive(124);
    }
    assert(leaf.cpuct_init.value() == 0xdf_5c29 * (4 * p));
    assert(leaf.cpuct_base.value() == 0x97_5300 * (0x2_0000 * p));
    assert(leaf.cpuct_factor.value() == 0xf9_374c * (8 * p));
    assert(leaf.fpu_reduction.value() == 0xa8_f5c3 * p);
    assert(leaf.virtual_loss.value() == 0x80_0000 * (4 * p));
}

proof fn lemma_power_is_positive(n: nat)
    ensures
        power_of_two(n) >= 1,
    decreases n,
{
    if n > 0 {
        lemma_power_is_positive((n - 1) as nat);
    }
}

/// The numbers that a configuration has where it names none: promotion for three quarters of the points
/// and demotion for one, ten seconds, weights of a quarter and of two, and one hundred-thousandth to the
/// nearest that bits can hold.
pub proof fn default_numbers_are_as_named(
    promote: Single,
    demote: Single,
    secs: Single,
    value_coef: Single,
    consistency_coef: Single,
    eps: Single,
)
    requires
        call_ensures(default_promote_score, (), promote),
        call_ensures(default_demote_score, (), demote),
        call_ensures(default_rate_window_secs, (), secs),
        call_ensures(default_value_coef, (), value_coef),
        call_ensures(default_consistency_coef, (), consistency_coef),
        call_ensures(default_eps, (), eps),
    ensures
        4 * promote.value() == 3 * power_of_two(149),
        4 * demote.value() == power_of_two(149),
        secs.value() == 10 * power_of_two(149),
        4 * value_coef.value() == power_of_two(149),
        consistency_coef.value() == 2 * power_of_two(149),
        -50_000 * power_of_two(109) <= 100_000 * eps.value() - power_of_two(149) <= 50_000
            * power_of_two(109),
{
    let p = power_of_two(109) as int;
    lemma_power_is_positive(109);
    assert(power_of_two(124) == 0x8000 * p) by {
        reveal_with_fuel(power_of_two, 16);
    }
    let q = power_of_two(124) as int;
    assert(power_of_two(125) == 2 * q && power_of_two(127) == 8 * q && power_of_two(129) == 32 * q)
        by {
        reveal_with_fuel(power_of_two, 6);
    }
    assert(power_of_two(149) == 0x200_0000 * q) by {
        reveal_with_fuel(power_of_two, 26);
    }
    assert(promote.value() == 0xc0_0000 * (2 * q));
    assert(demote.value() == 0x80_0000 * q);
    assert(value_coef.value() == 0x80_0000 * q);
    assert(secs.value() == 0xa0_0000 * (32 * q));
    assert(consistency_coef.value() == 0x80_0000 * (8 * q));
    assert(eps.value() == 0xa7_c5ac * p);
}

/// The opponent of a strength: at random for none, and otherwise a search that deep. The noise goes
/// down as the search goes deeper: to the nearest that bits can hold, five moves in a hundred at one
/// ply, two at two and three, and none beyond.
pub proof fn stronger_opponents_have_less_noise(
    depth: u32,
    deeper: u32,
    opponent: Opponent,
    stronger: Opponent,
)
    requires
        call_ensures(Opponent::from_depth, (depth,), opponent),
        call_ensures(Opponent::from_depth, (deeper,), stronger),
        depth < deeper,
    ensures
        depth == 0 <==> opponent is Random,
        stronger is AlphaBeta && stronger->depth == deeper,
        opponent is AlphaBeta ==> opponent->depth == depth && !opponent->epsilon.lt_spec(
            stronger->epsilon,
        ),
        deeper >= 4 ==> stronger->epsilon == Single::zero_spec(),
        deeper < 4 ==> Single::zero_spec().lt_spec(stronger->epsilon),
        depth == 1 ==> -50 * power_of_two(121) <= 100 * opponent->epsilon.value() - 5 * power_of_two(
            149,
        ) <= 50 * power_of_two(121),
        deeper == 2 || deeper == 3 ==> -50 * power_of_two(120) <= 100 * stronger->epsilon.value() - 2
            * power_of_two(149) <= 50 * power_of_two(120),
{
    let p = power_of_two(120) as int;
    lemma_power_is_positive(120);
    assert(power_of_two(121) == 2 * p) by {
        reveal_with_fuel(power_of_two, 2);
    }
    assert(power_of_two(149) == 0x2000_0000 * p) by {
        reveal_with_fuel(power_of_two, 30);
    }
    if depth == 1 {
        assert(opponent->epsilon.value() == 0xcc_cccd * (2 * p));
    }
    if deeper == 2 || deeper == 3 {
        assert(stronger->epsilon.value() == 0xa3_d70a * p);
    }
}

} // verus!
