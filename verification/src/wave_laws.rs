//! What a search in waves promises, told by the walks, the evaluations and the counts.
use vstd::prelude::*;
use crate::chess_eval::{clock_after, pawns_and_captures_start_the_clock, pruned};
use crate::mcts::{NodeView, chosen_kid};
use crate::position::{after_move_of, legal_moves_of, letter_at, playable_fen, status_of};
use crate::text::{fields_are_words, number_or_zero, words_spec};
use crate::wave::{SearchOutcome, WaveModel, clock_in, leaf_moves, outcome_of, told_by};
use crate::wave_course::{
    Moment, Stage, ask_step, begun, leaves_of, lemma_one_kid, opening, picked_kid, settle_step,
    settled_fens, step, walk_step, walked, wave_step, with_stake,
};

verus! {

/// A walk that has come to a node without children has ended there.
pub proof fn walks_end_at_leaves<M: WaveModel>(s: Stage<M>)
    requires
        s.path.len() > 0,
        s.path.last() < s.nodes.len(),
        s.nodes[s.path.last() as int].children.len() == 0,
    ensures
        walked(s) == Some(s),
{
}

/// A walk starts at the root, with a stake there, the position's clock, and nothing else changed.
pub proof fn walks_start_at_the_root<M: WaveModel>(
    nodes: Seq<NodeView>,
    fens: Seq<Seq<char>>,
    clock: u32,
    model: M,
    i: int,
)
    requires
        0 <= i < nodes.len(),
        nodes[0].vln < u32::MAX,
    ensures
        ({
            let s = begun(nodes, fens, clock, model);
            &&& s.path.len() == 1 && s.path[0] == 0
            &&& s.clock == clock && s.fens == fens && s.model == model
            &&& s.nodes.len() == nodes.len()
            &&& s.nodes[0].vln == nodes[0].vln + 1
            &&& s.nodes[0].vlw == model.stake_spec(nodes[0].vlw)
            &&& s.nodes[0].n == nodes[0].n && s.nodes[0].w == nodes[0].w
            &&& s.nodes[0].prior == nodes[0].prior && s.nodes[0].children == nodes[0].children
            &&& i != 0 ==> s.nodes[i] == nodes[i]
        }),
{
}

/// A walk goes on from a node to the child that the scores point at. It puts a stake on that child
/// and changes nothing else of the tree, and its clock starts again where the move is a pawn's or
/// takes something, and counts on otherwise.
pub proof fn walks_go_on_to_the_chosen_child<M: WaveModel>(s: Stage<M>, k: int) -> (t: Stage<M>)
    requires
        s.path.len() > 0,
        s.path.last() < s.nodes.len(),
        s.clock < u32::MAX,
        ({
            let at = s.path.last() as int;
            let kids = s.nodes[at].children;
            let scores = s.model.score_spec(s.nodes, s.path.last()).0;
            &&& scores.len() == kids.len()
            &&& 0 <= k < kids.len()
            &&& chosen_kid(scores, k)
            &&& at < kids[k].1 < s.nodes.len()
            &&& kids[k].0.on_board()
            &&& s.nodes[kids[k].1 as int].vln < u32::MAX
        }),
    ensures
        walked(s) == walked(t),
        ({
            let at = s.path.last() as int;
            let (m, x) = s.nodes[at].children[k];
            let source = letter_at(s.fens[at], m.source as int);
            let dest = letter_at(s.fens[at], m.dest as int);
            let taken = seq!['P', 'N', 'B', 'R', 'Q', 'K', 'p', 'n', 'b', 'r', 'q', 'k'].contains(
                dest,
            );
            &&& t.path == s.path.push(x)
            &&& t.fens == s.fens
            &&& t.model == s.model.score_spec(s.nodes, s.path.last()).1
            &&& t.nodes.len() == s.nodes.len()
            &&& t.nodes[x as int].vln == s.nodes[x as int].vln + 1
            &&& t.nodes[x as int].vlw == t.model.stake_spec(s.nodes[x as int].vlw)
            &&& t.nodes[x as int].n == s.nodes[x as int].n
            &&& t.nodes[x as int].w == s.nodes[x as int].w
            &&& t.nodes[x as int].prior == s.nodes[x as int].prior
            &&& t.nodes[x as int].children == s.nodes[x as int].children
            &&& forall|i: int|
                0 <= i < s.nodes.len() && i != x ==> #[trigger] t.nodes[i] == s.nodes[i]
            &&& t.clock == if source == 'P' || source == 'p' || taken {
                0
            } else {
                s.clock + 1
            }
        }),
{
    let at = s.path.last() as int;
    let (scores, next) = s.model.score_spec(s.nodes, s.path.last());
    let (m, x) = s.nodes[at].children[k];
    lemma_one_kid(scores, k);
    assert(picked_kid(scores) == k);
    pawns_and_captures_start_the_clock(s.fens[at], m, s.clock as int);
    Stage {
        nodes: with_stake(s.nodes, x as int, next.stake_spec(s.nodes[x as int].vlw)),
        path: s.path.push(x),
        clock: clock_after(s.fens[at], m, s.clock as int) as u32,
        model: next,
        ..s
    }
}

/// What comes of a walk that has ended. Each one uses up a place in its wave. Where the game goes
/// on and no evaluation of the position is kept, the walk waits, with its position, its clock and
/// the moves to expand there, and counts as a miss. Where one is kept it counts as a hit and
/// nothing waits. Where the game is over it counts as neither. It collides where another walk in
/// flight has a stake on the same leaf.
pub proof fn walks_wait_hit_or_end<M: WaveModel>(keep: bool, a: Moment<M>, end: Stage<M>)
    requires
        a.in_wave > 0,
        walked(begun(a.nodes, a.fens, a.clock, a.model)) == Some(end),
        walk_step(keep, a) is Some,
    ensures
        ({
            let b = walk_step(keep, a)->0;
            let leaf = end.path.last() as int;
            let fen = a.fens[leaf];
            let ongoing = playable_fen(fen) && status_of(fen) is Ongoing;
            let found = keep && a.kept.contains_key(fen);
            &&& b.in_wave == a.in_wave - 1
            &&& b.remaining == a.remaining && b.clock == a.clock
            &&& b.kept == a.kept && b.answers == a.answers && b.model == end.model
            &&& b.collisions == a.collisions + if end.nodes[leaf].vln >= 2 {
                1nat
            } else {
                0nat
            }
            &&& b.hits == a.hits + if ongoing && found {
                1nat
            } else {
                0nat
            }
            &&& b.misses == a.misses + if ongoing && !found {
                1nat
            } else {
                0nat
            }
            &&& !(ongoing && !found) ==> b.pending == a.pending
            &&& ongoing && !found ==> {
                &&& b.nodes == end.nodes && b.fens == a.fens
                &&& b.pending.len() == a.pending.len() + 1
                &&& b.pending.drop_last() == a.pending
                &&& b.pending.last().path == end.path
                &&& b.pending.last().leaf.fen == fen
                &&& b.pending.last().leaf.clock == end.clock
                &&& b.pending.last().leaf.moves == pruned(legal_moves_of(fen))
            }
        }),
{
    let b = walk_step(keep, a)->0;
    assert(b.pending.len() > a.pending.len() ==> b.pending.drop_last() =~= a.pending);
}

/// A wave takes as many walks as a batch holds, or all that are left where there are fewer. None
/// are lost between the waves, and nothing else changes.
pub proof fn waves_take_what_is_left<M: WaveModel>(batch_size: nat, a: Moment<M>)
    requires
        a.in_wave == 0,
    ensures
        ({
            let b = wave_step(batch_size, a);
            &&& b.in_wave + b.remaining == a.remaining
            &&& b.in_wave <= batch_size
            &&& b.in_wave == batch_size || b.remaining == 0
            &&& b.nodes == a.nodes && b.fens == a.fens && b.kept == a.kept
            &&& b.hits == a.hits && b.misses == a.misses && b.collisions == a.collisions
            &&& b.pending == a.pending && b.answers == a.answers && b.model == a.model
            &&& b.clock == a.clock
        }),
{
}

/// The network is asked of all walks that wait, in their order, and of nothing else.
pub proof fn waiting_leaves_are_asked_of<M: WaveModel>(a: Moment<M>, i: int)
    requires
        ask_step(a) is Some,
        0 <= i < a.pending.len(),
    ensures
        leaves_of(a.pending).len() == a.pending.len(),
        leaves_of(a.pending)[i] == a.pending[i].leaf,
        ({
            let b = ask_step(a)->0;
            &&& b.answers == a.model.evaluate_spec(leaves_of(a.pending)).0
            &&& b.model == a.model.evaluate_spec(leaves_of(a.pending)).1
            &&& b.answers.len() == a.pending.len()
            &&& b.pending == a.pending && b.nodes == a.nodes && b.fens == a.fens
            &&& b.kept == a.kept && b.in_wave == a.in_wave && b.remaining == a.remaining
            &&& b.hits == a.hits && b.misses == a.misses && b.collisions == a.collisions
        }),
{
}

/// Walks that wait are backed up in their order, each with the answer for its own leaf. Where
/// evaluations are kept, that answer is found under its position from then on, and all others stay.
pub proof fn answers_are_kept_for_their_positions<M: WaveModel>(
    keep: bool,
    a: Moment<M>,
    other: Seq<char>,
)
    requires
        a.pending.len() > 0,
        a.answers.len() > 0,
        settle_step(keep, a) is Some,
    ensures
        ({
            let b = settle_step(keep, a)->0;
            let fen = a.pending[0].leaf.fen;
            &&& b.pending.len() == a.pending.len() - 1
            &&& b.answers.len() == a.answers.len() - 1
            &&& forall|i: int| 0 <= i < b.pending.len() ==> #[trigger] b.pending[i] == a.pending[i + 1]
            &&& forall|i: int| 0 <= i < b.answers.len() ==> #[trigger] b.answers[i] == a.answers[i + 1]
            &&& keep ==> b.kept.contains_key(fen) && b.kept[fen] == a.answers[0]
            &&& keep && other != fen ==> (b.kept.contains_key(other) <==> a.kept.contains_key(
                other,
            )) && b.kept[other] == a.kept[other]
            &&& !keep ==> b.kept == a.kept
            &&& b.hits == a.hits && b.misses == a.misses && b.collisions == a.collisions
            &&& b.in_wave == a.in_wave && b.remaining == a.remaining && b.model == a.model
            &&& a.answers[0].priors.len() == a.pending[0].leaf.moves.len()
        }),
{
}

/// The position of a new node is the one after its move, in the position of the leaf.
pub proof fn new_nodes_have_the_positions_after_their_moves(
    nodes: Seq<NodeView>,
    fens: Seq<Seq<char>>,
    leaf: int,
    moves: Seq<crate::position::Move>,
    c: int,
)
    requires
        0 <= leaf < nodes.len(),
        fens.len() == nodes.len(),
        nodes[leaf].children.len() == 0,
        0 <= c < moves.len(),
    ensures
        settled_fens(nodes, fens, leaf, moves).len() == nodes.len() + moves.len(),
        settled_fens(nodes, fens, leaf, moves)[nodes.len() + c] == after_move_of(
            fens[leaf],
            moves[c],
        ),
        forall|i: int|
            0 <= i < nodes.len() ==> #[trigger] settled_fens(nodes, fens, leaf, moves)[i]
                == fens[i],
{
}

/// How a search begins: the root has the moves to expand as children, with the priors that the
/// network gives them, no visit and no stake anywhere, nothing kept, and all simulations to go.
pub proof fn searches_begin_with_the_moves_of_the_root<M: WaveModel>(
    fen: Seq<char>,
    simulations: nat,
    model: M,
    c: int,
)
    requires
        opening(fen, simulations, model) is Some,
        leaf_moves(fen).len() < usize::MAX,
        0 <= c < leaf_moves(fen).len(),
    ensures
        playable_fen(fen) && status_of(fen) is Ongoing,
        leaf_moves(fen) == pruned(legal_moves_of(fen)),
        ({
            let a = opening(fen, simulations, model)->0;
            let moves = leaf_moves(fen);
            &&& a.nodes.len() == 1 + moves.len()
            &&& a.nodes[0].n == 0 && a.nodes[0].vln == 0
            &&& a.nodes[0].children.len() == moves.len()
            &&& a.nodes[0].children[c].0 == moves[c]
            &&& a.nodes[0].children[c].1 == 1 + c
            &&& a.nodes[1 + c].n == 0 && a.nodes[1 + c].vln == 0
            &&& a.nodes[1 + c].children.len() == 0
            &&& exists|answer: crate::wave::PredictedView|
                answer.priors.len() == moves.len() && a.nodes[1 + c].prior
                    == #[trigger] answer.priors[c]
            &&& a.fens[0] == fen
            &&& a.fens[1 + c] == after_move_of(fen, moves[c])
            &&& a.remaining == simulations && a.in_wave == 0
            &&& a.hits == 0 && a.misses == 0 && a.collisions == 0
            &&& a.pending.len() == 0 && a.answers.len() == 0
            &&& a.kept == Map::<Seq<char>, crate::wave::PredictedView>::empty()
        }),
{
    let moves = leaf_moves(fen);
    let leaves = seq![crate::wave::LeafView { fen, clock: clock_in(fen), moves }];
    let answer = model.evaluate_spec(leaves).0[0];
    assert(opening(fen, simulations, model)->0.nodes[1 + c].prior == answer.priors[c]);
}

/// A search plays the move of the root that it has visited most, and of moves with as many visits
/// the one that comes last. All simulations have gone through the root by then, and none is in
/// flight.
pub proof fn searches_play_the_most_visited_move<M: WaveModel>(
    fen: Seq<char>,
    simulations: usize,
    batch_size: usize,
    keep: bool,
    model: M,
    outcome: SearchOutcome,
)
    requires
        outcome_of(fen, simulations, batch_size, keep, model, outcome),
        leaf_moves(fen).len() > 0,
    ensures
        outcome.best_move is Some,
        exists|end: Moment<M>, c: int|
            {
                let root = end.nodes[0];
                let most = end.nodes[root.children[c].1 as int].n;
                &&& 0 <= c < root.children.len()
                &&& #[trigger] told_by(
                    fen,
                    simulations,
                    batch_size,
                    keep,
                    model,
                    outcome,
                    end,
                    c,
                )
                &&& outcome.best_move->0@ == root.children[c].0.uci_spec()
                &&& legal_moves_of(fen).contains(root.children[c].0)
                &&& forall|d: int|
                    0 <= d < root.children.len() ==> {
                        let visits = end.nodes[(#[trigger] root.children[d]).1 as int].n;
                        visits <= most && (d > c ==> visits < most)
                    }
                &&& root.n == simulations
                &&& forall|i: int| 0 <= i < end.nodes.len() ==> (#[trigger] end.nodes[i]).vln == 0
                &&& end.remaining == 0 && end.in_wave == 0 && end.pending.len() == 0
                &&& outcome.collisions == end.collisions
                &&& outcome.cache_hits == end.hits
                &&& outcome.cache_misses == end.misses
            },
{
    let (end, c) = choose|end: Moment<M>, c: int| #[trigger]
        told_by(fen, simulations, batch_size, keep, model, outcome, end, c);
    assert(end.nodes[0].children[c].0 == leaf_moves(fen)[c]);
}

/// Where no move is to be expanded there is no best move, and nothing is counted.
pub proof fn decided_positions_are_not_searched<M: WaveModel>(
    fen: Seq<char>,
    simulations: usize,
    batch_size: usize,
    keep: bool,
    model: M,
    outcome: SearchOutcome,
)
    requires
        outcome_of(fen, simulations, batch_size, keep, model, outcome),
        !playable_fen(fen) || status_of(fen) is Checkmate || status_of(fen) is Stalemate,
    ensures
        outcome.best_move is None,
        outcome.collisions == 0 && outcome.cache_hits == 0 && outcome.cache_misses == 0,
{
}

/// The clock of a FEN is the number in its fifth field, and zero where there is none.
pub proof fn clocks_stand_in_the_fifth_field(fen: Seq<char>)
    ensures
        words_spec(fen, 0).len() >= 5 ==> clock_in(fen) == number_or_zero(words_spec(fen, 0)[4]),
        words_spec(fen, 0).len() < 5 ==> clock_in(fen) == 0,
{
    fields_are_words(fen, 0, 4);
}

/// In which order a search goes on: it finishes the walks of a wave first, asks the network of
/// those that wait next, then backs up what was answered, and only then starts another wave.
pub proof fn waves_are_finished_in_order<M: WaveModel>(keep: bool, batch_size: nat, a: Moment<M>)
    ensures
        a.in_wave > 0 ==> step(keep, batch_size, a) == walk_step(keep, a),
        a.in_wave == 0 && a.pending.len() > 0 && a.answers.len() == 0 ==> step(keep, batch_size, a)
            == ask_step(a),
        a.in_wave == 0 && a.answers.len() > 0 ==> step(keep, batch_size, a) == settle_step(keep, a),
        a.in_wave == 0 && a.pending.len() == 0 && a.answers.len() == 0 && a.remaining > 0 ==> step(
            keep,
            batch_size,
            a,
        ) == Some(wave_step(batch_size, a)),
        a.in_wave == 0 && a.pending.len() == 0 && a.answers.len() == 0 && a.remaining == 0 ==> step(
            keep,
            batch_size,
            a,
        ) is None,
{
}

} // verus!
