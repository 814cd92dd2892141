//! The course of a search in waves as a function of what it is given and of the model's
//! answers.
//!
//! A search goes on step by step: a wave is started, its walks are walked one after the other,
//! the network is asked of the leaves that wait, and their walks are backed up. Where a step
//! cannot be made the search gives up.
use vstd::prelude::*;
use crate::chess_eval::clock_after;
use crate::mcts::{
    McNode, NodeView, chosen_kid, expanded_to, fens_after_growth, nodes_of, staked_at, visited,
};
use crate::position::Move;
use crate::single::Single;
use crate::wave::{
    LeafView, Pending, PredictedView, SearchOutcome, WaveModel, clock_in, leaf_moves, outcome_of,
    over_spec, unfinished,
};

verus! {

/// Whether node `i` has children.
pub open spec fn has_kids(nodes: Seq<NodeView>, i: int) -> bool {
    nodes[i].children.len() > 0
}

/// The nodes with one more stake on node `i`, whose staked sum becomes `staked`.
pub open spec fn with_stake(nodes: Seq<NodeView>, i: int, staked: Single) -> Seq<NodeView> {
    nodes.update(i, NodeView { vln: (nodes[i].vln + 1) as u32, vlw: staked, ..nodes[i] })
}

/// A node that nothing has passed.
pub open spec fn fresh_node(prior: Single) -> NodeView {
    NodeView {
        prior,
        n: 0,
        w: Single::zero_spec(),
        vln: 0,
        vlw: Single::zero_spec(),
        children: Seq::empty(),
    }
}

/// The nodes with children at node `leaf`, one for each move. A node that has children keeps
/// them.
pub open spec fn with_kids(
    nodes: Seq<NodeView>,
    leaf: int,
    moves: Seq<Move>,
    priors: Seq<Single>,
) -> Seq<NodeView> {
    if has_kids(nodes, leaf) || moves.len() == 0 {
        nodes
    } else {
        nodes.update(
            leaf,
            NodeView {
                children: Seq::new(
                    moves.len(),
                    |c: int| (moves[c], (nodes.len() + c) as usize),
                ),
                ..nodes[leaf]
            },
        ) + Seq::new(moves.len(), |c: int| fresh_node(priors[c]))
    }
}

/// The nodes with one stake less, one visit more and the new sums at every node of a walk.
pub open spec fn with_visit(
    nodes: Seq<NodeView>,
    path: Seq<usize>,
    released: Seq<Single>,
    totals: Seq<Single>,
) -> Seq<NodeView> {
    Seq::new(
        nodes.len(),
        |i: int|
            if path.contains(i as usize) {
                NodeView {
                    n: (nodes[i].n + 1) as u32,
                    w: totals[path.index_of(i as usize)],
                    vln: (nodes[i].vln - 1) as u32,
                    vlw: released[path.index_of(i as usize)],
                    ..nodes[i]
                }
            } else {
                nodes[i]
            },
    )
}

/// A walk on its way: the nodes with its stakes, the ones that it passed, the clock where it
/// has come to, and the model.
pub struct Stage<M> {
    pub nodes: Seq<NodeView>,
    /// The position of every node.
    pub fens: Seq<Seq<char>>,
    pub path: Seq<usize>,
    /// The moves without a pawn move or a capture.
    pub clock: u32,
    pub model: M,
}

/// A walk at the root, where it has staked its loss.
pub open spec fn begun<M: WaveModel>(
    nodes: Seq<NodeView>,
    fens: Seq<Seq<char>>,
    clock: u32,
    model: M,
) -> Stage<M> {
    Stage {
        nodes: with_stake(nodes, 0, model.stake_spec(nodes[0].vlw)),
        fens,
        path: seq![0usize],
        clock,
        model,
    }
}

/// The child that scores point at.
pub open spec fn picked_kid(scores: Seq<Single>) -> int {
    choose|k: int| chosen_kid(scores, k)
}

/// Scores point at one child alone.
pub proof fn lemma_one_kid(scores: Seq<Single>, k: int)
    requires
        chosen_kid(scores, k),
    ensures
        picked_kid(scores) == k,
{
    let other = picked_kid(scores);
    assert(chosen_kid(scores, other));
    let all = Seq::new(scores.len(), |i: int| true);
    if 0 <= k < scores.len() && 0 <= other < scores.len() {
        assert(all[k] && all[other]);
    }
}

/// Where a walk ends, by the model's scores: at a node without children. Its clock goes by the
/// moves on the way. A walk with the wrong number of scores ends nowhere, and neither does one
/// whose clock is full before its end.
pub open spec fn walked<M: WaveModel>(s: Stage<M>) -> Option<Stage<M>>
    decreases s.nodes.len() - s.path.last(),
{
    let at = s.path.last() as int;
    if at >= s.nodes.len() || !has_kids(s.nodes, at) {
        Some(s)
    } else {
        let kids = s.nodes[at].children;
        let (scores, next) = s.model.score_spec(s.nodes, s.path.last());
        let k = picked_kid(scores);
        let (m, x) = kids[k];
        if s.clock < u32::MAX && scores.len() == kids.len() && 0 <= k < kids.len() && at < x
            < s.nodes.len() {
            walked(
                Stage {
                    nodes: with_stake(s.nodes, x as int, next.stake_spec(s.nodes[x as int].vlw)),
                    path: s.path.push(x),
                    clock: clock_after(s.fens[at], m, s.clock as int) as u32,
                    model: next,
                    ..s
                },
            )
        } else {
            None
        }
    }
}

/// A value as it is seen so many plies up: it changes its sign with every ply.
pub open spec fn turned(value: Single, plies: int) -> Single {
    if plies % 2 == 0 {
        value
    } else {
        value.neg_spec()
    }
}

/// What the staked sums of the nodes of a walk become once its stakes are released.
pub open spec fn released_sums<M: WaveModel>(
    model: M,
    nodes: Seq<NodeView>,
    path: Seq<usize>,
) -> Seq<Single> {
    Seq::new(path.len(), |j: int| model.release_spec(nodes[path[j] as int].vlw))
}

/// What the sums of values of the nodes of a walk become once a value is backed up from its
/// end.
pub open spec fn total_sums<M: WaveModel>(
    model: M,
    nodes: Seq<NodeView>,
    path: Seq<usize>,
    value: Single,
) -> Seq<Single> {
    Seq::new(
        path.len(),
        |j: int| model.plus_spec(nodes[path[j] as int].w, turned(value, path.len() - 1 - j)),
    )
}

/// The nodes once a walk is backed up: its leaf has its children, and the nodes that it passed
/// a visit for a stake, and the value as they see it.
pub open spec fn settled_nodes<M: WaveModel>(
    model: M,
    nodes: Seq<NodeView>,
    path: Seq<usize>,
    moves: Seq<Move>,
    priors: Seq<Single>,
    value: Single,
) -> Seq<NodeView> {
    with_visit(
        with_kids(nodes, path.last() as int, moves, priors),
        path,
        released_sums(model, nodes, path),
        total_sums(model, nodes, path, value),
    )
}

/// The positions of the nodes once a walk is backed up.
pub open spec fn settled_fens(
    nodes: Seq<NodeView>,
    fens: Seq<Seq<char>>,
    leaf: int,
    moves: Seq<Move>,
) -> Seq<Seq<char>> {
    if has_kids(nodes, leaf) || moves.len() == 0 {
        fens
    } else {
        fens_after_growth(fens, leaf, moves)
    }
}

/// A walk that waits for the evaluation of its leaf.
pub struct Waiting {
    pub path: Seq<usize>,
    pub leaf: LeafView,
}

/// The walks that wait.
pub open spec fn all_waiting(pending: Seq<Pending>) -> Seq<Waiting> {
    Seq::new(pending.len(), |i: int| Waiting { path: pending[i].walk.path@, leaf: pending[i]@ })
}

/// The leaves of walks that wait.
pub open spec fn leaves_of(waiting: Seq<Waiting>) -> Seq<LeafView> {
    Seq::new(waiting.len(), |i: int| waiting[i].leaf)
}

/// What the network is asked of the walks that wait.
pub open spec fn leaf_views(pending: Seq<Pending>) -> Seq<LeafView> {
    Seq::new(pending.len(), |i: int| pending[i]@)
}

/// A search between two steps.
pub struct Moment<M> {
    pub nodes: Seq<NodeView>,
    /// The position of every node.
    pub fens: Seq<Seq<char>>,
    /// The clock at the root.
    pub clock: u32,
    /// The evaluations that are kept, by the FENs of their positions.
    pub kept: Map<Seq<char>, PredictedView>,
    pub remaining: nat,
    pub in_wave: nat,
    pub hits: nat,
    pub misses: nat,
    pub collisions: nat,
    /// The walks that wait for the evaluation of their leaves.
    pub pending: Seq<Waiting>,
    /// What the network has said of their leaves, once it was asked.
    pub answers: Seq<PredictedView>,
    pub model: M,
}

/// How a walk counts that ended at a node where another one in flight had ended.
pub open spec fn collides(nodes: Seq<NodeView>, path: Seq<usize>) -> nat {
    if nodes[path.last() as int].vln > 1 {
        1
    } else {
        0
    }
}

/// A search once a walk is backed up; none where there would be more nodes than can be counted.
pub open spec fn settled<M: WaveModel>(
    a: Moment<M>,
    path: Seq<usize>,
    moves: Seq<Move>,
    priors: Seq<Single>,
    value: Single,
) -> Option<Moment<M>> {
    if a.nodes.len() + moves.len() > usize::MAX {
        None
    } else {
        Some(
            Moment {
                nodes: settled_nodes(a.model, a.nodes, path, moves, priors, value),
                fens: settled_fens(a.nodes, a.fens, path.last() as int, moves),
                ..a
            },
        )
    }
}

/// A search once the next walk has come to a leaf. Where the game is over there, or an
/// evaluation of the position is kept, the walk is backed up at once, and otherwise it waits.
pub open spec fn walk_step<M: WaveModel>(keep: bool, a: Moment<M>) -> Option<Moment<M>> {
    match walked(begun(a.nodes, a.fens, a.clock, a.model)) {
        None => None,
        Some(end) => {
            let fen = a.fens[end.path.last() as int];
            let moves = leaf_moves(fen);
            let b = Moment {
                nodes: end.nodes,
                model: end.model,
                in_wave: (a.in_wave - 1) as nat,
                collisions: a.collisions + collides(end.nodes, end.path),
                ..a
            };
            match over_spec(fen) {
                Some(value) => settled(b, end.path, moves, Seq::empty(), value),
                None => if keep && a.kept.contains_key(fen) {
                    settled(
                        Moment { hits: a.hits + 1, ..b },
                        end.path,
                        moves,
                        a.kept[fen].priors,
                        a.kept[fen].value,
                    )
                } else {
                    let waiting = Waiting {
                        path: end.path,
                        leaf: LeafView { fen, clock: end.clock, moves },
                    };
                    Some(Moment { misses: a.misses + 1, pending: a.pending.push(waiting), ..b })
                },
            }
        },
    }
}

/// A search once the network was asked of all walks that wait; none where it did not answer for
/// each of them.
pub open spec fn ask_step<M: WaveModel>(a: Moment<M>) -> Option<Moment<M>> {
    let (answers, next) = a.model.evaluate_spec(leaves_of(a.pending));
    if answers.len() == a.pending.len() {
        Some(Moment { answers, model: next, ..a })
    } else {
        None
    }
}

/// A search once the first walk that waits is backed up with what the network said of its
/// leaf, which is kept if evaluations are; none where there is not one prior for each move.
pub open spec fn settle_step<M: WaveModel>(keep: bool, a: Moment<M>) -> Option<Moment<M>> {
    let first = a.pending[0];
    let answer = a.answers[0];
    if answer.priors.len() != first.leaf.moves.len() {
        None
    } else {
        settled(
            Moment {
                kept: if keep {
                    a.kept.insert(first.leaf.fen, answer)
                } else {
                    a.kept
                },
                pending: a.pending.skip(1),
                answers: a.answers.skip(1),
                ..a
            },
            first.path,
            first.leaf.moves,
            answer.priors,
            answer.value,
        )
    }
}

/// A search once its next wave is started, of as many walks as a batch takes or as are left.
pub open spec fn wave_step<M: WaveModel>(batch_size: nat, a: Moment<M>) -> Moment<M> {
    let size = if a.remaining < batch_size {
        a.remaining
    } else {
        batch_size
    };
    Moment { in_wave: size, remaining: (a.remaining - size) as nat, ..a }
}

/// Whether a search is over.
pub open spec fn over<M>(a: Moment<M>) -> bool {
    &&& a.in_wave == 0
    &&& a.answers.len() == 0
    &&& a.pending.len() == 0
    &&& a.remaining == 0
}

/// A search after its next step; none where it is over, or cannot go on.
pub open spec fn step<M: WaveModel>(keep: bool, batch_size: nat, a: Moment<M>) -> Option<
    Moment<M>,
> {
    if a.in_wave > 0 {
        walk_step(keep, a)
    } else if a.answers.len() > 0 {
        settle_step(keep, a)
    } else if a.pending.len() > 0 {
        ask_step(a)
    } else if a.remaining > 0 {
        Some(wave_step(batch_size, a))
    } else {
        None
    }
}

/// A search after so many steps.
pub open spec fn after_steps<M: WaveModel>(
    keep: bool,
    batch_size: nat,
    a: Moment<M>,
    n: nat,
) -> Option<Moment<M>>
    decreases n,
{
    if n == 0 {
        Some(a)
    } else {
        match after_steps(keep, batch_size, a, (n - 1) as nat) {
            Some(b) => step(keep, batch_size, b),
            None => None,
        }
    }
}

/// Whether steps lead from a moment to another.
#[verifier::opaque]
pub open spec fn leads_to<M: WaveModel>(
    keep: bool,
    batch_size: nat,
    a: Moment<M>,
    b: Moment<M>,
) -> bool {
    exists|n: nat| #[trigger] after_steps(keep, batch_size, a, n) == Some(b)
}

/// No step at all leads from a moment to itself.
pub(crate) proof fn lemma_stays<M: WaveModel>(keep: bool, batch_size: nat, a: Moment<M>)
    ensures
        leads_to(keep, batch_size, a, a),
{
    reveal(leads_to);
    assert(after_steps(keep, batch_size, a, 0) == Some(a));
}

/// One more step leads on.
pub(crate) proof fn lemma_leads_on<M: WaveModel>(
    keep: bool,
    batch_size: nat,
    a: Moment<M>,
    b: Moment<M>,
    c: Moment<M>,
)
    requires
        leads_to(keep, batch_size, a, b),
        step(keep, batch_size, b) == Some(c),
    ensures
        leads_to(keep, batch_size, a, c),
{
    reveal(leads_to);
    let n = choose|n: nat| #[trigger] after_steps(keep, batch_size, a, n) == Some(b);
    assert(after_steps(keep, batch_size, a, n + 1) == Some(c));
}

/// Steps that lead on from where others led to lead there from the start.
pub(crate) proof fn lemma_leads_through<M: WaveModel>(
    keep: bool,
    batch_size: nat,
    a: Moment<M>,
    b: Moment<M>,
    c: Moment<M>,
)
    requires
        leads_to(keep, batch_size, a, b),
        leads_to(keep, batch_size, b, c),
    ensures
        leads_to(keep, batch_size, a, c),
{
    reveal(leads_to);
    let n = choose|n: nat| #[trigger] after_steps(keep, batch_size, a, n) == Some(b);
    let m = choose|m: nat| #[trigger] after_steps(keep, batch_size, b, m) == Some(c);
    lemma_steps_add(keep, batch_size, a, b, n, m);
}

proof fn lemma_steps_add<M: WaveModel>(
    keep: bool,
    batch_size: nat,
    a: Moment<M>,
    b: Moment<M>,
    n: nat,
    m: nat,
)
    requires
        after_steps(keep, batch_size, a, n) == Some(b),
    ensures
        after_steps(keep, batch_size, a, n + m) == after_steps(keep, batch_size, b, m),
    decreases m,
{
    if m > 0 {
        lemma_steps_add(keep, batch_size, a, b, n, (m - 1) as nat);
        assert((n + m - 1) as nat == n + (m - 1) as nat);
    }
}

/// Whether steps lead from a moment to one that is not the end, and where the search cannot go
/// on: a walk ends nowhere, the network gives the wrong number of answers or of priors, or
/// there would be more nodes than can be counted.
pub open spec fn gives_up<M: WaveModel>(keep: bool, batch_size: nat, a: Moment<M>) -> bool {
    exists|b: Moment<M>|
        {
            &&& #[trigger] leads_to(keep, batch_size, a, b)
            &&& !over(b)
            &&& step(keep, batch_size, b) is None
        }
}

/// A search gives up where steps lead to a moment at which it is stuck.
pub(crate) proof fn lemma_stuck<M: WaveModel>(
    keep: bool,
    batch_size: nat,
    a: Moment<M>,
    b: Moment<M>,
)
    requires
        leads_to(keep, batch_size, a, b),
        !over(b),
        step(keep, batch_size, b) is None,
    ensures
        gives_up(keep, batch_size, a),
{
}

/// A search gives up where steps lead to a moment from which it does.
pub(crate) proof fn lemma_gives_up<M: WaveModel>(
    keep: bool,
    batch_size: nat,
    a: Moment<M>,
    b: Moment<M>,
)
    requires
        leads_to(keep, batch_size, a, b),
        gives_up(keep, batch_size, b),
    ensures
        gives_up(keep, batch_size, a),
{
    let c = choose|c: Moment<M>|
        {
            &&& #[trigger] leads_to(keep, batch_size, b, c)
            &&& !over(c)
            &&& step(keep, batch_size, c) is None
        };
    lemma_leads_through(keep, batch_size, a, b, c);
}

/// Two moments that steps lead to from the same one, and from which no step leads on, are the
/// same.
proof fn lemma_one_end<M: WaveModel>(
    keep: bool,
    batch_size: nat,
    a: Moment<M>,
    b: Moment<M>,
    c: Moment<M>,
)
    requires
        leads_to(keep, batch_size, a, b),
        leads_to(keep, batch_size, a, c),
        step(keep, batch_size, b) is None,
        step(keep, batch_size, c) is None,
    ensures
        b == c,
{
    reveal(leads_to);
    let n = choose|n: nat| #[trigger] after_steps(keep, batch_size, a, n) == Some(b);
    let m = choose|m: nat| #[trigger] after_steps(keep, batch_size, a, m) == Some(c);
    if n < m {
        lemma_steps_add(keep, batch_size, a, b, n, (m - n) as nat);
        lemma_no_steps(keep, batch_size, b, (m - n) as nat);
    } else if m < n {
        lemma_steps_add(keep, batch_size, a, c, m, (n - m) as nat);
        lemma_no_steps(keep, batch_size, c, (n - m) as nat);
    }
}

proof fn lemma_no_steps<M: WaveModel>(keep: bool, batch_size: nat, a: Moment<M>, n: nat)
    requires
        step(keep, batch_size, a) is None,
        n > 0,
    ensures
        after_steps(keep, batch_size, a, n) is None,
    decreases n,
{
    if n > 1 {
        lemma_no_steps(keep, batch_size, a, (n - 1) as nat);
    } else {
        assert(after_steps(keep, batch_size, a, 0) == Some(a));
    }
}

/// A search before its first wave: the root has the moves of its position as children, with
/// the priors that the network gives them. None where it does not give one for each.
pub open spec fn opening<M: WaveModel>(fen: Seq<char>, simulations: nat, model: M) -> Option<
    Moment<M>,
> {
    let moves = leaf_moves(fen);
    let (answers, next) = model.evaluate_spec(
        seq![LeafView { fen, clock: clock_in(fen), moves }],
    );
    if answers.len() != 1 || answers[0].priors.len() != moves.len() {
        None
    } else {
        Some(
            Moment {
                nodes: with_kids(
                    seq![fresh_node(Single::zero_spec())],
                    0,
                    moves,
                    answers[0].priors,
                ),
                fens: fens_after_growth(seq![fen], 0, moves),
                clock: clock_in(fen),
                kept: Map::empty(),
                remaining: simulations,
                in_wave: 0,
                hits: 0,
                misses: 0,
                collisions: 0,
                pending: Seq::empty(),
                answers: Seq::empty(),
                model: next,
            },
        )
    }
}

/// The root's move with the most visits, the latest of equals, is child `c`.
pub open spec fn most_visited_move(nodes: Seq<NodeView>, c: int) -> bool {
    let kids = nodes[0].children;
    &&& 0 <= c < kids.len()
    &&& forall|d: int|
        0 <= d < kids.len() ==> nodes[(#[trigger] kids[d]).1 as int].n
            <= nodes[kids[c].1 as int].n
    &&& forall|d: int|
        c < d < kids.len() ==> nodes[(#[trigger] kids[d]).1 as int].n
            < nodes[kids[c].1 as int].n
}

/// Whether two outcomes say the same.
pub open spec fn same_outcome(a: SearchOutcome, b: SearchOutcome) -> bool {
    &&& a.best_move is Some == b.best_move is Some
    &&& a.best_move is Some ==> a.best_move->0@ == b.best_move->0@
    &&& a.collisions == b.collisions
    &&& a.cache_hits == b.cache_hits
    &&& a.cache_misses == b.cache_misses
}

/// Equal searches of equal positions with equal models have equal outcomes.
pub proof fn equal_wave_searches_agree<M: WaveModel>(
    fen: Seq<char>,
    simulations: usize,
    batch_size: usize,
    keep: bool,
    model: M,
    a: SearchOutcome,
    b: SearchOutcome,
)
    requires
        outcome_of(fen, simulations, batch_size, keep, model, a),
        outcome_of(fen, simulations, batch_size, keep, model, b),
    ensures
        same_outcome(a, b),
{
    if leaf_moves(fen).len() > 0 {
        let start = opening(fen, simulations as nat, model)->0;
        let (one, c) = choose|end: Moment<M>, c: int| #[trigger]
            crate::wave::told_by(fen, simulations, batch_size, keep, model, a, end, c);
        let (other, d) = choose|end: Moment<M>, c: int| #[trigger]
            crate::wave::told_by(fen, simulations, batch_size, keep, model, b, end, c);
        lemma_one_end(keep, batch_size as nat, start, one, other);
        let kids = one.nodes[0].children;
        assert(kids[c].1 == kids[c].1 && kids[d].1 == kids[d].1);
        if c < d {
            assert(one.nodes[kids[d].1 as int].n < one.nodes[kids[c].1 as int].n);
            assert(one.nodes[kids[c].1 as int].n <= one.nodes[kids[d].1 as int].n);
        } else if d < c {
            assert(one.nodes[kids[c].1 as int].n < one.nodes[kids[d].1 as int].n);
            assert(one.nodes[kids[d].1 as int].n <= one.nodes[kids[c].1 as int].n);
        }
    }
}

/// A search that has an outcome never gives up.
pub proof fn finished_wave_searches_do_not_give_up<M: WaveModel>(
    fen: Seq<char>,
    simulations: usize,
    batch_size: usize,
    keep: bool,
    model: M,
    outcome: SearchOutcome,
)
    requires
        outcome_of(fen, simulations, batch_size, keep, model, outcome),
        leaf_moves(fen).len() > 0,
    ensures
        !unfinished(fen, simulations, batch_size, keep, model),
{
    let start = opening(fen, simulations as nat, model)->0;
    let (end, c) = choose|end: Moment<M>, c: int| #[trigger]
        crate::wave::told_by(fen, simulations, batch_size, keep, model, outcome, end, c);
    if gives_up(keep, batch_size as nat, start) {
        let b = choose|b: Moment<M>|
            {
                &&& #[trigger] leads_to(keep, batch_size as nat, start, b)
                &&& !over(b)
                &&& step(keep, batch_size as nat, b) is None
            };
        lemma_one_end(keep, batch_size as nat, start, end, b);
    }
}

/// What nodes hold once one of them has one more stake.
pub(crate) proof fn lemma_staked_nodes(arena: Seq<McNode>, i: int, staked: Single)
    requires
        0 <= i < arena.len(),
    ensures
        nodes_of(staked_at(arena, i, staked)) == with_stake(nodes_of(arena), i, staked),
{
    assert(nodes_of(staked_at(arena, i, staked)) =~= with_stake(nodes_of(arena), i, staked));
}

/// What nodes hold once one of them has children.
pub(crate) proof fn lemma_grown_nodes(
    before: Seq<McNode>,
    leaf: int,
    moves: Seq<Move>,
    priors: Seq<Single>,
    after: Seq<McNode>,
)
    requires
        expanded_to(before, leaf, moves, priors, after),
        0 <= leaf < before.len(),
    ensures
        nodes_of(after) == with_kids(nodes_of(before), leaf, moves, priors),
{
    let wanted = with_kids(nodes_of(before), leaf, moves, priors);
    assert(nodes_of(after).len() == wanted.len());
    assert forall|i: int| 0 <= i < wanted.len() implies nodes_of(after)[i] == wanted[i] by {
        if i < before.len() && i != leaf {
            assert(crate::mcts::grown(before, leaf) || moves.len() == 0 || after[i] == before[i]);
        } else if i >= before.len() {
            assert(after[i].children@ =~= Seq::<(Move, usize)>::empty());
        }
    }
    assert(nodes_of(after) =~= wanted);
}

/// What nodes hold once a walk is backed up.
pub(crate) proof fn lemma_visited_nodes(
    before: Seq<McNode>,
    after: Seq<McNode>,
    path: Seq<usize>,
    released: Seq<Single>,
    totals: Seq<Single>,
)
    requires
        visited(before, after, path, released, totals),
        before.len() <= usize::MAX,
    ensures
        nodes_of(after) == with_visit(nodes_of(before), path, released, totals),
{
    let wanted = with_visit(nodes_of(before), path, released, totals);
    assert forall|i: int| 0 <= i < before.len() implies nodes_of(after)[i] == wanted[i] by {
        if path.contains(i as usize) {
            let j = path.index_of(i as usize);
            assert(path[j] == i as usize);
        } else {
            assert(after[i] == before[i]);
        }
    }
    assert(nodes_of(after) =~= wanted);
}

/// Whether a node is another one with one more stake, of some model.
spec fn staked_once<M: WaveModel>(before: NodeView, after: NodeView) -> bool {
    exists|m: M|
        after == (NodeView {
            vln: (before.vln + 1) as u32,
            vlw: #[trigger] m.stake_spec(before.vlw),
            ..before
        })
}

/// The stakes of a walk are on the nodes that it passes, one on each.
proof fn lemma_stakes<M: WaveModel>(s: Stage<M>, end: Stage<M>, i: int)
    requires
        walked(s) == Some(end),
        0 <= i < s.nodes.len() <= usize::MAX,
        s.path.len() > 0,
    ensures
        end.nodes.len() == s.nodes.len(),
        end.path.len() >= s.path.len(),
        end.path.take(s.path.len() as int) == s.path,
        forall|j: int|
            s.path.len() <= j < end.path.len() ==> s.path.last() < #[trigger] end.path[j]
                < s.nodes.len(),
        forall|j: int, k: int|
            s.path.len() <= j < k < end.path.len() ==> #[trigger] end.path[j]
                < #[trigger] end.path[k],
        if end.path.skip(s.path.len() as int).contains(i as usize) {
            staked_once::<M>(s.nodes[i], end.nodes[i])
        } else {
            end.nodes[i] == s.nodes[i]
        },
    decreases s.nodes.len() - s.path.last(),
{
    let at = s.path.last() as int;
    if at >= s.nodes.len() || !has_kids(s.nodes, at) {
        assert(end.path.take(s.path.len() as int) =~= s.path);
        assert(end.path.skip(s.path.len() as int).len() == 0);
    } else {
        let (scores, next) = s.model.score_spec(s.nodes, s.path.last());
        let (m, x) = s.nodes[at].children[picked_kid(scores)];
        let t = Stage {
            nodes: with_stake(s.nodes, x as int, next.stake_spec(s.nodes[x as int].vlw)),
            path: s.path.push(x),
            clock: clock_after(s.fens[at], m, s.clock as int) as u32,
            model: next,
            ..s
        };
        assert(t.path.last() == x);
        lemma_stakes(t, end, i);
        let n = s.path.len() as int;
        assert(end.path.take(n + 1)[n] == t.path[n]);
        assert(end.path[n] == x);
        assert(end.path.take(n) =~= end.path.take(n + 1).take(n));
        assert(t.path.take(n) =~= s.path);
        let rest = end.path.skip(n);
        let tail = end.path.skip(n + 1);
        assert(rest[0] == x);
        if tail.contains(i as usize) {
            let j = choose|j: int| 0 <= j < tail.len() && tail[j] == i as usize;
            assert(rest[j + 1] == i as usize);
            assert(end.path[n + 1 + j] > x);
        }
        if rest.contains(i as usize) && i != x {
            let j = choose|j: int| 0 <= j < rest.len() && rest[j] == i as usize;
            assert(tail[j - 1] == i as usize);
        }
        if i == x {
            assert(!tail.contains(i as usize));
            assert(staked_once::<M>(s.nodes[i], end.nodes[i]));
        }
    }
}

/// Whether models of a kind undo the stakes that they put on a sum.
pub open spec fn stakes_are_undone<M: WaveModel>(sum: Single) -> bool {
    forall|a: M, b: M| #[trigger] b.release_spec(#[trigger] a.stake_spec(sum)) == sum
}

/// A walk that is backed up leaves nothing of its stakes behind: every node has as many as
/// before it, and the same staked sum as long as the arithmetic undoes what it does. The nodes
/// that it passed have one visit more, and the value added to their sums, with its sign changed
/// once for every ply above the leaf. All other nodes are as they were, and so are all priors
/// and children.
pub proof fn backup_undoes_the_stakes<M: WaveModel>(
    nodes: Seq<NodeView>,
    fens: Seq<Seq<char>>,
    clock: u32,
    model: M,
    end: Stage<M>,
    value: Single,
    i: int,
)
    requires
        walked(begun(nodes, fens, clock, model)) == Some(end),
        0 <= i < nodes.len() <= usize::MAX,
        nodes[i].vln < u32::MAX,
        stakes_are_undone::<M>(nodes[i].vlw),
    ensures
        ({
            let after = with_visit(
                end.nodes,
                end.path,
                released_sums(end.model, end.nodes, end.path),
                total_sums(end.model, end.nodes, end.path, value),
            );
            &&& after.len() == nodes.len()
            &&& after[i].vln == nodes[i].vln
            &&& after[i].vlw == nodes[i].vlw
            &&& after[i].prior == nodes[i].prior
            &&& after[i].children == nodes[i].children
            &&& !end.path.contains(i as usize) ==> after[i] == nodes[i]
            &&& forall|j: int|
                0 <= j < end.path.len() && #[trigger] end.path[j] == i ==> {
                    &&& after[i].n == (nodes[i].n + 1) as u32
                    &&& after[i].w == end.model.plus_spec(
                        nodes[i].w,
                        turned(value, end.path.len() - 1 - j),
                    )
                }
        }),
{
    let s = begun(nodes, fens, clock, model);
    let released = released_sums(end.model, end.nodes, end.path);
    assert(s.path.last() == 0);
    lemma_stakes(s, end, i);
    assert(end.path.take(1)[0] == s.path[0]);
    let tail = end.path.skip(1);
    if end.path.contains(i as usize) {
        let k = end.path.index_of(i as usize);
        assert(end.path[k] == i as usize);
        assert(released[k] == end.model.release_spec(end.nodes[i].vlw));
        if k == 0 {
            assert(!tail.contains(i as usize)) by {
                if tail.contains(i as usize) {
                    let j = choose|j: int| 0 <= j < tail.len() && tail[j] == i as usize;
                    assert(end.path[j + 1] > 0);
                }
            }
            assert(end.nodes[i] == s.nodes[0]);
            assert(end.nodes[i].vlw == model.stake_spec(nodes[0].vlw));
        } else {
            assert(tail[k - 1] == i as usize);
            assert(staked_once::<M>(s.nodes[i], end.nodes[i]));
            assert(end.path[k] > 0);
            let m = choose|m: M|
                end.nodes[i] == (NodeView {
                    vln: (s.nodes[i].vln + 1) as u32,
                    vlw: #[trigger] m.stake_spec(s.nodes[i].vlw),
                    ..s.nodes[i]
                });
            assert(end.model.release_spec(m.stake_spec(nodes[i].vlw)) == nodes[i].vlw);
        }
        assert forall|j: int| 0 <= j < end.path.len() && #[trigger] end.path[j] == i implies j
            == k by {
            if j != k && j > 0 && k > 0 {
                assert(end.path[j] != end.path[k]);
            } else if j != k {
                assert(end.path[0] == 0);
            }
        }
    } else {
        if tail.contains(i as usize) {
            let j = choose|j: int| 0 <= j < tail.len() && tail[j] == i as usize;
            assert(end.path[j + 1] == i as usize);
        }
        if i == 0 {
            assert(end.path[0] == 0);
        }
    }
}

/// What a walk leaves on its nodes, once it is backed up: a visit in place of a stake, and a value
/// added to their sums. The leaf is given the value itself, and every other node the opposite of
/// what the next one is given, because there the other side is to move.
pub proof fn neighbours_see_opposite_values<M: WaveModel>(
    model: M,
    nodes: Seq<NodeView>,
    path: Seq<usize>,
    moves: Seq<Move>,
    priors: Seq<Single>,
    value: Single,
) -> (x: Seq<Single>)
    requires
        path.len() > 0,
        path.no_duplicates(),
        nodes.len() <= usize::MAX,
        forall|j: int| 0 <= j < path.len() ==> #[trigger] path[j] < nodes.len(),
        forall|j: int|
            0 <= j < path.len() ==> nodes[#[trigger] path[j] as int].n < u32::MAX
                && nodes[path[j] as int].vln > 0,
    ensures
        x.len() == path.len(),
        x[path.len() - 1] == value,
        forall|j: int| 0 <= j < path.len() - 1 ==> #[trigger] x[j] == x[j + 1].neg_spec(),
        ({
            let after = settled_nodes(model, nodes, path, moves, priors, value);
            &&& forall|j: int|
                0 <= j < path.len() ==> {
                    let was = nodes[#[trigger] path[j] as int];
                    let is = after[path[j] as int];
                    &&& is.w == model.plus_spec(was.w, x[j])
                    &&& is.n == was.n + 1
                    &&& is.vln == was.vln - 1
                    &&& is.vlw == model.release_spec(was.vlw)
                    &&& is.prior == was.prior
                    &&& j < path.len() - 1 ==> is.children == was.children
                }
            &&& forall|i: int|
                0 <= i < nodes.len() && (forall|j: int| 0 <= j < path.len() ==> path[j] != i)
                    ==> #[trigger] after[i] == nodes[i]
        }),
{
    let x = Seq::new(path.len(), |j: int| turned(value, path.len() - 1 - j));
    crate::single::negation_reverses_order(value, value);
    let after = settled_nodes(model, nodes, path, moves, priors, value);
    let grown = with_kids(nodes, path.last() as int, moves, priors);
    assert forall|j: int| 0 <= j < path.len() implies ({
        let was = nodes[#[trigger] path[j] as int];
        let is = after[path[j] as int];
        &&& is.w == model.plus_spec(was.w, x[j])
        &&& is.n == was.n + 1
        &&& is.vln == was.vln - 1
        &&& is.vlw == model.release_spec(was.vlw)
        &&& is.prior == was.prior
        &&& j < path.len() - 1 ==> is.children == was.children
    }) by {
        let i = path[j] as int;
        assert(path.contains(path[j]));
        let k = path.index_of(path[j]);
        assert(path[k] == path[j]);
        assert(k == j);
        assert(grown.len() >= nodes.len());
    }
    assert forall|i: int|
        0 <= i < nodes.len() && (forall|j: int| 0 <= j < path.len() ==> path[j] != i) implies
        #[trigger] after[i] == nodes[i] by {
        if i <= usize::MAX && path.contains(i as usize) {
            let k = path.index_of(i as usize);
            assert(path[k] == i as usize);
        }
        assert(path.last() == path[path.len() - 1]);
    }
    x
}

/// What a leaf becomes once its evaluation is there: it has one child for each move, in their
/// order. Each child is a new node behind all others, with the prior of its move, no visit, no
/// stake and no child. A leaf that has children keeps them, and one without moves gets none.
pub proof fn leaves_grow_one_child_for_each_move<M: WaveModel>(
    model: M,
    nodes: Seq<NodeView>,
    path: Seq<usize>,
    moves: Seq<Move>,
    priors: Seq<Single>,
    value: Single,
)
    requires
        path.len() > 0,
        forall|j: int| 0 <= j < path.len() ==> #[trigger] path[j] < nodes.len(),
        nodes.len() + moves.len() <= usize::MAX,
        priors.len() == moves.len(),
    ensures
        ({
            let after = settled_nodes(model, nodes, path, moves, priors, value);
            let leaf = path[path.len() - 1] as int;
            if nodes[leaf].children.len() > 0 || moves.len() == 0 {
                after.len() == nodes.len() && after[leaf].children == nodes[leaf].children
            } else {
                &&& after.len() == nodes.len() + moves.len()
                &&& after[leaf].children.len() == moves.len()
                &&& forall|c: int|
                    0 <= c < moves.len() ==> {
                        let child = after[nodes.len() + c];
                        &&& (#[trigger] after[leaf].children[c]).0 == moves[c]
                        &&& after[leaf].children[c].1 == nodes.len() + c
                        &&& child.prior == priors[c]
                        &&& child.n == 0
                        &&& child.vln == 0
                        &&& child.w == Single::zero_spec()
                        &&& child.vlw == Single::zero_spec()
                        &&& child.children.len() == 0
                    }
            }
        }),
{
    let after = settled_nodes(model, nodes, path, moves, priors, value);
    let leaf = path.last() as int;
    assert(path.contains(path[path.len() - 1]));
    if !(nodes[leaf].children.len() > 0 || moves.len() == 0) {
        assert forall|c: int| 0 <= c < moves.len() implies ({
            let child = after[nodes.len() + c];
            &&& (#[trigger] after[leaf].children[c]).0 == moves[c]
            &&& after[leaf].children[c].1 == nodes.len() + c
            &&& child.prior == priors[c]
            &&& child.n == 0
            &&& child.vln == 0
            &&& child.w == Single::zero_spec()
            &&& child.vlw == Single::zero_spec()
            &&& child.children.len() == 0
        }) by {
            let i = nodes.len() + c;
            if path.contains(i as usize) {
                let k = path.index_of(i as usize);
                assert(path[k] == i as usize);
            }
        }
    }
}

/// A walk goes to a child that no other one outscores. Of children that score the same it is the
/// first. Only where no score is above negative infinity it is the first child whatever it scores.
pub proof fn walks_follow_the_best_score(scores: Seq<Single>, k: int, j: int)
    requires
        chosen_kid(scores, k),
        0 <= j < scores.len(),
    ensures
        0 <= k < scores.len(),
        !scores[k].lt_spec(scores[j]) || k == 0 && !Single::neg_infinity_spec().lt_spec(scores[j]),
        j < k ==> scores[j].lt_spec(scores[k]) || scores[j].nan(),
{
    let all = Seq::new(scores.len(), |i: int| true);
    assert(all[j]);
    assert(all[0]);
}

} // verus!
