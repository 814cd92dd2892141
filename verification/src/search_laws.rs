//! What a search of positions with a learned model promises, told by the nodes of its trees, the
//! scores of the model, and what comes back.
use vstd::prelude::*;
use crate::batch::{chosen_child, considered_at, legal_count, open_rows};
use crate::config::SearchAlgorithm;
use crate::course::{
    Job, absorbed, all_summed, all_walked, asked, asked_actions, asked_rows, begun, final_model,
    final_trees, lemma_one_child, results_of, said, simulated, simulated_from, walked,
};
use crate::considered::considered_visits;
use crate::extract::{SearchReturn, most_legal_visits, most_visited, root_child};
use crate::search::{
    Predictions, PredictionsView, SearchModel, best_of_most, gumbel_best, single_job,
    single_result,
};
use crate::single::Single;
use crate::tree::{
    BatchNode, TreeView, after_expansion, backed_up, blocks_wf, child_of, choosable, expanded,
    none_best, on_path, path_wf, path_step,
};

verus! {

/// Below the root, and everywhere without halving, a walk goes to the best scored of the legal
/// children, and to the first of those that score the same. A score counts if it is above negative
/// infinity. Where none counts, the walk goes to the first child.
pub proof fn walks_go_to_the_best_scored_child(
    algorithm: SearchAlgorithm,
    nodes: Seq<BatchNode>,
    i: int,
    scores: Seq<Single>,
    threshold: usize,
    child: int,
    b: int,
)
    requires
        chosen_child(algorithm, nodes, i, scores, threshold, child),
        algorithm is Puct || i != 0,
        0 <= b < scores.len(),
    ensures
        ({
            let first = nodes[i].first_child as int;
            let counts = |a: int|
                nodes[first + a].legal && Single::neg_infinity_spec().lt_spec(scores[a]);
            &&& first <= child < first + scores.len()
            &&& counts(b) ==> {
                &&& counts(child - first)
                &&& !scores[child - first].lt_spec(scores[b])
                &&& first + b < child ==> scores[b].lt_spec(scores[child - first])
            }
            &&& counts(child - first) || child == first
        }),
{
    let allowed = choosable(nodes, i, scores.len() as int, None);
    assert(allowed[b] == nodes[nodes[i].first_child + b].legal);
    if !none_best(scores, allowed) {
        let a = child - nodes[i].first_child;
        assert(allowed[a]);
        if allowed[b] && b < a {
            assert(scores[b].lt_spec(scores[a]) || scores[b].nan());
        }
    }
}

/// At the root of a search by halving a walk goes to the best scored of the legal children with the
/// visits that the schedule asks for. Where there is none, it goes to the legal child with the
/// fewest visits. Of equals it is the first.
pub proof fn halving_goes_to_the_scheduled_children(
    nodes: Seq<BatchNode>,
    scores: Seq<Single>,
    threshold: usize,
    child: int,
    b: int,
)
    requires
        chosen_child(SearchAlgorithm::Gumbel, nodes, 0, scores, threshold, child),
        0 <= b < scores.len(),
    ensures
        ({
            let first = nodes[0].first_child as int;
            let counts = |a: int|
                {
                    &&& nodes[first + a].legal
                    &&& nodes[first + a].visits == threshold
                    &&& Single::neg_infinity_spec().lt_spec(scores[a])
                };
            &&& first <= child < first + scores.len()
            &&& counts(b) ==> {
                &&& counts(child - first)
                &&& !scores[child - first].lt_spec(scores[b])
                &&& first + b < child ==> scores[b].lt_spec(scores[child - first])
            }
            &&& nodes[first + b].legal ==> nodes[child].legal
            &&& !counts(child - first) && nodes[first + b].legal ==> {
                &&& nodes[child].visits <= nodes[first + b].visits
                &&& first + b < child ==> nodes[child].visits < nodes[first + b].visits
            }
        }),
{
    let n = scores.len() as int;
    let first = nodes[0].first_child as int;
    let allowed = choosable(nodes, 0, n, Some(threshold));
    let a = child - first;
    assert(allowed[b] == (nodes[first + b].legal && nodes[first + b].visits == threshold));
    if none_best(scores, allowed) {
        let legal = |c: int| nodes[child_of(nodes, 0, c)].legal;
        assert(legal(b) == nodes[first + b].legal);
        if forall|c: int| 0 <= c < n ==> !#[trigger] legal(c) {
            assert(!legal(b));
            assert(a == 0);
            assert(!legal(0));
        } else {
            assert(legal(a));
            assert(allowed[a] == (nodes[first + a].legal && nodes[first + a].visits == threshold));
        }
    } else {
        assert(allowed[a]);
        if allowed[b] && b < a {
            assert(scores[b].lt_spec(scores[a]) || scores[b].nan());
        }
    }
}

/// The visits decide: no legal action has more of them than the best one, and no earlier legal
/// action has as many. Without visits the best action is the first one.
pub proof fn most_visits_win(nodes: Seq<BatchNode>, action_space: int, best: int, b: int)
    requires
        most_visited(nodes, action_space, best),
        nodes[0].first_child == 1,
        0 <= b < action_space,
        nodes[1 + b].legal,
    ensures
        0 <= best < action_space,
        nodes[1 + b].visits > 0 ==> {
            &&& nodes[1 + best].legal
            &&& nodes[1 + b].visits <= nodes[1 + best].visits
            &&& b < best ==> nodes[1 + b].visits < nodes[1 + best].visits
        },
        !nodes[1 + best].legal || nodes[1 + best].visits == 0 ==> best == 0,
{
    assert(root_child(nodes, b) == nodes[1 + b]);
    assert(root_child(nodes, best) == nodes[1 + best]);
    if forall|a: int|
        0 <= a < action_space && (#[trigger] root_child(nodes, a)).legal ==> root_child(
            nodes,
            a,
        ).visits == 0 {
    } else {
        let c = choose|c: int|
            0 <= c < action_space && (#[trigger] root_child(nodes, c)).legal && root_child(
                nodes,
                c,
            ).visits != 0;
        assert(root_child(nodes, c).visits <= root_child(nodes, best).visits);
    }
}

/// By halving, the best action has the most visits of the legal ones, and of those the best score
/// that counts; of equals it is the first. It is the first action where no such score counts.
pub proof fn halving_ends_with_the_best_finalist(
    nodes: Seq<BatchNode>,
    action_space: int,
    scores: Seq<Single>,
    best: int,
    b: int,
)
    requires
        gumbel_best(nodes, action_space, scores, best),
        nodes[0].first_child == 1,
        scores.len() == action_space,
        0 <= b < action_space,
        nodes[1 + b].legal,
        forall|c: int| 0 <= c < action_space && nodes[1 + c].legal ==> (#[trigger] nodes[1
            + c]).visits <= nodes[1 + b].visits,
        Single::neg_infinity_spec().lt_spec(scores[b]),
    ensures
        0 <= best < action_space,
        nodes[1 + best].legal,
        nodes[1 + best].visits == nodes[1 + b].visits,
        !scores[best].lt_spec(scores[b]),
        b < best ==> scores[b].lt_spec(scores[best]),
{
    let most = choose|most: usize|
        {
            &&& #[trigger] most_legal_visits(nodes, action_space, most as int)
            &&& best_of_most(nodes, action_space, scores, most, best)
        };
    assert(root_child(nodes, b) == nodes[1 + b]);
    if most != nodes[1 + b].visits {
        assert(most > 0);
        let c = choose|c: int|
            0 <= c < action_space && (#[trigger] root_child(nodes, c)).legal && root_child(
                nodes,
                c,
            ).visits == most;
        assert(nodes[1 + c].visits <= nodes[1 + b].visits);
    }
    let allowed = choosable(nodes, 0, action_space, Some(most));
    assert(allowed[b]);
    assert(allowed[best]);
    if b < best {
        assert(scores[b].lt_spec(scores[best]) || scores[b].nan());
    }
}

/// Whether weights are the given ones for the legal actions and zero for all others.
pub open spec fn on_legal_actions(
    nodes: Seq<BatchNode>,
    given: Seq<Single>,
    weights: Seq<Single>,
) -> bool {
    &&& weights.len() == given.len()
    &&& forall|a: int|
        0 <= a < given.len() ==> #[trigger] weights[a] == if nodes[nodes[0].first_child
            + a].legal {
            given[a]
        } else {
            Single::zero_spec()
        }
}

/// What a search by visits says of a position: of its legal actions, the first of those with the
/// most visits. The policy to train on gives every legal action the share of the visits that the
/// model reckons, and illegal ones nothing. At temperature zero the distribution is all on the best
/// action; otherwise it is the sharpened shares of the legal actions, if they add up to something.
pub proof fn visits_say_what_to_play<M: SearchModel>(
    job: Job,
    model: M,
    tau: Single,
    r: Seq<SearchReturn>,
    k: int,
)
    requires
        results_of(job, model, tau, r),
        job.algorithm is Puct,
        0 <= k < job.open().len(),
    ensures
        ({
            let tree = final_trees(job, model)[k];
            let n = tree.action_space as int;
            let result = r[job.open()[k] as int];
            exists|m: M|
                {
                    let s = #[trigger] m.shares_spec(k as usize, tree).0;
                    &&& most_visited(tree.nodes, n, result.best_action as int)
                    &&& (exists|a: int|
                        0 <= a < n && (#[trigger] tree.nodes[1 + a]).legal && tree.nodes[1
                            + a].visits > 0) ==> on_legal_actions(
                        tree.nodes,
                        s.shares,
                        result.policy_target@,
                    )
                    &&& tree.nodes[0].visits > 0 ==> result.value == s.mean
                    &&& tree.nodes[0].visits == 0 ==> result.value == Single::zero_spec()
                    &&& tau.rank() != 0 && !tau.nan() && Single::zero_spec().lt_spec(s.power_sum)
                        ==> on_legal_actions(tree.nodes, s.powers, result.distribution@)
                    &&& tau.rank() == 0 && !tau.nan() ==> {
                        &&& result.distribution@.len() == n
                        &&& forall|a: int|
                            0 <= a < n ==> #[trigger] result.distribution@[a] == if a
                                == result.best_action {
                                Single::one_spec()
                            } else {
                                Single::zero_spec()
                            }
                    }
                }
        }),
{
    let trees = final_trees(job, model);
    let tree = trees[k];
    let n = tree.action_space as int;
    let row = job.open()[k] as int;
    assert(said(job.algorithm, trees, final_model(job, model), k, tau, r[job.open()[k] as int]));
    let m = asked(job.algorithm, trees, final_model(job, model), k)->0;
    let s = m.shares_spec(k as usize, tree).0;
    if exists|a: int|
        0 <= a < n && (#[trigger] tree.nodes[1 + a]).legal && tree.nodes[1 + a].visits > 0 {
        let a = choose|a: int|
            0 <= a < n && (#[trigger] tree.nodes[1 + a]).legal && tree.nodes[1 + a].visits > 0;
        lemma_some_legal_visits(tree.nodes, a, n);
    }
}

proof fn lemma_some_legal_visits(nodes: Seq<BatchNode>, a: int, count: int)
    requires
        0 <= a < count,
        nodes[1 + a].legal,
        nodes[1 + a].visits > 0,
    ensures
        crate::tree::legal_visits_in(nodes, 1, count) > 0,
    decreases count,
{
    lemma_no_negative_visits(nodes, count - 1);
    if a < count - 1 {
        lemma_some_legal_visits(nodes, a, count - 1);
    }
}

proof fn lemma_no_negative_visits(nodes: Seq<BatchNode>, count: int)
    ensures
        crate::tree::legal_visits_in(nodes, 1, count) >= 0,
    decreases count,
{
    if count > 0 {
        lemma_no_negative_visits(nodes, count - 1);
    }
}

/// What a search by halving says of a position: its best finalist, the mixed value, and the
/// improved policy of the legal actions to train on. The distribution is all on the best action.
pub proof fn halving_says_what_to_play<M: SearchModel>(
    job: Job,
    model: M,
    tau: Single,
    r: Seq<SearchReturn>,
    k: int,
)
    requires
        results_of(job, model, tau, r),
        job.algorithm is Gumbel,
        0 <= k < job.open().len(),
    ensures
        ({
            let tree = final_trees(job, model)[k];
            let n = tree.action_space as int;
            let result = r[job.open()[k] as int];
            exists|m: M|
                {
                    let p = #[trigger] m.policy_spec(k as usize, tree).0;
                    &&& gumbel_best(tree.nodes, n, p.scores, result.best_action as int)
                    &&& result.value == p.mixed_value
                    &&& on_legal_actions(tree.nodes, p.policy, result.policy_target@)
                    &&& result.distribution@.len() == n
                    &&& forall|a: int|
                        0 <= a < n ==> #[trigger] result.distribution@[a] == if a
                            == result.best_action {
                            Single::one_spec()
                        } else {
                            Single::zero_spec()
                        }
                }
        }),
{
    let trees = final_trees(job, model);
    let tree = trees[k];
    assert(said(job.algorithm, trees, final_model(job, model), k, tau, r[job.open()[k] as int]));
    let m = asked(job.algorithm, trees, final_model(job, model), k)->0;
    let p = m.policy_spec(k as usize, tree).0;
}

/// A position with one legal action is not searched: the action is played for certain, and the
/// value is the one that the network gave.
pub proof fn lone_actions_are_played<M: SearchModel>(
    job: Job,
    model: M,
    tau: Single,
    r: Seq<SearchReturn>,
    i: int,
    a: int,
)
    requires
        results_of(job, model, tau, r),
        0 <= i < job.count(),
        job.masks is Some,
        0 <= a < job.masks->0[i].len() <= usize::MAX,
        forall|b: int|
            0 <= b < job.masks->0[i].len() ==> #[trigger] job.masks->0[i][b] == (b == a),
    ensures
        r[i].best_action == a,
        r[i].value == job.roots.values[i],
        r[i].distribution@.len() == job.action_space,
        r[i].policy_target@.len() == job.action_space,
        forall|b: int|
            0 <= b < job.action_space ==> #[trigger] r[i].distribution@[b] == if b == a {
                Single::one_spec()
            } else {
                Single::zero_spec()
            },
        forall|b: int|
            0 <= b < job.action_space ==> #[trigger] r[i].policy_target@[b] == if b == a {
                Single::one_spec()
            } else {
                Single::zero_spec()
            },
{
    let mask = job.masks->0[i];
    assert(mask[a]);
    assert(crate::batch::only_legal(mask, a));
    let c = choose|c: int| #[trigger] crate::batch::only_legal(mask, c);
    assert(mask[c]);
    assert(job.forced(i) == Some(a as usize));
}

/// A search takes up just the positions that are not decided by their masks, in their order: those
/// with no mask, and those whose masks leave none or several actions.
pub proof fn undecided_positions_are_searched(forced: Seq<Option<usize>>, end: int, i: int)
    requires
        0 <= i < end <= forced.len() <= usize::MAX,
    ensures
        forced[i] is None <==> open_rows(forced, end).contains(i as usize),
        forall|j: int, k: int|
            0 <= j < k < open_rows(forced, end).len() ==> #[trigger] open_rows(forced, end)[j]
                < #[trigger] open_rows(forced, end)[k],
        forall|j: int|
            0 <= j < open_rows(forced, end).len() ==> #[trigger] open_rows(forced, end)[j] < end,
    decreases end,
{
    lemma_open_rows_order(forced, end);
    crate::batch::lemma_open_rows(forced, end);
    let rows = open_rows(forced, end);
    if rows.contains(i as usize) {
        let k = choose|k: int| 0 <= k < rows.len() && rows[k] == i as usize;
        assert(rows[k] == i);
    }
}

proof fn lemma_open_rows_order(forced: Seq<Option<usize>>, end: int)
    requires
        0 <= end <= forced.len() <= usize::MAX,
    ensures
        forall|j: int, k: int|
            0 <= j < k < open_rows(forced, end).len() ==> #[trigger] open_rows(forced, end)[j]
                < #[trigger] open_rows(forced, end)[k],
        forall|j: int|
            0 <= j < open_rows(forced, end).len() ==> (#[trigger] open_rows(forced, end)[j]) < end
                && forced[open_rows(forced, end)[j] as int] is None,
    decreases end,
{
    if end > 0 {
        lemma_open_rows_order(forced, end - 1);
    }
}

/// The legal actions of a mask are counted one by one.
pub proof fn legal_actions_are_counted(mask: Seq<bool>)
    ensures
        legal_count(mask, mask.len() as int) == mask.to_multiset().count(true),
    decreases mask.len(),
{
    broadcast use vstd::seq_lib::group_to_multiset_ensures;

    if mask.len() > 0 {
        let shorter = mask.drop_last();
        legal_actions_are_counted(shorter);
        lemma_count_prefix(mask, shorter, shorter.len() as int);
        assert(mask =~= shorter.push(mask.last()));
        assert(mask.to_multiset() =~= shorter.to_multiset().insert(mask.last()));
    } else {
        assert(mask.to_multiset().len() == 0);
    }
}

proof fn lemma_count_prefix(mask: Seq<bool>, shorter: Seq<bool>, end: int)
    requires
        0 <= end <= shorter.len() <= mask.len(),
        forall|i: int| 0 <= i < shorter.len() ==> shorter[i] == mask[i],
    ensures
        legal_count(mask, end) == legal_count(shorter, end),
    decreases end,
{
    if end > 0 {
        lemma_count_prefix(mask, shorter, end - 1);
    }
}

/// Halving starts with all legal actions, or with as many as the limit lets it.
pub proof fn halving_starts_with_all_that_fit(
    masks: Option<Seq<Seq<bool>>>,
    row: int,
    max_considered: int,
    action_space: int,
)
    requires
        masks matches Some(m) ==> m[row].len() == action_space,
        0 <= action_space,
    ensures
        ({
            let n = considered_at(masks, row, max_considered, action_space);
            let legal = match masks {
                Some(m) => m[row].to_multiset().count(true) as int,
                None => action_space,
            };
            &&& n <= legal
            &&& n <= max_considered
            &&& n == legal || n == max_considered
        }),
{
    if let Some(m) = masks {
        broadcast use vstd::seq_lib::group_to_multiset_ensures;

        legal_actions_are_counted(m[row]);
        lemma_count_bounded(m[row], m[row].len() as int);
    }
}

proof fn lemma_count_bounded(mask: Seq<bool>, end: int)
    requires
        0 <= end,
    ensures
        legal_count(mask, end) <= end,
    decreases end,
{
    if end > 0 {
        lemma_count_bounded(mask, end - 1);
    }
}

/// What a tree starts from: the root holds what the network said of the position, and has one child
/// for each action, in order. A child has the prior of its action. It has the logit too where the
/// action is legal, and negative infinity where it is not. No child has a visit.
pub proof fn trees_start_from_the_prediction(job: Job, k: int, a: int)
    requires
        0 <= k < job.open().len() <= usize::MAX,
        0 <= a < job.action_space,
    ensures
        ({
            let row = job.open()[k] as int;
            let nodes = job.trees()[k].nodes;
            let child = nodes[1 + a];
            let legal = job.masks is None || job.masks->0[row][a];
            &&& nodes.len() == 1 + job.action_space
            &&& nodes[0].first_child == 1
            &&& nodes[0].visits == job.root_visits
            &&& nodes[0].value == job.roots.values[row]
            &&& nodes[0].reward == job.roots.rewards[row]
            &&& job.root_visits == 0 ==> nodes[0].cumulative_value == Single::zero_spec()
            &&& job.root_visits != 0 ==> nodes[0].cumulative_value == job.roots.values[row]
            &&& nodes[0].prior == Single::zero_spec() && nodes[0].logit == Single::zero_spec()
            &&& nodes[0].hidden_row == k && nodes[0].action == 0 && nodes[0].legal
            &&& job.trees()[k].path == seq![0usize]
            &&& job.trees()[k].action_space == job.action_space
            &&& job.trees()[k].root_visits == job.root_visits
            &&& job.trees().len() == job.open().len()
            &&& child.action == a
            &&& child.prior == job.roots.priors[row][a]
            &&& child.legal == legal
            &&& legal ==> child.logit == job.roots.logits[row][a]
            &&& !legal ==> child.logit == Single::neg_infinity_spec()
            &&& child.visits == 0
            &&& child.first_child == 0
            &&& child.hidden_row == 0
            &&& child.cumulative_value == Single::zero_spec()
            &&& child.reward == Single::zero_spec() && child.value == Single::zero_spec()
        }),
{
}

/// The network is asked of the step that a walk ends with: of the hidden state of the node that it
/// comes from, and of the action that leads from there to the leaf.
pub proof fn networks_are_asked_of_the_last_step(trees: Seq<TreeView>, k: int, parent: int)
    requires
        0 <= k < trees.len(),
        trees[k].nodes.len() <= i64::MAX,
        trees[k].action_space <= i64::MAX,
        trees[k].path.len() >= 2,
        blocks_wf(trees[k].nodes, trees[k].action_space as int),
        path_wf(trees[k].nodes, trees[k].action_space as int, trees[k].path),
        0 <= parent < trees[k].nodes.len(),
        trees[k].nodes[parent].first_child != 0,
        trees[k].nodes[parent].first_child <= trees[k].path.last() < trees[k].nodes[parent].first_child
            + trees[k].action_space,
        trees[k].nodes[parent].hidden_row <= i64::MAX,
    ensures
        asked_rows(trees).len() == trees.len(),
        asked_actions(trees).len() == trees.len(),
        asked_rows(trees)[k] == trees[k].nodes[parent].hidden_row,
        trees[k].nodes[parent].first_child + asked_actions(trees)[k] == trees[k].path.last(),
{
    let nodes = trees[k].nodes;
    let path = trees[k].path;
    let n = trees[k].action_space as int;
    let last = path.len() - 1;
    assert(path_step(nodes, n, path, last - 1));
    assert(path[last - 1] < nodes.len());
    let before = path[last - 1] as int;
    assert(expanded(nodes, before));
    assert(expanded(nodes, parent));
    assert(before == parent);
    let a = path[last] - nodes[parent].first_child;
    assert(nodes[child_of(nodes, parent, a)].action == a);
}

/// What a simulation leaves in a tree. Every node of the walk has one visit more, and the sum of
/// values that the model reckoned for it. The leaf has what the network said of it, a hidden state
/// of its own, and a child for each action behind all other nodes, with its prior and logit, legal
/// and without a visit. Nothing else changes.
pub proof fn simulations_grow_one_leaf(
    trees: Seq<TreeView>,
    arena_len: int,
    p: PredictionsView,
    sums: Seq<Seq<Single>>,
    after: Seq<BatchNode>,
    k: int,
)
    requires
        0 <= k < trees.len(),
        0 <= arena_len,
        arena_len + trees.len() <= usize::MAX,
        ({
            let path = trees[k].path;
            let leaf = path.last() as int;
            &&& path.len() >= 1
            &&& path.no_duplicates()
            &&& forall|j: int| 0 <= j < path.len() ==> #[trigger] path[j] < trees[k].nodes.len()
            &&& forall|j: int|
                0 <= j < path.len() ==> trees[k].nodes[#[trigger] path[j] as int].visits
                    < usize::MAX
            &&& trees[k].nodes.len() + p.priors[k].len() <= usize::MAX
            &&& p.logits[k].len() == p.priors[k].len()
            &&& sums[k].len() == path.len()
            &&& backed_up(
                after_expansion(
                    trees[k].nodes,
                    leaf,
                    (arena_len + k) as usize,
                    p.rewards[k],
                    p.values[k],
                    p.priors[k],
                    p.logits[k],
                ),
                after,
                path,
                sums[k],
            )
        }),
    ensures
        absorbed(trees, arena_len, p, sums)[k].nodes == after,
        absorbed(trees, arena_len, p, sums)[k].path == trees[k].path,
        ({
            let before = trees[k].nodes;
            let path = trees[k].path;
            let leaf = path[path.len() - 1] as int;
            &&& after.len() == before.len() + p.priors[k].len()
            &&& forall|j: int|
                0 <= j < path.len() ==> {
                    let was = before[#[trigger] path[j] as int];
                    let is = after[path[j] as int];
                    &&& is.visits == was.visits + 1
                    &&& is.cumulative_value == sums[k][j]
                    &&& is.action == was.action
                    &&& is.prior == was.prior
                    &&& is.logit == was.logit
                    &&& is.legal == was.legal
                    &&& j < path.len() - 1 ==> is.first_child == was.first_child && is.hidden_row
                        == was.hidden_row && is.reward == was.reward && is.value == was.value
                }
            &&& after[leaf].first_child == before.len()
            &&& after[leaf].hidden_row == arena_len + k
            &&& after[leaf].reward == p.rewards[k]
            &&& after[leaf].value == p.values[k]
            &&& forall|i: int|
                0 <= i < before.len() && (forall|j: int| 0 <= j < path.len() ==> path[j] != i)
                    ==> #[trigger] after[i] == before[i]
            &&& forall|a: int|
                0 <= a < p.priors[k].len() ==> {
                    let child = #[trigger] after[before.len() + a];
                    &&& child.action == a
                    &&& child.prior == p.priors[k][a]
                    &&& child.logit == p.logits[k][a]
                    &&& child.legal
                    &&& child.visits == 0
                    &&& child.first_child == 0
                    &&& child.hidden_row == 0
                    &&& child.cumulative_value == Single::zero_spec()
                    &&& child.reward == Single::zero_spec() && child.value == Single::zero_spec()
                }
        }),
{
    let before = trees[k].nodes;
    let path = trees[k].path;
    let leaf = path[path.len() - 1] as int;
    let grown = after_expansion(
        before,
        leaf,
        (arena_len + k) as usize,
        p.rewards[k],
        p.values[k],
        p.priors[k],
        p.logits[k],
    );
    crate::course::lemma_one_backup(grown, after, path, sums[k]);
    assert(leaf == path.last());
    assert forall|j: int| 0 <= j < path.len() implies ({
        let was = before[#[trigger] path[j] as int];
        let is = after[path[j] as int];
        &&& is.visits == was.visits + 1
        &&& is.cumulative_value == sums[k][j]
        &&& is.action == was.action
        &&& is.prior == was.prior
        &&& is.logit == was.logit
        &&& is.legal == was.legal
        &&& j < path.len() - 1 ==> is.first_child == was.first_child && is.hidden_row
            == was.hidden_row && is.reward == was.reward && is.value == was.value
    }) by {
        assert(after[path[j] as int].visits == (grown[path[j] as int].visits + 1) as usize);
        if j < path.len() - 1 {
            assert(path[j] != path[path.len() - 1]);
        }
    }
    assert(after[path[path.len() - 1] as int].first_child == before.len());
    assert forall|i: int|
        0 <= i < before.len() && (forall|j: int| 0 <= j < path.len() ==> path[j] != i) implies
        #[trigger] after[i] == before[i] by {
        assert(!on_path(path, i));
        assert(i != leaf);
        assert(after[i] == grown[i]);
    }
    assert forall|a: int| 0 <= a < p.priors[k].len() implies ({
        let child = #[trigger] after[before.len() + a];
        &&& child.action == a
        &&& child.prior == p.priors[k][a]
        &&& child.logit == p.logits[k][a]
        &&& child.legal
        &&& child.visits == 0
        &&& child.first_child == 0
        &&& child.cumulative_value == Single::zero_spec()
    }) by {
        let i = before.len() + a;
        if on_path(path, i) {
            let j = choose|j: int| 0 <= j < path.len() && #[trigger] path[j] == i;
            assert(path[j] < before.len());
        }
        assert(after[i] == grown[i]);
    }
}

/// What a search by visits says where there is nothing to share: without a visit of a legal action
/// the policy to train on is nothing everywhere, and where the sharpened shares add up to nothing
/// the distribution is all on the best action.
pub proof fn nothing_is_shared_without_visits<M: SearchModel>(
    job: Job,
    model: M,
    tau: Single,
    r: Seq<SearchReturn>,
    k: int,
)
    requires
        results_of(job, model, tau, r),
        job.algorithm is Puct,
        0 <= k < job.open().len(),
    ensures
        ({
            let tree = final_trees(job, model)[k];
            let n = tree.action_space as int;
            let result = r[job.open()[k] as int];
            exists|m: M|
                {
                    let s = #[trigger] m.shares_spec(k as usize, tree).0;
                    &&& (forall|a: int|
                        0 <= a < n && (#[trigger] tree.nodes[1 + a]).legal ==> tree.nodes[1
                            + a].visits == 0) ==> {
                        &&& result.policy_target@.len() == n
                        &&& forall|a: int|
                            0 <= a < n ==> #[trigger] result.policy_target@[a]
                                == Single::zero_spec()
                    }
                    &&& !Single::zero_spec().lt_spec(s.power_sum) ==> {
                        &&& result.distribution@.len() == n
                        &&& forall|a: int|
                            0 <= a < n ==> #[trigger] result.distribution@[a] == if a
                                == result.best_action {
                                Single::one_spec()
                            } else {
                                Single::zero_spec()
                            }
                    }
                }
        }),
{
    let trees = final_trees(job, model);
    let tree = trees[k];
    let n = tree.action_space as int;
    assert(said(job.algorithm, trees, final_model(job, model), k, tau, r[job.open()[k] as int]));
    let m = asked(job.algorithm, trees, final_model(job, model), k)->0;
    let s = m.shares_spec(k as usize, tree).0;
    if forall|a: int|
        0 <= a < n && (#[trigger] tree.nodes[1 + a]).legal ==> tree.nodes[1 + a].visits == 0 {
        lemma_no_legal_visits(tree.nodes, n);
    }
}

proof fn lemma_no_legal_visits(nodes: Seq<BatchNode>, count: int)
    requires
        forall|a: int|
            0 <= a < count && (#[trigger] nodes[1 + a]).legal ==> nodes[1 + a].visits == 0,
    ensures
        crate::tree::legal_visits_in(nodes, 1, count) == 0,
    decreases count,
{
    if count > 0 {
        lemma_no_legal_visits(nodes, count - 1);
        assert(nodes[1 + (count - 1)].legal ==> nodes[1 + (count - 1)].visits == 0);
    }
}

/// What the search of one position without illegal actions says: the mean that the model reckons.
/// Without temperature it plays the last of the actions with the most visits, for certain.
/// Otherwise the distribution is that of the sharpened shares, and the best action the first of the
/// legal ones with the most visits.
pub proof fn single_searches_play_by_visits<M: SearchModel>(
    job: Job,
    model: M,
    tau: Single,
    distribution: Seq<Single>,
    value: Single,
    best: usize,
    b: int,
)
    requires
        single_result(job, model, tau, distribution, value, best),
        !tau.nan(),
        final_trees(job, model)[0].nodes[0].first_child == 1,
        0 <= b < job.action_space,
    ensures
        ({
            let nodes = final_trees(job, model)[0].nodes;
            let s = final_model(job, model).shares_spec(0, final_trees(job, model)[0]).0;
            &&& value == s.mean
            &&& tau.rank() == 0 ==> {
                &&& best < job.action_space
                &&& nodes[1 + b].visits <= nodes[1 + best].visits
                &&& b > best ==> nodes[1 + b].visits < nodes[1 + best].visits
                &&& distribution.len() == job.action_space
                &&& distribution[b] == if b == best {
                    Single::one_spec()
                } else {
                    Single::zero_spec()
                }
            }
            &&& tau.rank() != 0 ==> {
                &&& distribution == s.powers
                &&& nodes[1 + b].legal && nodes[1 + b].visits > 0 ==> {
                    &&& nodes[1 + best].legal
                    &&& nodes[1 + b].visits <= nodes[1 + best].visits
                    &&& b < best ==> nodes[1 + b].visits < nodes[1 + best].visits
                }
            }
        }),
{
    let nodes = final_trees(job, model)[0].nodes;
    assert(root_child(nodes, b) == nodes[1 + b]);
    assert(root_child(nodes, best as int) == nodes[1 + best]);
    if tau.rank() != 0 && nodes[1 + b].legal {
        most_visits_win(nodes, job.action_space as int, best as int, b);
    }
}

/// The search of one position is by visits, of all actions, from one visit of the root on.
pub proof fn single_jobs_search_all_actions(
    action_space: usize,
    num_simulations: usize,
    roots: Predictions,
    row: int,
    a: int,
)
    ensures
        ({
            let job = single_job(action_space, num_simulations, roots);
            &&& job.algorithm is Puct
            &&& job.root_visits == 1
            &&& job.num_simulations == num_simulations
            &&& job.action_space == action_space
            &&& job.legal(row, a)
            &&& job.forced(row) is None
            &&& job.roots == roots@
        }),
{
}

/// The visits that halving asks for at a step are those of the schedule for that step, made for the
/// actions that the position starts with and for all simulations of the search.
pub proof fn thresholds_follow_the_schedule(job: Job, k: int, step: int)
    requires
        job.algorithm is Gumbel,
        0 <= k < job.open().len(),
        0 <= job.action_space,
        job.masks matches Some(m) ==> m[job.open()[k] as int].len() == job.action_space,
    ensures
        ({
            let row = job.open()[k] as int;
            let legal = match job.masks {
                Some(m) => m[row].to_multiset().count(true) as int,
                None => job.action_space as int,
            };
            let n = if legal < job.max_considered {
                legal
            } else {
                job.max_considered as int
            };
            job.threshold(k, step) == considered_visits(n as nat, job.num_simulations as nat)[step]
        }),
{
    halving_starts_with_all_that_fit(
        job.masks,
        job.open()[k] as int,
        job.max_considered as int,
        job.action_space as int,
    );
}

/// A walk of a tree starts at the root, and ends where it has come to a node without children.
pub proof fn tree_walks_end_at_leaves<M: SearchModel>(
    algorithm: SearchAlgorithm,
    tree: TreeView,
    i: usize,
    threshold: usize,
    model: M,
)
    requires
        tree.path.len() > 0,
        tree.path.last() < tree.nodes.len(),
        tree.nodes[tree.path.last() as int].first_child == 0,
    ensures
        walked(algorithm, tree, i, threshold, model) == Some((tree, model)),
{
}

/// A walk of a tree goes on from a node to the child that the scores of that node point at, and
/// leaves the nodes as they are.
pub proof fn tree_walks_go_on_to_the_chosen_child<M: SearchModel>(
    algorithm: SearchAlgorithm,
    tree: TreeView,
    i: usize,
    threshold: usize,
    model: M,
    child: usize,
) -> (next: TreeView)
    requires
        tree.path.len() > 0,
        tree.path.last() < tree.nodes.len(),
        tree.nodes[tree.path.last() as int].first_child != 0,
        model.score_spec(i, tree, tree.path.last()).0.len() == tree.action_space,
        chosen_child(
            algorithm,
            tree.nodes,
            tree.path.last() as int,
            model.score_spec(i, tree, tree.path.last()).0,
            threshold,
            child as int,
        ),
        tree.path.last() < child < tree.nodes.len(),
    ensures
        walked(algorithm, tree, i, threshold, model) == walked(
            algorithm,
            next,
            i,
            threshold,
            model.score_spec(i, tree, tree.path.last()).1,
        ),
        next.nodes == tree.nodes,
        next.path == tree.path.push(child),
        next.action_space == tree.action_space,
        next.root_visits == tree.root_visits,
{
    let at = tree.path.last() as int;
    let scores = model.score_spec(i, tree, tree.path.last()).0;
    lemma_one_child(algorithm, tree.nodes, at, scores, threshold, threshold, child as int);
    TreeView { path: tree.path.push(child), ..tree }
}

/// Every simulation begins at the roots, with the trees as they are.
pub proof fn simulations_begin_at_the_roots(trees: Seq<TreeView>, k: int)
    requires
        0 <= k < trees.len(),
    ensures
        begun(trees).len() == trees.len(),
        begun(trees)[k].path.len() == 1,
        begun(trees)[k].path[0] == 0,
        begun(trees)[k].nodes == trees[k].nodes,
        begun(trees)[k].action_space == trees[k].action_space,
        begun(trees)[k].root_visits == trees[k].root_visits,
{
}

proof fn lemma_walked_in_turn<M: SearchModel>(
    job: Job,
    step: int,
    trees: Seq<TreeView>,
    model: M,
    k: int,
)
    requires
        0 <= k <= trees.len(),
        all_walked(job, step, trees, model, k) is Some,
    ensures
        ({
            let (after, last) = all_walked(job, step, trees, model, k)->0;
            &&& after.len() == trees.len()
            &&& forall|j: int| k <= j < trees.len() ==> #[trigger] after[j] == trees[j]
        }),
    decreases k,
{
    if k > 0 {
        lemma_walked_in_turn(job, step, trees, model, k - 1);
    }
}

/// The trees are walked one after the other, each by its own scores and with its own threshold; a
/// walk in one tree leaves all others as they are, and all go by the model as the one before leaves
/// it.
pub proof fn trees_are_walked_in_turn<M: SearchModel>(
    job: Job,
    step: int,
    trees: Seq<TreeView>,
    model: M,
    k: int,
)
    requires
        0 <= k < trees.len(),
        all_walked(job, step, trees, model, k + 1) is Some,
    ensures
        all_walked(job, step, trees, model, 0) == Some((trees, model)),
        all_walked(job, step, trees, model, k) is Some,
        ({
            let (before, between) = all_walked(job, step, trees, model, k)->0;
            let (after, last) = all_walked(job, step, trees, model, k + 1)->0;
            &&& walked(job.algorithm, trees[k], k as usize, job.threshold(k, step), between)
                == Some((after[k], last))
            &&& after.len() == trees.len()
            &&& forall|j: int| 0 <= j < k ==> #[trigger] after[j] == before[j]
            &&& forall|j: int| k < j < trees.len() ==> #[trigger] after[j] == trees[j]
        }),
{
    lemma_walked_in_turn(job, step, trees, model, k);
}

/// The sums along the walk of a tree are reckoned from that tree, and from the reward and the value
/// that were predicted for its leaf; there is one for each node of the walk.
pub proof fn sums_are_of_their_own_trees<M: SearchModel>(
    trees: Seq<TreeView>,
    rewards: Seq<Single>,
    values: Seq<Single>,
    model: M,
    n: int,
    k: int,
)
    requires
        0 <= k < n <= trees.len(),
        all_summed(trees, rewards, values, model, n) is Some,
    ensures
        ({
            let (sums, last) = all_summed(trees, rewards, values, model, n)->0;
            &&& sums.len() == n
            &&& sums[k].len() == trees[k].path.len()
            &&& exists|m: M|
                sums[k] == (#[trigger] m.back_up_spec(
                    k as usize,
                    trees[k],
                    rewards[k],
                    values[k],
                )).0
        }),
    decreases n,
{
    let (before, between) = all_summed(trees, rewards, values, model, n - 1)->0;
    let (sums, last) = all_summed(trees, rewards, values, model, n)->0;
    lemma_sums_are_counted(trees, rewards, values, model, n - 1);
    if k < n - 1 {
        sums_are_of_their_own_trees(trees, rewards, values, model, n - 1, k);
        let m = choose|m: M|
            before[k] == (#[trigger] m.back_up_spec(k as usize, trees[k], rewards[k], values[k])).0;
        assert(sums[k] == m.back_up_spec(
            k as usize,
            trees[k],
            rewards[k],
            values[k],
        ).0);
    } else {
        assert(sums[k] == between.back_up_spec(
            k as usize,
            trees[k],
            rewards[k],
            values[k],
        ).0);
    }
}

proof fn lemma_sums_are_counted<M: SearchModel>(
    trees: Seq<TreeView>,
    rewards: Seq<Single>,
    values: Seq<Single>,
    model: M,
    n: int,
)
    requires
        0 <= n <= trees.len(),
        all_summed(trees, rewards, values, model, n) is Some,
    ensures
        ({
            let (sums, last) = all_summed(trees, rewards, values, model, n)->0;
            sums.len() == n
        }),
    decreases n,
{
    if n > 0 {
        lemma_sums_are_counted(trees, rewards, values, model, n - 1);
    }
}

/// A search has as many simulations as it is asked for, one after the other: from one step on it is
/// that simulation and then the rest, and at the last step nothing is left to do.
pub proof fn simulations_follow_each_other<M: SearchModel>(
    job: Job,
    step: int,
    trees: Seq<TreeView>,
    model: M,
)
    requires
        trees.len() > 0,
    ensures
        step >= job.num_simulations ==> simulated_from(job, step, trees, model) == Some(
            (trees, model),
        ),
        step < job.num_simulations ==> match simulated(job, step, trees, model) {
            Some((after, next)) => simulated_from(job, step, trees, model) == simulated_from(
                job,
                step + 1,
                after,
                next,
            ),
            None => simulated_from(job, step, trees, model) is None,
        },
{
}

} // verus!
