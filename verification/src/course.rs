//! The course of a batch search as a function of what it is given and of the model's answers.
//!
//! Every step is here as a specification: how a walk goes on, what a simulation leaves, what
//! all simulations leave. The model changes as it answers, so its states go along. Where an
//! answer does not have the length asked for, there is no course.
use vstd::prelude::*;
use crate::batch::{chosen_child, considered_at, only_legal, open_rows};
use crate::config::SearchAlgorithm;
use crate::considered::considered_visits;
use crate::extract::{SearchReturn, legal_only, most_visited, one_hot_spec};
use crate::search::{PolicyView, PredictionsView, SearchModel, SharesView, gumbel_best};
use crate::single::Single;
use crate::tree::{
    BatchNode, TreeView, after_expansion, backed_up, expanded, first_best, fresh_child,
    legal_visits_in, none_best, on_path,
};

verus! {

/// What a batch search is to do.
pub struct Job {
    pub algorithm: SearchAlgorithm,
    pub max_considered: usize,
    pub action_space: usize,
    pub num_simulations: usize,
    pub root_visits: usize,
    pub masks: Option<Seq<Seq<bool>>>,
    pub roots: PredictionsView,
}

/// Whether predictions have one entry for each of `count` positions, and for each action.
pub open spec fn fits(p: PredictionsView, count: int, action_space: int) -> bool {
    &&& p.rewards.len() == count
    &&& p.values.len() == count
    &&& p.priors.len() == count
    &&& p.logits.len() == count
    &&& forall|i: int| 0 <= i < count ==> (#[trigger] p.priors[i]).len() == action_space
    &&& forall|i: int| 0 <= i < count ==> (#[trigger] p.logits[i]).len() == action_space
}

impl Job {
    /// The number of positions.
    pub open spec fn count(self) -> nat {
        self.roots.rewards.len()
    }

    /// The action that the mask of a position leaves as the only one, if it does.
    pub open spec fn forced(self, row: int) -> Option<usize> {
        match self.masks {
            Some(m) => if exists|a: int| #[trigger] only_legal(m[row], a) {
                Some((choose|a: int| #[trigger] only_legal(m[row], a)) as usize)
            } else {
                None
            },
            None => None,
        }
    }

    /// The positions that are searched.
    pub open spec fn open(self) -> Seq<usize> {
        open_rows(Seq::new(self.count(), |i: int| self.forced(i)), self.count() as int)
    }

    /// Whether an action of a position is legal.
    pub open spec fn legal(self, row: int, a: int) -> bool {
        match self.masks {
            Some(m) => m[row][a],
            None => true,
        }
    }

    /// The tree of searched position `k` before its first simulation.
    pub open spec fn root(self, k: int) -> TreeView {
        let row = self.open()[k] as int;
        let root = BatchNode {
            visits: self.root_visits,
            action: 0,
            hidden_row: k as usize,
            first_child: 1,
            cumulative_value: if self.root_visits == 0 {
                Single::zero_spec()
            } else {
                self.roots.values[row]
            },
            reward: self.roots.rewards[row],
            prior: Single::zero_spec(),
            logit: Single::zero_spec(),
            value: self.roots.values[row],
            legal: true,
        };
        let children = Seq::new(
            self.action_space as nat,
            |a: int|
                fresh_child(
                    a,
                    self.roots.priors[row][a],
                    if self.legal(row, a) {
                        self.roots.logits[row][a]
                    } else {
                        Single::neg_infinity_spec()
                    },
                    self.legal(row, a),
                ),
        );
        TreeView {
            nodes: seq![root] + children,
            action_space: self.action_space,
            root_visits: self.root_visits,
            path: seq![0usize],
        }
    }

    /// The trees before the first simulation.
    pub open spec fn trees(self) -> Seq<TreeView> {
        Seq::new(self.open().len(), |k: int| self.root(k))
    }

    /// The visits that the root of tree `k` requires in a simulation.
    pub open spec fn threshold(self, k: int, step: int) -> usize {
        if self.algorithm is Gumbel {
            considered_visits(
                considered_at(
                    self.masks,
                    self.open()[k] as int,
                    self.max_considered as int,
                    self.action_space as int,
                ) as nat,
                self.num_simulations as nat,
            )[step]
        } else {
            0
        }
    }
}

/// The child of a node that a search descends to for scores.
pub open spec fn picked(
    algorithm: SearchAlgorithm,
    nodes: Seq<BatchNode>,
    i: int,
    scores: Seq<Single>,
    threshold: usize,
) -> int {
    choose|c: int| chosen_child(algorithm, nodes, i, scores, threshold, c)
}

/// A search descends to one child alone.
pub proof fn lemma_one_child(
    algorithm: SearchAlgorithm,
    nodes: Seq<BatchNode>,
    i: int,
    scores: Seq<Single>,
    threshold: usize,
    other_threshold: usize,
    c: int,
)
    requires
        chosen_child(algorithm, nodes, i, scores, threshold, c),
        algorithm is Gumbel ==> threshold == other_threshold,
    ensures
        picked(algorithm, nodes, i, scores, other_threshold) == c,
{
    assert(chosen_child(algorithm, nodes, i, scores, other_threshold, c));
    let d = picked(algorithm, nodes, i, scores, other_threshold);
    assert(chosen_child(algorithm, nodes, i, scores, other_threshold, d));
    if algorithm is Gumbel && i == 0 {
        let legal = |b: int| nodes[crate::tree::child_of(nodes, 0, b)].legal;
        let first = nodes[0].first_child as int;
        assert(legal(c - first) || !legal(c - first));
        assert(legal(d - first) || !legal(d - first));
    }
}

/// Where a walk that has come to the end of `tree.path` ends, by the model's scores.
pub open spec fn walked<M: SearchModel>(
    algorithm: SearchAlgorithm,
    tree: TreeView,
    i: usize,
    threshold: usize,
    model: M,
) -> Option<(TreeView, M)>
    decreases tree.nodes.len() - tree.path.last(),
{
    let at = tree.path.last();
    if at >= tree.nodes.len() || !expanded(tree.nodes, at as int) {
        Some((tree, model))
    } else {
        let (scores, next) = model.score_spec(i, tree, at);
        let child = picked(algorithm, tree.nodes, at as int, scores, threshold);
        if scores.len() == tree.action_space && at < child < tree.nodes.len() && child
            <= usize::MAX {
            walked(
                algorithm,
                TreeView { path: tree.path.push(child as usize), ..tree },
                i,
                threshold,
                next,
            )
        } else {
            None
        }
    }
}

/// Where the walks of the first `k` trees end, one after the other.
pub open spec fn all_walked<M: SearchModel>(
    job: Job,
    step: int,
    trees: Seq<TreeView>,
    model: M,
    k: int,
) -> Option<(Seq<TreeView>, M)>
    decreases k,
{
    if k <= 0 {
        Some((trees, model))
    } else {
        match all_walked(job, step, trees, model, k - 1) {
            None => None,
            Some((before, between)) => match walked(
                job.algorithm,
                before[k - 1],
                (k - 1) as usize,
                job.threshold(k - 1, step),
                between,
            ) {
                None => None,
                Some((tree, after)) => Some((before.update(k - 1, tree), after)),
            },
        }
    }
}

/// Trees whose walks stand at the root.
pub open spec fn begun(trees: Seq<TreeView>) -> Seq<TreeView> {
    Seq::new(trees.len(), |k: int| TreeView { path: seq![0usize], ..trees[k] })
}

/// The hidden states that the last steps of the walks start from.
pub open spec fn asked_rows(trees: Seq<TreeView>) -> Seq<i64> {
    Seq::new(
        trees.len(),
        |k: int| trees[k].nodes[trees[k].path[trees[k].path.len() - 2] as int].hidden_row as i64,
    )
}

/// The actions of the last steps of the walks.
pub open spec fn asked_actions(trees: Seq<TreeView>) -> Seq<i64> {
    Seq::new(trees.len(), |k: int| trees[k].nodes[trees[k].path.last() as int].action as i64)
}

/// The sums along the walks of the first `k` trees.
pub open spec fn all_summed<M: SearchModel>(
    trees: Seq<TreeView>,
    rewards: Seq<Single>,
    values: Seq<Single>,
    model: M,
    k: int,
) -> Option<(Seq<Seq<Single>>, M)>
    decreases k,
{
    if k <= 0 {
        Some((Seq::empty(), model))
    } else {
        match all_summed(trees, rewards, values, model, k - 1) {
            None => None,
            Some((before, between)) => {
                let (sums, after) = between.back_up_spec(
                    (k - 1) as usize,
                    trees[k - 1],
                    rewards[k - 1],
                    values[k - 1],
                );
                if sums.len() == trees[k - 1].path.len() {
                    Some((before.push(sums), after))
                } else {
                    None
                }
            },
        }
    }
}

/// The nodes once a walk is backed up.
pub open spec fn backed(grown: Seq<BatchNode>, path: Seq<usize>, sums: Seq<Single>) -> Seq<
    BatchNode,
> {
    choose|after: Seq<BatchNode>| backed_up(grown, after, path, sums)
}

/// A walk is backed up in one way alone.
pub proof fn lemma_one_backup(
    grown: Seq<BatchNode>,
    after: Seq<BatchNode>,
    path: Seq<usize>,
    sums: Seq<Single>,
)
    requires
        backed_up(grown, after, path, sums),
    ensures
        backed(grown, path, sums) == after,
{
    let other = backed(grown, path, sums);
    assert(backed_up(grown, other, path, sums));
    assert forall|i: int| 0 <= i < grown.len() implies other[i] == after[i] by {
        if on_path(path, i) {
            let j = choose|j: int| 0 <= j < path.len() && #[trigger] path[j] == i;
            assert(other[path[j] as int] == after[path[j] as int]);
        } else {
            assert(other[i] == grown[i]);
            assert(after[i] == grown[i]);
        }
    }
    assert(other =~= after);
}

/// The trees once the predictions for the ends of their walks are in.
pub open spec fn absorbed(
    trees: Seq<TreeView>,
    arena_len: int,
    p: PredictionsView,
    sums: Seq<Seq<Single>>,
) -> Seq<TreeView> {
    Seq::new(
        trees.len(),
        |k: int|
            TreeView {
                nodes: backed(
                    after_expansion(
                        trees[k].nodes,
                        trees[k].path.last() as int,
                        (arena_len + k) as usize,
                        p.rewards[k],
                        p.values[k],
                        p.priors[k],
                        p.logits[k],
                    ),
                    trees[k].path,
                    sums[k],
                ),
                ..trees[k]
            },
    )
}

/// What one simulation of all trees leaves.
pub open spec fn simulated<M: SearchModel>(
    job: Job,
    step: int,
    trees: Seq<TreeView>,
    model: M,
) -> Option<(Seq<TreeView>, M)> {
    let n = trees.len() as int;
    match all_walked(job, step, begun(trees), model, n) {
        None => None,
        Some((ended, m1)) => {
            let (p, m2) = m1.predict_spec(asked_rows(ended), asked_actions(ended));
            if fits(p, n, job.action_space as int) {
                match all_summed(ended, p.rewards, p.values, m2, n) {
                    None => None,
                    Some((sums, m3)) => Some((absorbed(ended, (step + 1) * n, p, sums), m3)),
                }
            } else {
                None
            }
        },
    }
}

/// What the simulations from `step` on leave.
pub open spec fn simulated_from<M: SearchModel>(
    job: Job,
    step: int,
    trees: Seq<TreeView>,
    model: M,
) -> Option<(Seq<TreeView>, M)>
    decreases job.num_simulations - step,
{
    if step >= job.num_simulations || trees.len() == 0 {
        Some((trees, model))
    } else {
        match simulated(job, step, trees, model) {
            None => None,
            Some((after, next)) => simulated_from(job, step + 1, after, next),
        }
    }
}

/// What a whole search leaves: the trees of the searched positions, and the model.
pub open spec fn searched<M: SearchModel>(job: Job, model: M) -> Option<(Seq<TreeView>, M)> {
    if fits(job.roots, job.count() as int, job.action_space as int) {
        simulated_from(job, 0, job.trees(), model)
    } else {
        None
    }
}

/// The trees that a search leaves.
pub open spec fn final_trees<M: SearchModel>(job: Job, model: M) -> Seq<TreeView> {
    match searched(job, model) {
        Some((trees, next)) => trees,
        None => Seq::empty(),
    }
}

/// The model that a search leaves.
pub open spec fn final_model<M: SearchModel>(job: Job, model: M) -> M {
    match searched(job, model) {
        Some((trees, next)) => next,
        None => model,
    }
}

/// The model once it has said what the first `k` trees come to.
pub open spec fn asked<M: SearchModel>(
    algorithm: SearchAlgorithm,
    trees: Seq<TreeView>,
    model: M,
    k: int,
) -> Option<M>
    decreases k,
{
    if k <= 0 {
        Some(model)
    } else {
        match asked(algorithm, trees, model, k - 1) {
            None => None,
            Some(between) => {
                let n = trees[k - 1].action_space;
                if algorithm is Puct {
                    let (s, after) = between.shares_spec((k - 1) as usize, trees[k - 1]);
                    if s.shares.len() == n && s.powers.len() == n {
                        Some(after)
                    } else {
                        None
                    }
                } else {
                    let (p, after) = between.policy_spec((k - 1) as usize, trees[k - 1]);
                    if p.policy.len() == n && p.scores.len() == n {
                        Some(after)
                    } else {
                        None
                    }
                }
            },
        }
    }
}

/// Whether a result is what a tree and the shares of its visits say.
pub open spec fn said_by_visits(
    tree: TreeView,
    s: SharesView,
    tau: Single,
    r: SearchReturn,
) -> bool {
    let n = tree.action_space as int;
    &&& r.best_action < n
    &&& most_visited(tree.nodes, n, r.best_action as int)
    &&& r.value == (if tree.nodes[0].visits == 0 {
        Single::zero_spec()
    } else {
        s.mean
    })
    &&& r.policy_target@ == (if legal_visits_in(tree.nodes, 1, n) > 0 {
        legal_only(tree.nodes, s.shares)
    } else {
        Seq::new(n as nat, |a: int| Single::zero_spec())
    })
    &&& r.distribution@ == (if !tau.eq_value_spec(Single::zero_spec())
        && Single::zero_spec().lt_spec(s.power_sum) {
        legal_only(tree.nodes, s.powers)
    } else {
        one_hot_spec(r.best_action as int, n as nat)
    })
}

/// Whether a result is what a tree and its improved policy say.
pub open spec fn said_by_policy(tree: TreeView, p: PolicyView, r: SearchReturn) -> bool {
    let n = tree.action_space as int;
    &&& r.best_action < n
    &&& gumbel_best(tree.nodes, n, p.scores, r.best_action as int)
    &&& r.value == p.mixed_value
    &&& r.policy_target@ == legal_only(tree.nodes, p.policy)
    &&& r.distribution@ == one_hot_spec(r.best_action as int, n as nat)
}

/// Whether a result is what tree `k` says, when the model has spoken of those before it.
pub open spec fn said<M: SearchModel>(
    algorithm: SearchAlgorithm,
    trees: Seq<TreeView>,
    model: M,
    k: int,
    tau: Single,
    r: SearchReturn,
) -> bool {
    match asked(algorithm, trees, model, k) {
        Some(m) => if algorithm is Puct {
            said_by_visits(trees[k], m.shares_spec(k as usize, trees[k]).0, tau, r)
        } else {
            said_by_policy(trees[k], m.policy_spec(k as usize, trees[k]).0, r)
        },
        None => false,
    }
}

/// Whether a search comes to results: all answers of the model have the lengths asked for.
pub open spec fn comes_to_results<M: SearchModel>(job: Job, model: M) -> bool {
    match searched(job, model) {
        Some((trees, next)) => asked(job.algorithm, trees, next, trees.len() as int) is Some,
        None => false,
    }
}

/// The model once a search has come to its results.
pub open spec fn told_model<M: SearchModel>(job: Job, model: M) -> Option<M> {
    match searched(job, model) {
        Some((trees, next)) => asked(job.algorithm, trees, next, trees.len() as int),
        None => None,
    }
}

/// Whether results are those of a search: forced actions where a mask leaves just one, and
/// what the trees and the model say everywhere else.
pub open spec fn results_of<M: SearchModel>(
    job: Job,
    model: M,
    tau: Single,
    r: Seq<SearchReturn>,
) -> bool {
    &&& comes_to_results(job, model)
    &&& r.len() == job.count()
    &&& forall|i: int|
        0 <= i < r.len() ==> (#[trigger] job.forced(i) matches Some(a) ==> {
            &&& r[i].best_action == a
            &&& r[i].value == job.roots.values[i]
            &&& r[i].distribution@ == one_hot_spec(a as int, job.action_space as nat)
            &&& r[i].policy_target@ == one_hot_spec(a as int, job.action_space as nat)
        })
    &&& forall|k: int|
        0 <= k < job.open().len() ==> said(
            job.algorithm,
            final_trees(job, model),
            final_model(job, model),
            k,
            tau,
            r[#[trigger] job.open()[k] as int],
        )
}

/// Whether two results say the same.
pub open spec fn same_result(a: SearchReturn, b: SearchReturn) -> bool {
    &&& a.best_action == b.best_action
    &&& a.value == b.value
    &&& a.distribution@ == b.distribution@
    &&& a.policy_target@ == b.policy_target@
}

/// The best action by halving is one alone.
pub proof fn lemma_one_best(
    nodes: Seq<BatchNode>,
    n: int,
    scores: Seq<Single>,
    a: int,
    b: int,
)
    requires
        gumbel_best(nodes, n, scores, a),
        gumbel_best(nodes, n, scores, b),
        scores.len() == n,
    ensures
        a == b,
{
    let most = choose|most: usize|
        {
            &&& #[trigger] crate::extract::most_legal_visits(nodes, n, most as int)
            &&& crate::search::best_of_most(nodes, n, scores, most, a)
        };
    let other = choose|most: usize|
        {
            &&& #[trigger] crate::extract::most_legal_visits(nodes, n, most as int)
            &&& crate::search::best_of_most(nodes, n, scores, most, b)
        };
    if most != other {
        let high = if most > other {
            most
        } else {
            other
        };
        let x = choose|x: int|
            0 <= x < n && (#[trigger] crate::extract::root_child(nodes, x)).legal
                && crate::extract::root_child(nodes, x).visits == high;
        assert(crate::extract::root_child(nodes, x).visits == high);
    }
}

/// The most visited action is one alone.
pub proof fn lemma_one_most_visited(nodes: Seq<BatchNode>, n: int, a: int, b: int)
    requires
        most_visited(nodes, n, a),
        most_visited(nodes, n, b),
    ensures
        a == b,
{
    assert(crate::extract::root_child(nodes, a).legal
        || !crate::extract::root_child(nodes, a).legal);
    assert(crate::extract::root_child(nodes, b).legal
        || !crate::extract::root_child(nodes, b).legal);
}

/// Equal questions to equal models get equal answers: a search depends on nothing but its
/// job, the model and the temperature.
pub proof fn equal_searches_agree<M: SearchModel>(
    job: Job,
    model: M,
    tau: Single,
    a: Seq<SearchReturn>,
    b: Seq<SearchReturn>,
    i: int,
)
    requires
        results_of(job, model, tau, a),
        results_of(job, model, tau, b),
        0 <= i < job.count() <= usize::MAX,
    ensures
        same_result(a[i], b[i]),
{
    if job.forced(i) is None {
        lemma_row(job, i);
        let k = choose|k: int| 0 <= k < job.open().len() && #[trigger] job.open()[k] == i;
        let trees = final_trees(job, model);
        let next = final_model(job, model);
        lemma_count(job, 0, job.trees(), model);
        lemma_all_asked(job.algorithm, trees, next, k + 1, trees.len() as int);
        assert(said(job.algorithm, trees, next, k, tau, a[job.open()[k] as int]));
        assert(said(job.algorithm, trees, next, k, tau, b[job.open()[k] as int]));
        lemma_said_once(job.algorithm, trees, next, k, tau, a[i], b[i]);
    } else {
        assert(job.forced(i) is Some);
    }
}

/// The temperature means nothing to a search by halving, and its distribution is on the best
/// action alone.
pub proof fn halving_needs_no_temperature<M: SearchModel>(
    job: Job,
    model: M,
    tau: Single,
    other: Single,
    a: Seq<SearchReturn>,
    b: Seq<SearchReturn>,
    i: int,
)
    requires
        job.algorithm is Gumbel,
        results_of(job, model, tau, a),
        results_of(job, model, other, b),
        0 <= i < job.count() <= usize::MAX,
    ensures
        same_result(a[i], b[i]),
        a[i].distribution@ == one_hot_spec(a[i].best_action as int, job.action_space as nat),
{
    if job.forced(i) is None {
        lemma_row(job, i);
        let k = choose|k: int| 0 <= k < job.open().len() && #[trigger] job.open()[k] == i;
        let trees = final_trees(job, model);
        let next = final_model(job, model);
        lemma_count(job, 0, job.trees(), model);
        lemma_all_asked(job.algorithm, trees, next, k + 1, trees.len() as int);
        assert(said(job.algorithm, trees, next, k, tau, a[job.open()[k] as int]));
        assert(said(job.algorithm, trees, next, k, other, b[job.open()[k] as int]));
        lemma_said_once(job.algorithm, trees, next, k, tau, a[i], b[i]);
    } else {
        assert(job.forced(i) is Some);
    }
}

/// The trees keep their number, and their actions.
proof fn lemma_count<M: SearchModel>(job: Job, step: int, trees: Seq<TreeView>, model: M)
    requires
        simulated_from(job, step, trees, model) is Some,
        forall|k: int| 0 <= k < trees.len() ==> (#[trigger] trees[k]).action_space
            == job.action_space,
    ensures
        simulated_from(job, step, trees, model) matches Some((after, next)) ==> after.len()
            == trees.len() && forall|k: int|
            0 <= k < after.len() ==> (#[trigger] after[k]).action_space == job.action_space,
    decreases job.num_simulations - step,
{
    if step < job.num_simulations && trees.len() > 0 {
        let (after, next) = simulated(job, step, trees, model)->0;
        let (ended, m1) = all_walked(
            job,
            step,
            begun(trees),
            model,
            trees.len() as int,
        )->0;
        lemma_walks_keep_count(job, step, begun(trees), model, trees.len() as int);
        assert forall|k: int| 0 <= k < after.len() implies (#[trigger] after[k]).action_space
            == job.action_space by {
            assert(ended[k].action_space == job.action_space);
        }
        lemma_count(job, step + 1, after, next);
    }
}

proof fn lemma_walks_keep_count<M: SearchModel>(
    job: Job,
    step: int,
    trees: Seq<TreeView>,
    model: M,
    k: int,
)
    requires
        k <= trees.len(),
        forall|i: int| 0 <= i < trees.len() ==> (#[trigger] trees[i]).action_space
            == job.action_space,
    ensures
        all_walked(job, step, trees, model, k) matches Some((after, next)) ==> after.len()
            == trees.len() && forall|i: int|
            0 <= i < after.len() ==> (#[trigger] after[i]).action_space == job.action_space,
    decreases k,
{
    if k > 0 {
        lemma_walks_keep_count(job, step, trees, model, k - 1);
        match all_walked(job, step, trees, model, k - 1) {
            Some((before, between)) => {
                lemma_walk_keeps_tree(
                    job.algorithm,
                    before[k - 1],
                    (k - 1) as usize,
                    job.threshold(k - 1, step),
                    between,
                );
            },
            None => {},
        }
    }
}

proof fn lemma_walk_keeps_tree<M: SearchModel>(
    algorithm: SearchAlgorithm,
    tree: TreeView,
    i: usize,
    threshold: usize,
    model: M,
)
    ensures
        walked(algorithm, tree, i, threshold, model) matches Some((after, next)) ==> after.nodes
            == tree.nodes && after.action_space == tree.action_space,
    decreases tree.nodes.len() - tree.path.last(),
{
    let at = tree.path.last();
    if at < tree.nodes.len() && expanded(tree.nodes, at as int) {
        let (scores, next) = model.score_spec(i, tree, at);
        let child = picked(algorithm, tree.nodes, at as int, scores, threshold);
        if scores.len() == tree.action_space && at < child < tree.nodes.len() && child
            <= usize::MAX {
            let longer = TreeView { path: tree.path.push(child as usize), ..tree };
            assert(longer.path.last() == child as usize);
            lemma_walk_keeps_tree(algorithm, longer, i, threshold, next);
        }
    }
}

/// Where all trees are asked of, so is each.
proof fn lemma_all_asked<M: SearchModel>(
    algorithm: SearchAlgorithm,
    trees: Seq<TreeView>,
    model: M,
    k: int,
    n: int,
)
    requires
        0 <= k <= n,
        asked(algorithm, trees, model, n) is Some,
    ensures
        asked(algorithm, trees, model, k) is Some,
{
    if asked(algorithm, trees, model, k) is None {
        crate::search::lemma_asked_stopped(algorithm, trees, model, k, n);
    }
}

/// A position without a forced action is searched.
proof fn lemma_row(job: Job, i: int)
    requires
        0 <= i < job.count(),
        job.count() <= usize::MAX,
        job.forced(i) is None,
    ensures
        exists|k: int| 0 <= k < job.open().len() && #[trigger] job.open()[k] == i,
{
    let forced = Seq::new(job.count(), |j: int| job.forced(j));
    crate::batch::lemma_open_rows(forced, job.count() as int);
    assert(forced[i] is None);
    assert(job.open().contains(i as usize));
}

/// Of one position that is searched, the only tree speaks, and speaks in full.
pub(crate) proof fn lemma_first_row<M: SearchModel>(
    job: Job,
    model: M,
    tau: Single,
    r: Seq<SearchReturn>,
)
    requires
        job.count() == 1,
        job.forced(0) is None,
        results_of(job, model, tau, r),
    ensures
        final_trees(job, model).len() == 1,
        final_trees(job, model)[0].action_space == job.action_space,
        asked(job.algorithm, final_trees(job, model), final_model(job, model), 1) is Some,
        said(job.algorithm, final_trees(job, model), final_model(job, model), 0, tau, r[0]),
{
    reveal_with_fuel(open_rows, 2);
    lemma_row(job, 0);
    assert(Seq::new(job.count(), |i: int| job.forced(i))[0] is None);
    assert(job.open().len() == 1);
    assert(job.open()[0] == 0);
    lemma_count(job, 0, job.trees(), model);
}

/// What a tree says is one result alone.
pub proof fn lemma_said_once<M: SearchModel>(
    algorithm: SearchAlgorithm,
    trees: Seq<TreeView>,
    model: M,
    k: int,
    tau: Single,
    a: SearchReturn,
    b: SearchReturn,
)
    requires
        said(algorithm, trees, model, k, tau, a),
        said(algorithm, trees, model, k, tau, b),
        asked(algorithm, trees, model, k + 1) is Some,
        k >= 0,
    ensures
        same_result(a, b),
{
    let m = asked(algorithm, trees, model, k)->0;
    let n = trees[k].action_space as int;
    if algorithm is Puct {
        lemma_one_most_visited(trees[k].nodes, n, a.best_action as int, b.best_action as int);
    } else {
        lemma_one_best(
            trees[k].nodes,
            n,
            m.policy_spec(k as usize, trees[k]).0.scores,
            a.best_action as int,
            b.best_action as int,
        );
    }
}

/// Whether models of a kind tell no actions apart: their scores for the children of a root are
/// numbers above negative infinity, and none is above another.
pub open spec fn scores_alike<M: SearchModel>() -> bool {
    forall|m: M, i: usize, t: TreeView, a: int, b: int|
        0 <= a < t.action_space && 0 <= b < t.action_space ==> {
            &&& Single::neg_infinity_spec().lt_spec(#[trigger] m.score_spec(i, t, 0).0[a])
            &&& !m.score_spec(i, t, 0).0[a].lt_spec(#[trigger] m.score_spec(i, t, 0).0[b])
        }
}

/// The first walk from a root requires no visits.
proof fn lemma_first_threshold(job: Job, k: int)
    requires
        job.num_simulations == 1,
    ensures
        job.threshold(k, 0) == 0,
{
    let m = considered_at(
        job.masks,
        job.open()[k] as int,
        job.max_considered as int,
        job.action_space as int,
    ) as nat;
    if job.algorithm is Gumbel && m > 1 {
        let width = crate::considered::bit_width((m - 1) as nat);
        let rounds = crate::considered::rounds_for(m, 1, width);
        let all = crate::considered::schedule(m, rounds, 0, 1, width, 1);
        assert(all.len() >= 1 && all[0] == 0);
    }
}

/// Where the walks of trees have ended, each has ended by its own scores.
proof fn lemma_each_walked<M: SearchModel>(
    job: Job,
    step: int,
    trees: Seq<TreeView>,
    model: M,
    k: int,
    i: int,
) -> (between: M)
    requires
        0 <= i < trees.len(),
        0 <= k <= trees.len(),
        all_walked(job, step, trees, model, k) is Some,
    ensures
        all_walked(job, step, trees, model, k) matches Some((ended, next)) ==> {
            &&& ended.len() == trees.len()
            &&& i >= k ==> ended[i] == trees[i]
            &&& i < k ==> {
                let own = walked(
                    job.algorithm,
                    trees[i],
                    i as usize,
                    job.threshold(i, step),
                    between,
                );
                own matches Some((tree, after)) && ended[i] == tree
            }
        },
    decreases k,
{
    if k > 0 {
        let earlier = lemma_each_walked(job, step, trees, model, k - 1, i);
        if i == k - 1 {
            match all_walked(job, step, trees, model, k - 1) {
                Some((before, between)) => between,
                None => model,
            }
        } else {
            earlier
        }
    } else {
        model
    }
}

/// Where no action stands out, a walk from a new root goes to its first legal action.
proof fn lemma_first_walk<M: SearchModel>(job: Job, k: int, a: int, model: M)
    requires
        scores_alike::<M>(),
        job.num_simulations == 1,
        0 <= k < job.open().len(),
        0 <= a < job.action_space,
        job.action_space < usize::MAX,
        job.legal(job.open()[k] as int, a),
        forall|b: int| 0 <= b < a ==> !job.legal(job.open()[k] as int, b),
        walked(job.algorithm, job.root(k), k as usize, job.threshold(k, 0), model) is Some,
    ensures
        walked(job.algorithm, job.root(k), k as usize, job.threshold(k, 0), model) matches Some(
            (tree, next),
        ) ==> tree == (TreeView { path: seq![0usize, (1 + a) as usize], ..job.root(k) }),
{
    let tree = job.root(k);
    let row = job.open()[k] as int;
    let n = job.action_space as int;
    let nodes = tree.nodes;
    let (scores, next) = model.score_spec(k as usize, tree, 0);
    lemma_first_threshold(job, k);
    assert(nodes.len() == 1 + n);
    assert forall|b: int| 0 <= b < n implies (#[trigger] crate::tree::child_of(nodes, 0, b)) == 1
        + b && nodes[1 + b].legal == job.legal(row, b) && nodes[1 + b].visits == 0
        && nodes[1 + b].first_child == 0 by {}
    assert(expanded(nodes, 0));
    assert(tree.path.last() == 0);
    assert forall|b: int| 0 <= b < n implies Single::neg_infinity_spec().lt_spec(
        #[trigger] scores[b],
    ) && !scores[a].lt_spec(scores[b]) by {
        assert(model.score_spec(k as usize, tree, 0).0[b] == scores[b]);
        assert(model.score_spec(k as usize, tree, 0).0[a] == scores[a]);
    }
    let picked_out = if job.algorithm is Gumbel {
        crate::tree::choosable(nodes, 0, scores.len() as int, Some(0))
    } else {
        crate::tree::choosable(nodes, 0, scores.len() as int, None)
    };
    assert(scores.len() == n);
    assert(picked_out[a]) by {
        assert(crate::tree::child_of(nodes, 0, a) == 1 + a);
    }
    assert(first_best(scores, picked_out, a)) by {
        assert forall|j: int| 0 <= j < a && #[trigger] picked_out[j] implies scores[j].lt_spec(
            scores[a],
        ) || scores[j].nan() by {
            assert(crate::tree::child_of(nodes, 0, j) == 1 + j);
        }
        assert forall|j: int| 0 <= j < scores.len() && #[trigger] picked_out[j] implies
            !scores[a].lt_spec(scores[j]) by {
            assert(Single::neg_infinity_spec().lt_spec(scores[j]));
        }
    }
    assert(!none_best(scores, picked_out));
    assert(chosen_child(job.algorithm, nodes, 0, scores, 0, 1 + a));
    lemma_one_child(job.algorithm, nodes, 0, scores, 0, 0, 1 + a);
    let longer = TreeView { path: tree.path.push((1 + a) as usize), ..tree };
    assert(longer.path.last() == (1 + a) as usize);
    assert(!expanded(nodes, 1 + a));
    assert(longer.path =~= seq![0usize, (1 + a) as usize]);
    assert(walked(job.algorithm, longer, k as usize, 0, next) == Some((longer, next)));
}

/// Whether the legal flags of a root's children are those of a position, and just one child
/// has been visited.
spec fn visited_once(nodes: Seq<BatchNode>, job: Job, row: int, a: int) -> bool {
    forall|b: int|
        0 <= b < job.action_space ==> {
            &&& (#[trigger] crate::extract::root_child(nodes, b)).legal == job.legal(row, b)
            &&& crate::extract::root_child(nodes, b).visits == (if b == a {
                1int
            } else {
                0
            })
        }
}

/// A walk to an action of a new root leaves one visit there.
proof fn lemma_one_visit(
    job: Job,
    k: int,
    a: int,
    hidden_row: usize,
    reward: Single,
    value: Single,
    priors: Seq<Single>,
    logits: Seq<Single>,
    sums: Seq<Single>,
)
    requires
        0 <= k < job.open().len(),
        0 <= a < job.action_space < usize::MAX,
        job.root_visits <= 1,
    ensures
        ({
            let path = seq![0usize, (1 + a) as usize];
            let grown = after_expansion(
                job.root(k).nodes,
                1 + a,
                hidden_row,
                reward,
                value,
                priors,
                logits,
            );
            visited_once(backed(grown, path, sums), job, job.open()[k] as int, a)
        }),
{
    let row = job.open()[k] as int;
    let nodes = job.root(k).nodes;
    let path = seq![0usize, (1 + a) as usize];
    let grown = after_expansion(nodes, 1 + a, hidden_row, reward, value, priors, logits);
    let whole = grown.update(
        0,
        BatchNode {
            visits: (grown[0].visits + 1) as usize,
            cumulative_value: sums[0],
            ..grown[0]
        },
    ).update(
        1 + a,
        BatchNode {
            visits: (grown[1 + a].visits + 1) as usize,
            cumulative_value: sums[1],
            ..grown[1 + a]
        },
    );
    assert(nodes.len() == 1 + job.action_space);
    assert(path[0] == 0 && path[1] == 1 + a);
    assert(backed_up(grown, whole, path, sums)) by {
        assert(on_path(path, 0) && on_path(path, 1 + a));
    }
    lemma_one_backup(grown, whole, path, sums);
    assert(whole[0].first_child == 1);
    assert forall|b: int| 0 <= b < job.action_space implies {
        &&& (#[trigger] crate::extract::root_child(whole, b)).legal == job.legal(row, b)
        &&& crate::extract::root_child(whole, b).visits == (if b == a {
            1int
        } else {
            0
        })
    } by {
        assert(nodes[1 + b].legal == job.legal(row, b) && nodes[1 + b].visits == 0);
    }
}

/// The only action that was visited is the most visited one.
proof fn lemma_only_visited(nodes: Seq<BatchNode>, job: Job, row: int, a: int)
    requires
        visited_once(nodes, job, row, a),
        0 <= a < job.action_space,
        job.legal(row, a),
    ensures
        most_visited(nodes, job.action_space as int, a),
{
    assert(crate::extract::root_child(nodes, a).visits == 1);
}

/// The only action that was visited is the best one by halving.
proof fn lemma_only_best(
    nodes: Seq<BatchNode>,
    job: Job,
    row: int,
    a: int,
    scores: Seq<Single>,
)
    requires
        visited_once(nodes, job, row, a),
        0 <= a < job.action_space,
        job.legal(row, a),
        scores.len() == job.action_space,
        Single::neg_infinity_spec().lt_spec(scores[a]),
    ensures
        gumbel_best(nodes, job.action_space as int, scores, a),
{
    let n = job.action_space as int;
    assert(crate::extract::root_child(nodes, a).visits == 1);
    let allowed = crate::tree::choosable(nodes, 0, n, Some(1usize));
    assert forall|b: int| 0 <= b < n implies #[trigger] allowed[b] == (b == a) by {
        assert(crate::extract::root_child(nodes, b).legal == job.legal(row, b));
    }
    assert(allowed[a]);
    assert(first_best(scores, allowed, a));
    assert(crate::search::best_of_most(nodes, n, scores, 1usize, a));
    assert(crate::extract::most_legal_visits(nodes, n, 1usize as int));
}

/// Of one simulation that no score leads astray, the first legal action comes out best.
pub proof fn one_simulation_takes_the_first_legal_action<M: SearchModel>(
    job: Job,
    model: M,
    tau: Single,
    r: Seq<SearchReturn>,
    row: int,
    a: int,
)
    requires
        results_of(job, model, tau, r),
        scores_alike::<M>(),
        crate::search::scores_legal_actions::<M>(),
        job.num_simulations == 1,
        job.root_visits <= 1,
        1 <= job.action_space < usize::MAX,
        0 <= row < job.count() <= usize::MAX,
        job.forced(row) is None,
        0 <= a < job.action_space,
        job.legal(row, a),
        forall|b: int| 0 <= b < a ==> !job.legal(row, b),
    ensures
        r[row].best_action == a,
{
    lemma_row(job, row);
    let k = choose|k: int| 0 <= k < job.open().len() && #[trigger] job.open()[k] == row;
    let trees = job.trees();
    let after = lemma_after_one(job, model, k, a);
    let next = final_model(job, model);
    lemma_count(job, 0, trees, model);
    lemma_all_asked(job.algorithm, after, next, k + 1, after.len() as int);
    assert(said(job.algorithm, after, next, k, tau, r[job.open()[k] as int]));
    let m = asked(job.algorithm, after, next, k)->0;
    let nodes = after[k].nodes;
    let n = job.action_space as int;
    if job.algorithm is Puct {
        lemma_only_visited(nodes, job, row, a);
        lemma_one_most_visited(nodes, n, a, r[row].best_action as int);
    } else {
        let scores = m.policy_spec(k as usize, after[k]).0.scores;
        assert(Single::neg_infinity_spec().lt_spec(scores[a])) by {
            assert(crate::extract::root_child(nodes, a).legal);
            assert(m.policy_spec(k as usize, after[k]).0.scores[a] == scores[a]);
        }
        lemma_only_best(nodes, job, row, a, scores);
        lemma_one_best(nodes, n, scores, a, r[row].best_action as int);
    }
}

/// The trees after one simulation that no score leads astray.
proof fn lemma_after_one<M: SearchModel>(job: Job, model: M, k: int, a: int) -> (after: Seq<
    TreeView,
>)
    requires
        searched(job, model) is Some,
        scores_alike::<M>(),
        job.num_simulations == 1,
        job.root_visits <= 1,
        0 <= k < job.open().len(),
        0 <= a < job.action_space < usize::MAX,
        job.legal(job.open()[k] as int, a),
        forall|b: int| 0 <= b < a ==> !job.legal(job.open()[k] as int, b),
    ensures
        after == final_trees(job, model),
        after.len() == job.open().len(),
        visited_once(after[k].nodes, job, job.open()[k] as int, a),
{
    let trees = job.trees();
    let count = trees.len() as int;
    let start = begun(trees);
    assert(start[k] == job.root(k)) by {
        assert(job.root(k).path =~= seq![0usize]);
    }
    let (ended, m1) = all_walked(job, 0, start, model, count)->0;
    let between = lemma_each_walked(job, 0, start, model, count, k);
    lemma_first_walk(job, k, a, between);
    let (p, m2) = m1.predict_spec(asked_rows(ended), asked_actions(ended));
    let (sums, m3) = all_summed(ended, p.rewards, p.values, m2, count)->0;
    let after = absorbed(ended, (0 + 1) * count, p, sums);
    assert(simulated(job, 0, trees, model) == Some((after, m3)));
    assert(simulated_from(job, 1, after, m3) == Some((after, m3)));
    assert(ended[k].path.last() == (1 + a) as usize);
    lemma_one_visit(
        job,
        k,
        a,
        ((0 + 1) * count + k) as usize,
        p.rewards[k],
        p.values[k],
        p.priors[k],
        p.logits[k],
        sums[k],
    );
    after
}

} // verus!
