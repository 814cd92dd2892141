//! Searches from start to end, around a model that predicts, scores and adds up.
//!
//! A [`SearchModel`] does what takes real numbers: the network's predictions, the scores
//! of children, the sums along a walk. Its answers are functions of what it is and of what it
//! is asked, and the results of a search are what these functions make of it (see
//! [`crate::course`]). The lengths of the answers are tested.
use vstd::prelude::*;
use crate::batch::{
    BatchSearch, forced_by, legal_walks_leave_illegal_actions_unvisited, mask_views, only_legal,
    open_rows, root_of, search_keeps_to_legal_actions, sizes_fit, tree_wf,
};
use crate::config::SearchAlgorithm;
use crate::course::{
    Job, absorbed, all_summed, all_walked, asked, asked_actions, asked_rows, begun,
    comes_to_results, fits, lemma_one_backup, lemma_one_child, results_of, said, searched,
    simulated, simulated_from, told_model, walked,
};
use crate::extract::{
    SearchReturn, illegal_unvisited, latest_most_visited, most_legal_visits,
    most_visited, one_hot_spec, root_child,
};
use crate::single::Single;
use crate::tree::{
    BatchNode, SearchTree, TreeView, child_of, choosable, expanded, first_best, legal_visits_in,
    none_best, path_step, same_origin, simulations_keep_origins, visits_in,
};

verus! {

/// What a network predicts, one entry for each tree.
#[derive(Debug)]
pub struct Predictions {
    pub rewards: Vec<Single>,
    pub values: Vec<Single>,
    pub priors: Vec<Vec<Single>>,
    pub logits: Vec<Vec<Single>>,
}

/// What predictions hold.
pub struct PredictionsView {
    pub rewards: Seq<Single>,
    pub values: Seq<Single>,
    pub priors: Seq<Seq<Single>>,
    pub logits: Seq<Seq<Single>>,
}

/// What rows of numbers hold.
pub open spec fn row_views(rows: Seq<Vec<Single>>) -> Seq<Seq<Single>> {
    Seq::new(rows.len(), |i: int| rows[i]@)
}

impl View for Predictions {
    type V = PredictionsView;

    open spec fn view(&self) -> PredictionsView {
        PredictionsView {
            rewards: self.rewards@,
            values: self.values@,
            priors: row_views(self.priors@),
            logits: row_views(self.logits@),
        }
    }
}

/// What the visits of a finished tree come to.
#[derive(Debug)]
pub struct VisitShares {
    /// The mean value of the root.
    pub mean: Single,
    /// Each action's share of the legal visits.
    pub shares: Vec<Single>,
    /// Each action's share once the visits are sharpened by the temperature.
    pub powers: Vec<Single>,
    /// What the sharpened visits of the legal actions add up to.
    pub power_sum: Single,
}

/// What shares of visits hold.
pub struct SharesView {
    pub mean: Single,
    pub shares: Seq<Single>,
    pub powers: Seq<Single>,
    pub power_sum: Single,
}

impl View for VisitShares {
    type V = SharesView;

    open spec fn view(&self) -> SharesView {
        SharesView {
            mean: self.mean,
            shares: self.shares@,
            powers: self.powers@,
            power_sum: self.power_sum,
        }
    }
}

/// What the completed values of a finished tree come to.
#[derive(Debug)]
pub struct ImprovedPolicy {
    pub mixed_value: Single,
    pub policy: Vec<Single>,
    /// The perturbed scores of the root's actions.
    pub scores: Vec<Single>,
}

/// What an improved policy holds.
pub struct PolicyView {
    pub mixed_value: Single,
    pub policy: Seq<Single>,
    pub scores: Seq<Single>,
}

impl View for ImprovedPolicy {
    type V = PolicyView;

    open spec fn view(&self) -> PolicyView {
        PolicyView {
            mixed_value: self.mixed_value,
            policy: self.policy@,
            scores: self.scores@,
        }
    }
}

/// What a search asks of a network and of the arithmetic around it.
///
/// Every answer is a function of the model as it is and of the question, and so is the model
/// after it. Nothing is said of these functions, but that an implementation may say that its
/// answers are in full: that they have the lengths asked for.
pub trait SearchModel: Sized {
    /// Whether all answers for so many actions have the lengths asked for, from now on. An
    /// implementation that does not say so promises nothing.
    open spec fn answers_in_full(&self, action_space: usize) -> bool {
        false
    }

    /// The scores of the children of a node of tree `i`, and the model after them.
    open spec fn score_spec(&self, i: usize, tree: TreeView, node: usize) -> (Seq<Single>, Self) {
        arbitrary()
    }

    /// The predictions for hidden states and actions, and the model after them.
    open spec fn predict_spec(&self, rows: Seq<i64>, actions: Seq<i64>) -> (
        PredictionsView,
        Self,
    ) {
        arbitrary()
    }

    /// The sums of values along the walk of tree `i`, and the model after them.
    open spec fn back_up_spec(
        &self,
        i: usize,
        tree: TreeView,
        reward: Single,
        value: Single,
    ) -> (Seq<Single>, Self) {
        arbitrary()
    }

    /// What the visits of tree `i` come to, and the model after it.
    open spec fn shares_spec(&self, i: usize, tree: TreeView) -> (SharesView, Self) {
        arbitrary()
    }

    /// What the completed values of tree `i` come to, and the model after it.
    open spec fn policy_spec(&self, i: usize, tree: TreeView) -> (PolicyView, Self) {
        arbitrary()
    }

    /// The scores of the children of a node of tree `i`.
    fn score(&mut self, i: usize, tree: &SearchTree, node: usize) -> (scores: Vec<Single>)
        ensures
            (scores@, *final(self)) == old(self).score_spec(i, tree@, node),
            old(self).answers_in_full(tree.action_space) ==> final(self).answers_in_full(
                tree.action_space,
            ) && scores@.len() == tree.action_space,
    ;

    /// The predictions for the hidden states in `rows` and the actions taken there. Their
    /// own hidden states take the next rows.
    fn recurrent_inference(&mut self, rows: &Vec<i64>, actions: &Vec<i64>) -> (p: Predictions)
        ensures
            (p@, *final(self)) == old(self).predict_spec(rows@, actions@),
            forall|action_space: usize| #[trigger]
                old(self).answers_in_full(action_space) ==> final(self).answers_in_full(
                    action_space,
                ) && fits(p@, rows@.len() as int, action_space as int),
    ;

    /// The sums of values along the walk of tree `i`, once a reward and a value are backed
    /// up from its end.
    fn back_up(&mut self, i: usize, tree: &SearchTree, reward: Single, value: Single) -> (sums:
        Vec<Single>)
        ensures
            (sums@, *final(self)) == old(self).back_up_spec(i, tree@, reward, value),
            old(self).answers_in_full(tree.action_space) ==> final(self).answers_in_full(
                tree.action_space,
            ) && sums@.len() == tree.path@.len(),
    ;

    /// What the visits of tree `i` come to.
    fn visit_shares(&mut self, i: usize, tree: &SearchTree) -> (shares: VisitShares)
        ensures
            (shares@, *final(self)) == old(self).shares_spec(i, tree@),
            old(self).answers_in_full(tree.action_space) ==> final(self).answers_in_full(
                tree.action_space,
            ) && shares.shares@.len() == tree.action_space && shares.powers@.len()
                == tree.action_space,
    ;

    /// What the completed values of tree `i` come to.
    fn improved_policy(&mut self, i: usize, tree: &SearchTree) -> (policy: ImprovedPolicy)
        ensures
            (policy@, *final(self)) == old(self).policy_spec(i, tree@),
            old(self).answers_in_full(tree.action_space) ==> final(self).answers_in_full(
                tree.action_space,
            ) && policy.policy@.len() == tree.action_space && policy.scores@.len()
                == tree.action_space,
    ;
}

/// Whether models of a kind give every legal action a score above negative infinity.
pub open spec fn scores_legal_actions<M: SearchModel>() -> bool {
    &&& forall|m: M, i: usize, t: TreeView, node: usize, a: int|
        0 <= a < t.action_space && t.nodes[child_of(t.nodes, node as int, a)].legal
            ==> Single::neg_infinity_spec().lt_spec(#[trigger] m.score_spec(i, t, node).0[a])
    &&& forall|m: M, i: usize, t: TreeView, a: int|
        0 <= a < t.action_space && t.nodes[child_of(t.nodes, 0, a)].legal
            ==> Single::neg_infinity_spec().lt_spec(#[trigger] m.policy_spec(i, t).0.scores[a])
}

/// What trees hold.
pub open spec fn tree_views(trees: Seq<SearchTree>) -> Seq<TreeView> {
    Seq::new(trees.len(), |k: int| trees[k]@)
}

/// Whether some action of the root is legal.
pub open spec fn has_legal(nodes: Seq<BatchNode>, action_space: int) -> bool {
    exists|a: int| 0 <= a < action_space && (#[trigger] root_child(nodes, a)).legal
}

fn all_of_length(rows: &Vec<Vec<Single>>, count: usize, length: usize) -> (fits: bool)
    ensures
        fits == (rows@.len() == count && forall|i: int|
            0 <= i < rows@.len() ==> (#[trigger] rows@[i])@.len() == length),
{
    if rows.len() != count {
        return false;
    }
    let mut i: usize = 0;
    while i < rows.len()
        invariant
            i <= rows@.len(),
            rows@.len() == count,
            forall|j: int| 0 <= j < i ==> (#[trigger] rows@[j])@.len() == length,
        decreases rows@.len() - i,
    {
        if rows[i].len() != length {
            assert(rows@[i as int]@.len() != length);
            return false;
        }
        i = i + 1;
    }
    true
}

impl BatchSearch {
    /// Whether a search does a job: the numbers are the job's, and so are the visits that
    /// halving requires.
    pub open spec fn does(&self, job: Job) -> bool {
        &&& self.algorithm == job.algorithm
        &&& self.action_space == job.action_space
        &&& self.num_simulations == job.num_simulations
        &&& self.algorithm is Gumbel ==> forall|k: int, step: int|
            0 <= k < self.trees@.len() && 0 <= step < self.num_simulations
                ==> self.considered@[self.num_considered@[k] as int]@[step]
                == #[trigger] job.threshold(k, step)
    }

    /// All trees have the search's actions, and their roots children.
    proof fn lemma_tree(&self, k: int)
        requires
            self.wf(),
            0 <= k < self.trees@.len(),
        ensures
            self.trees@[k].action_space == self.action_space,
            self.trees@[k].root_visits == self.root_visits,
            self.trees@[k].wf(),
            self.trees@[k].nodes@[0].first_child == 1,
            self.trees@[k].nodes@.len() > self.action_space,
    {
        assert(tree_wf(
            self.trees@[k],
            self.action_space as int,
            self.root_visits as int,
            self.sim_step as int,
            k,
            self.trees@.len() as int,
            self.arena_len as int,
        ));
        self.trees@[k].lemma_root_block();
    }

    /// Walks tree `i` on to a node without children; false where the model gave the wrong
    /// number of scores.
    fn walk<M: SearchModel>(&mut self, i: usize, model: &mut M, Ghost(job): Ghost<Job>) -> (
    arrived: bool)
        requires
            old(self).walking(),
            old(self).does(job),
            i < old(self).trees@.len(),
            old(self).trees@[i as int].path@ == seq![0usize],
        ensures
            final(self).walking(),
            final(self).same_but_trees(old(self)),
            final(self).sim_step == old(self).sim_step,
            final(self).arena_len == old(self).arena_len,
            forall|k: int|
                0 <= k < old(self).trees@.len() && k != i ==> #[trigger] final(self).trees@[k]
                    == old(self).trees@[k],
            final(self).trees@[i as int].nodes@ == old(self).trees@[i as int].nodes@,
            arrived ==> final(self).trees@[i as int].at_leaf(),
            walked(
                job.algorithm,
                old(self).trees@[i as int]@,
                i,
                job.threshold(i as int, old(self).sim_step as int),
                *old(model),
            ) == (if arrived {
                Some((final(self).trees@[i as int]@, *final(model)))
            } else {
                None
            }),
            old(model).answers_in_full(old(self).action_space) ==> arrived
                && final(model).answers_in_full(old(self).action_space),
            arrived && scores_legal_actions::<M>() && has_legal(
                old(self).trees@[i as int].nodes@,
                old(self).action_space as int,
            ) ==> final(self).trees@[i as int].path@.len() >= 2
                && final(self).trees@[i as int].nodes@[final(self).trees@[i as int].path@[1] as int].legal,
    {
        let ghost threshold = job.threshold(i as int, self.sim_step as int);
        let ghost from = self.trees@[i as int]@;
        let ghost counts = scores_legal_actions::<M>() && has_legal(
            self.trees@[i as int].nodes@,
            self.action_space as int,
        );
        let mut at: Option<usize> = self.to_score(i);
        while at.is_some()
            invariant
                i < self.trees@.len(),
                self.walking(),
                self.does(job),
                self.same_but_trees(old(self)),
                self.sim_step == old(self).sim_step,
                self.arena_len == old(self).arena_len,
                from == old(self).trees@[i as int]@,
                threshold == job.threshold(i as int, self.sim_step as int),
                forall|k: int|
                    0 <= k < old(self).trees@.len() && k != i ==> #[trigger] self.trees@[k]
                        == old(self).trees@[k],
                self.trees@[i as int].nodes@ == from.nodes,
                self.trees@[i as int].path@.len() >= 1,
                self.trees@[i as int].path@[0] == 0,
                walked(job.algorithm, self.trees@[i as int]@, i, threshold, *model) == walked(
                    job.algorithm,
                    from,
                    i,
                    threshold,
                    *old(model),
                ),
                at is None <==> self.trees@[i as int].at_leaf(),
                at matches Some(x) ==> x == self.trees@[i as int].path@.last(),
                old(model).answers_in_full(old(self).action_space) ==> model.answers_in_full(
                    old(self).action_space,
                ),
                counts ==> scores_legal_actions::<M>() && has_legal(
                    from.nodes,
                    self.action_space as int,
                ),
                counts && self.trees@[i as int].path@.len() >= 2
                    ==> from.nodes[self.trees@[i as int].path@[1] as int].legal,
            decreases self.trees@[i as int].nodes@.len() - self.trees@[i as int].path@.last(),
        {
            let ghost before = self.trees@[i as int];
            let ghost asked_model = *model;
            let node: usize = at.unwrap();
            proof {
                assert(before.walking());
                self.lemma_tree(i as int);
                lemma_walk_stays(before);
            }
            let scores: Vec<Single> = model.score(i, &self.trees[i], node);
            if scores.len() != self.action_space {
                return false;
            }
            self.select(i, &scores);
            proof {
                let after = self.trees@[i as int];
                assert(after.walking());
                self.lemma_tree(i as int);
                lemma_walk_goes_on(after);
                assert(after.path@[after.path@.len() - 2] == before.path@.last()) by {
                    assert(after.path@.drop_last()[before.path@.len() - 1]
                        == before.path@[before.path@.len() - 1]);
                }
                assert(after.path@ =~= before.path@.push(after.path@.last()));
                lemma_one_child(
                    job.algorithm,
                    before.nodes@,
                    node as int,
                    scores@,
                    old(self).threshold(i as int),
                    threshold,
                    after.path@.last() as int,
                );
                assert(after@ == (TreeView { path: before.path@.push(after.path@.last()), ..before@
                }));
                if counts && before.path@.len() == 1 {
                    let a = choose|a: int|
                        0 <= a < self.action_space && (#[trigger] root_child(from.nodes, a)).legal;
                    assert(child_of(from.nodes, 0, a) == 1 + a);
                    assert(asked_model.score_spec(i, before@, node).0[a] == scores@[a]);
                    search_keeps_to_legal_actions(
                        job.algorithm,
                        from.nodes,
                        0,
                        scores@,
                        old(self).threshold(i as int),
                        after.path@.last() as int,
                        a,
                    );
                }
            }
            at = self.to_score(i);
        }
        proof {
            let tree = self.trees@[i as int];
            assert(tree.walking());
            self.lemma_tree(i as int);
            lemma_walk_stays(tree);
            if tree.path@.len() == 1 {
                assert(expanded(tree.nodes@, 0));
            }
        }
        true
    }

    /// Walks every tree from its root to a node without children; false where the model gave
    /// the wrong number of scores.
    fn walk_all<M: SearchModel>(&mut self, model: &mut M, Ghost(job): Ghost<Job>) -> (walked_all:
        bool)
        requires
            old(self).walking(),
            old(self).does(job),
            forall|k: int|
                0 <= k < old(self).trees@.len() ==> (#[trigger] old(self).trees@[k]).path@
                    == seq![0usize],
        ensures
            final(self).walking(),
            final(self).does(job),
            final(self).same_but_trees(old(self)),
            final(self).sim_step == old(self).sim_step,
            final(self).arena_len == old(self).arena_len,
            walked_all ==> final(self).all_at_leaf(),
            same_nodes(old(self).trees@, final(self).trees@),
            all_walked(
                job,
                old(self).sim_step as int,
                tree_views(old(self).trees@),
                *old(model),
                old(self).trees@.len() as int,
            ) == (if walked_all {
                Some((tree_views(final(self).trees@), *final(model)))
            } else {
                None
            }),
            old(model).answers_in_full(old(self).action_space) ==> walked_all
                && final(model).answers_in_full(old(self).action_space),
            walked_all && scores_legal_actions::<M>() ==> forall|k: int|
                0 <= k < old(self).trees@.len() && has_legal(
                    (#[trigger] final(self).trees@[k]).nodes@,
                    old(self).action_space as int,
                ) ==> final(self).trees@[k].path@.len() >= 2
                    && final(self).trees@[k].nodes@[final(self).trees@[k].path@[1] as int].legal,
    {
        let ghost start = tree_views(self.trees@);
        let ghost step = self.sim_step as int;
        let ghost n = self.trees@.len() as int;
        let mut i: usize = 0;
        while i < self.trees.len()
            invariant
                i <= self.trees@.len(),
                n == self.trees@.len(),
                step == self.sim_step,
                start == tree_views(old(self).trees@),
                self.walking(),
                self.does(job),
                self.same_but_trees(old(self)),
                self.sim_step == old(self).sim_step,
                self.arena_len == old(self).arena_len,
                same_nodes(old(self).trees@, self.trees@),
                forall|j: int|
                    i <= j < n ==> (#[trigger] self.trees@[j]).path@ == seq![0usize],
                forall|j: int| 0 <= j < i ==> (#[trigger] self.trees@[j]).at_leaf(),
                all_walked(job, step, start, *old(model), i as int) == Some(
                    (tree_views(self.trees@), *model),
                ),
                old(model).answers_in_full(old(self).action_space) ==> model.answers_in_full(
                    old(self).action_space,
                ),
                scores_legal_actions::<M>() ==> forall|k: int|
                    0 <= k < i && has_legal(
                        (#[trigger] self.trees@[k]).nodes@,
                        old(self).action_space as int,
                    ) ==> self.trees@[k].path@.len() >= 2
                        && self.trees@[k].nodes@[self.trees@[k].path@[1] as int].legal,
            decreases self.trees@.len() - i,
        {
            let ghost others = self.trees@;
            let arrived: bool = self.walk(i, model, Ghost(job));
            proof {
                assert forall|j: int| 0 <= j < self.trees@.len() implies (
                #[trigger] self.trees@[j]).nodes@ == old(self).trees@[j].nodes@ by {
                    assert(others[j].nodes@ == old(self).trees@[j].nodes@);
                    if j != i {
                        assert(self.trees@[j] == others[j]);
                    }
                }
                assert forall|j: int| 0 <= j < i implies (#[trigger] self.trees@[j]).at_leaf() by {
                    assert(self.trees@[j] == others[j]);
                }
                assert forall|j: int| i < j < n implies (#[trigger] self.trees@[j]).path@
                    == seq![0usize] by {
                    assert(self.trees@[j] == others[j]);
                }
                if scores_legal_actions::<M>() && arrived {
                    assert forall|k: int|
                        0 <= k < i + 1 && has_legal(
                            (#[trigger] self.trees@[k]).nodes@,
                            old(self).action_space as int,
                        ) implies self.trees@[k].path@.len() >= 2
                        && self.trees@[k].nodes@[self.trees@[k].path@[1] as int].legal by {
                        if k != i {
                            assert(self.trees@[k] == others[k]);
                        }
                    }
                }
            }
            if !arrived {
                proof {
                    assert(all_walked(job, step, start, *old(model), i + 1) is None);
                    lemma_stopped(job, step, start, *old(model), i + 1, n);
                }
                return false;
            }
            proof {
                assert(tree_views(self.trees@) =~= tree_views(others).update(
                    i as int,
                    self.trees@[i as int]@,
                ));
            }
            i = i + 1;
        }
        true
    }

    /// The new sums along all walks; none where the model gave the wrong number of them.
    fn sums_of_all<M: SearchModel>(&self, model: &mut M, rewards: &Vec<Single>, values: &Vec<
        Single,
    >) -> (sums: Option<Vec<Vec<Single>>>)
        requires
            self.walking(),
            rewards@.len() == self.trees@.len(),
            values@.len() == self.trees@.len(),
        ensures
            sums matches Some(s) ==> s@.len() == self.trees@.len() && forall|i: int|
                0 <= i < s@.len() ==> (#[trigger] s@[i])@.len() == self.trees@[i].path@.len(),
            all_summed(
                tree_views(self.trees@),
                rewards@,
                values@,
                *old(model),
                self.trees@.len() as int,
            ) == (match sums {
                Some(s) => Some((row_views(s@), *final(model))),
                None => None,
            }),
            old(model).answers_in_full(self.action_space) ==> sums is Some
                && final(model).answers_in_full(self.action_space),
    {
        let ghost views = tree_views(self.trees@);
        let mut sums: Vec<Vec<Single>> = Vec::new();
        let mut i: usize = 0;
        assert(row_views(sums@) =~= Seq::<Seq<Single>>::empty());
        while i < self.trees.len()
            invariant
                i <= self.trees@.len(),
                views == tree_views(self.trees@),
                rewards@.len() == self.trees@.len(),
                values@.len() == self.trees@.len(),
                sums@.len() == i,
                forall|j: int|
                    0 <= j < i ==> (#[trigger] sums@[j])@.len() == self.trees@[j].path@.len(),
                all_summed(views, rewards@, values@, *old(model), i as int) == Some(
                    (row_views(sums@), *model),
                ),
                self.wf(),
                old(model).answers_in_full(self.action_space) ==> model.answers_in_full(
                    self.action_space,
                ),
            decreases self.trees@.len() - i,
        {
            proof {
                self.lemma_tree(i as int);
            }
            let row: Vec<Single> = model.back_up(i, &self.trees[i], rewards[i], values[i]);
            if row.len() != self.trees[i].path.len() {
                proof {
                    assert(all_summed(views, rewards@, values@, *old(model), i + 1) is None);
                    lemma_sums_stopped(
                        views,
                        rewards@,
                        values@,
                        *old(model),
                        i + 1,
                        self.trees@.len() as int,
                    );
                }
                return None;
            }
            let ghost before = sums@;
            sums.push(row);
            proof {
                assert(row_views(sums@) =~= row_views(before).push(row@));
            }
            i = i + 1;
        }
        Some(sums)
    }

    /// Runs all simulations. False where an answer of the model did not have the right
    /// length; the simulations before that stand.
    pub fn run<M: SearchModel>(&mut self, model: &mut M, Ghost(job): Ghost<Job>) -> (finished:
        bool)
        requires
            old(self).wf(),
            old(self).does(job),
        ensures
            final(self).wf(),
            final(self).same_but_trees(old(self)),
            final(self).sim_step >= old(self).sim_step,
            finished ==> final(self).trees@.len() == 0 || final(self).sim_step
                == final(self).num_simulations,
            simulated_from(
                job,
                old(self).sim_step as int,
                tree_views(old(self).trees@),
                *old(model),
            ) == (if finished {
                Some((tree_views(final(self).trees@), *final(model)))
            } else {
                None
            }),
            same_origins(old(self).trees@, final(self).trees@),
            old(model).answers_in_full(old(self).action_space) ==> finished
                && final(model).answers_in_full(old(self).action_space),
            scores_legal_actions::<M>() ==> forall|k: int|
                0 <= k < old(self).trees@.len() && has_legal(
                    old(self).trees@[k].nodes@,
                    old(self).action_space as int,
                ) && illegal_unvisited(old(self).trees@[k].nodes@, old(self).action_space as int)
                    ==> illegal_unvisited(
                    (#[trigger] final(self).trees@[k]).nodes@,
                    old(self).action_space as int,
                ),
    {
        let ghost whole = simulated_from(
            job,
            self.sim_step as int,
            tree_views(self.trees@),
            *model,
        );
        while !self.is_done()
            invariant
                self.wf(),
                self.does(job),
                self.same_but_trees(old(self)),
                self.sim_step >= old(self).sim_step,
                old(self).wf(),
                same_origins(old(self).trees@, self.trees@),
                whole == simulated_from(
                    job,
                    old(self).sim_step as int,
                    tree_views(old(self).trees@),
                    *old(model),
                ),
                whole == simulated_from(
                    job,
                    self.sim_step as int,
                    tree_views(self.trees@),
                    *model,
                ),
                old(model).answers_in_full(old(self).action_space) ==> model.answers_in_full(
                    old(self).action_space,
                ),
                scores_legal_actions::<M>() ==> forall|k: int|
                    0 <= k < old(self).trees@.len() && has_legal(
                        old(self).trees@[k].nodes@,
                        old(self).action_space as int,
                    ) && illegal_unvisited(
                        old(self).trees@[k].nodes@,
                        old(self).action_space as int,
                    ) ==> illegal_unvisited(
                        (#[trigger] self.trees@[k]).nodes@,
                        old(self).action_space as int,
                    ),
            decreases self.num_simulations - self.sim_step,
        {
            let ghost at_start = self.trees@;
            let ghost step = self.sim_step as int;
            let ghost n = self.trees@.len() as int;
            let ghost model_before = *model;
            self.begin();
            let ghost begun_trees = self.trees@;
            proof {
                assert(tree_views(begun_trees) =~= begun(tree_views(at_start))) by {
                    assert forall|k: int| 0 <= k < n implies begun_trees[k]@
                        == (TreeView { path: seq![0usize], ..at_start[k]@ }) by {
                        self.lemma_tree(k);
                        assert(tree_wf(
                            at_start[k],
                            old(self).action_space as int,
                            old(self).root_visits as int,
                            step,
                            k,
                            n,
                            self.arena_len as int,
                        ));
                        assert(begun_trees[k].path@ == seq![0usize]);
                    }
                }
            }
            let walked_all: bool = self.walk_all(model, Ghost(job));
            proof {
                assert(same_nodes(at_start, self.trees@)) by {
                    assert forall|k: int| 0 <= k < at_start.len() implies (
                    #[trigger] self.trees@[k]).nodes@ == at_start[k].nodes@ by {
                        assert(begun_trees[k].nodes@ == at_start[k].nodes@);
                    }
                }
                lemma_same_nodes_keep_origins(old(self).trees@, at_start, self.trees@);
                assert forall|k: int|
                    scores_legal_actions::<M>() && 0 <= k < old(self).trees@.len() && has_legal(
                        old(self).trees@[k].nodes@,
                        old(self).action_space as int,
                    ) && illegal_unvisited(
                        old(self).trees@[k].nodes@,
                        old(self).action_space as int,
                    ) implies illegal_unvisited(
                    (#[trigger] self.trees@[k]).nodes@,
                    old(self).action_space as int,
                ) by {
                    assert(at_start[k].nodes@ == self.trees@[k].nodes@);
                }
            }
            if !walked_all {
                assert(simulated(job, step, tree_views(at_start), model_before) is None);
                return false;
            }
            let ghost ended = tree_views(self.trees@);
            let (rows, actions): (Vec<i64>, Vec<i64>) = self.requests();
            proof {
                assert forall|k: int| 0 <= k < n implies rows@[k] == asked_rows(ended)[k]
                    && actions@[k] == asked_actions(ended)[k] by {
                    assert(self.trees@[k].path@.len() >= 2);
                }
                assert(rows@ =~= asked_rows(ended));
                assert(actions@ =~= asked_actions(ended));
            }
            let p: Predictions = model.recurrent_inference(&rows, &actions);
            let count: usize = self.trees.len();
            if p.rewards.len() != count || p.values.len() != count || !all_of_length(
                &p.priors,
                count,
                self.action_space,
            ) || !all_of_length(&p.logits, count, self.action_space) {
                proof {
                    lemma_fits(p, n, self.action_space as int);
                    assert(simulated(job, step, tree_views(at_start), model_before) is None);
                }
                return false;
            }
            proof {
                lemma_fits(p, n, self.action_space as int);
            }
            match self.sums_of_all(model, &p.rewards, &p.values) {
                Some(sums) => {
                    assert forall|i: int| 0 <= i < self.trees@.len() implies {
                        &&& (#[trigger] p.priors@[i])@.len() == self.action_space
                        &&& p.logits@[i]@.len() == self.action_space
                        &&& sums@[i]@.len() == self.trees@[i].path@.len()
                    } by {
                        assert(p.logits@[i]@.len() == self.action_space);
                        assert(sums@[i]@.len() == self.trees@[i].path@.len());
                    }
                    let ghost walked_trees = self.trees@;
                    let ghost walked_search = *self;
                    let ghost arena_len = self.arena_len;
                    self.absorb(&p.rewards, &p.values, &p.priors, &p.logits, &sums);
                    proof {
                        assert(tree_views(self.trees@) =~= absorbed(
                            ended,
                            arena_len as int,
                            p@,
                            row_views(sums@),
                        )) by {
                            assert forall|k: int| 0 <= k < n implies self.trees@[k]@ == absorbed(
                                ended,
                                arena_len as int,
                                p@,
                                row_views(sums@),
                            )[k] by {
                                self.lemma_tree(k);
                                walked_search.lemma_tree(k);
                                lemma_one_backup(
                                    crate::tree::after_expansion(
                                        walked_trees[k].nodes@,
                                        walked_trees[k].path@.last() as int,
                                        (arena_len + k) as usize,
                                        p.rewards@[k],
                                        p.values@[k],
                                        p.priors@[k]@,
                                        p.logits@[k]@,
                                    ),
                                    self.trees@[k].nodes@,
                                    walked_trees[k].path@,
                                    sums@[k]@,
                                );
                            }
                        }
                        assert(simulated(job, step, tree_views(at_start), model_before) == Some(
                            (tree_views(self.trees@), *model),
                        ));
                        assert forall|k: int, x: int|
                            0 <= k < old(self).trees@.len() && 0 <= x
                                < old(self).trees@[k].nodes@.len() implies
                            #[trigger] origin_kept(old(self).trees@, self.trees@, k, x) by {
                            assert(walked_trees[k].walking());
                            assert(walked_trees[k].nodes@ == at_start[k].nodes@);
                            assert(origin_kept(old(self).trees@, at_start, k, x));
                            assert(walked_trees[k].path@[walked_trees[k].path@.len() - 1]
                                < walked_trees[k].nodes@.len());
                            simulations_keep_origins(
                                walked_trees[k].nodes@,
                                self.trees@[k].nodes@,
                                walked_trees[k].path@,
                                (arena_len + k) as usize,
                                p.rewards@[k],
                                p.values@[k],
                                p.priors@[k]@,
                                p.logits@[k]@,
                                sums@[k]@,
                                x,
                            );
                        }
                        assert forall|k: int|
                            scores_legal_actions::<M>() && 0 <= k < old(self).trees@.len()
                                && has_legal(
                                old(self).trees@[k].nodes@,
                                old(self).action_space as int,
                            ) && illegal_unvisited(
                                old(self).trees@[k].nodes@,
                                old(self).action_space as int,
                            ) implies illegal_unvisited(
                            (#[trigger] self.trees@[k]).nodes@,
                            old(self).action_space as int,
                        ) by {
                            let tree = walked_trees[k];
                            assert(illegal_unvisited(
                                tree.nodes@,
                                old(self).action_space as int,
                            ));
                            walked_search.lemma_tree(k);
                            old(self).lemma_tree(k);
                            lemma_has_legal_kept(
                                old(self).trees@,
                                walked_trees,
                                k,
                                old(self).action_space as int,
                            );
                            legal_walks_leave_illegal_actions_unvisited(
                                tree,
                                self.trees@[k].nodes@,
                                (arena_len + k) as usize,
                                p.rewards@[k],
                                p.values@[k],
                                p.priors@[k]@,
                                p.logits@[k]@,
                                sums@[k]@,
                            );
                        }
                    }
                },
                None => {
                    assert(simulated(job, step, tree_views(at_start), model_before) is None);
                    return false;
                },
            }
        }
        true
    }

    /// What the trees say, each by its own algorithm; none where the model gave the wrong
    /// number of answers.
    fn outcomes<M: SearchModel>(&self, model: &mut M, tau: Single) -> (outcomes: Option<
        Vec<SearchReturn>,
    >)
        requires
            self.wf(),
        ensures
            outcomes is Some <==> asked(
                self.algorithm,
                tree_views(self.trees@),
                *old(model),
                self.trees@.len() as int,
            ) is Some,
            outcomes is Some ==> asked(
                self.algorithm,
                tree_views(self.trees@),
                *old(model),
                self.trees@.len() as int,
            ) == Some(*final(model)),
            outcomes matches Some(o) ==> o@.len() == self.trees@.len() && forall|k: int|
                0 <= k < o@.len() ==> said(
                    self.algorithm,
                    tree_views(self.trees@),
                    *old(model),
                    k,
                    tau,
                    #[trigger] o@[k],
                ),
            old(model).answers_in_full(self.action_space) ==> outcomes is Some
                && final(model).answers_in_full(self.action_space),
    {
        let ghost views = tree_views(self.trees@);
        let mut outcomes: Vec<SearchReturn> = Vec::new();
        let mut k: usize = 0;
        while k < self.trees.len()
            invariant
                k <= self.trees@.len(),
                self.wf(),
                views == tree_views(self.trees@),
                outcomes@.len() == k,
                asked(self.algorithm, views, *old(model), k as int) == Some(*model),
                forall|j: int|
                    0 <= j < k ==> said(
                        self.algorithm,
                        views,
                        *old(model),
                        j,
                        tau,
                        #[trigger] outcomes@[j],
                    ),
                old(model).answers_in_full(self.action_space) ==> model.answers_in_full(
                    self.action_space,
                ),
            decreases self.trees@.len() - k,
        {
            let tree: &SearchTree = &self.trees[k];
            proof {
                self.lemma_tree(k as int);
            }
            let outcome: SearchReturn = match self.algorithm {
                SearchAlgorithm::Puct => {
                    let s: VisitShares = model.visit_shares(k, tree);
                    if s.shares.len() != self.action_space || s.powers.len()
                        != self.action_space {
                        proof {
                            assert(asked(self.algorithm, views, *old(model), k + 1) is None);
                            lemma_asked_stopped(
                                self.algorithm,
                                views,
                                *old(model),
                                k + 1,
                                self.trees@.len() as int,
                            );
                        }
                        return None;
                    }
                    tree.extract_result(s.mean, &s.shares, tau, &s.powers, s.power_sum)
                },
                SearchAlgorithm::Gumbel => {
                    let p: ImprovedPolicy = model.improved_policy(k, tree);
                    if p.policy.len() != self.action_space || p.scores.len() != self.action_space {
                        proof {
                            assert(asked(self.algorithm, views, *old(model), k + 1) is None);
                            lemma_asked_stopped(
                                self.algorithm,
                                views,
                                *old(model),
                                k + 1,
                                self.trees@.len() as int,
                            );
                        }
                        return None;
                    }
                    let r: SearchReturn = tree.extract_gumbel_result(
                        p.mixed_value,
                        &p.policy,
                        &p.scores,
                    );
                    proof {
                        let most = choose|most: usize|
                            {
                                &&& #[trigger] most_legal_visits(
                                    tree.nodes@,
                                    tree.action_space as int,
                                    most as int,
                                )
                                &&& best_of_most(
                                    tree.nodes@,
                                    tree.action_space as int,
                                    p.scores@,
                                    most,
                                    r.best_action as int,
                                )
                            };
                        assert(most_legal_visits(
                            tree.nodes@,
                            tree.action_space as int,
                            most as int,
                        ));
                        assert(gumbel_best(
                            tree.nodes@,
                            tree.action_space as int,
                            p.scores@,
                            r.best_action as int,
                        ));
                    }
                    r
                },
            };
            proof {
                assert(views[k as int] == tree@);
                assert(said(self.algorithm, views, *old(model), k as int, tau, outcome));
            }
            outcomes.push(outcome);
            k = k + 1;
        }
        Some(outcomes)
    }
}

/// Once a walk is refused, so are all.
proof fn lemma_stopped<M: SearchModel>(
    job: Job,
    step: int,
    trees: Seq<TreeView>,
    model: M,
    k: int,
    n: int,
)
    requires
        k <= n,
        all_walked(job, step, trees, model, k) is None,
    ensures
        all_walked(job, step, trees, model, n) is None,
    decreases n - k,
{
    if k < n {
        if k >= 0 {
            assert(all_walked(job, step, trees, model, k + 1) is None);
        }
        lemma_stopped(job, step, trees, model, k + 1, n);
    }
}

/// Once sums are refused, so are all.
proof fn lemma_sums_stopped<M: SearchModel>(
    trees: Seq<TreeView>,
    rewards: Seq<Single>,
    values: Seq<Single>,
    model: M,
    k: int,
    n: int,
)
    requires
        0 <= k <= n,
        all_summed(trees, rewards, values, model, k) is None,
    ensures
        all_summed(trees, rewards, values, model, n) is None,
    decreases n - k,
{
    if k < n {
        assert(all_summed(trees, rewards, values, model, k + 1) is None);
        lemma_sums_stopped(trees, rewards, values, model, k + 1, n);
    }
}

/// Once an answer is refused, so are all.
pub proof fn lemma_asked_stopped<M: SearchModel>(
    algorithm: SearchAlgorithm,
    trees: Seq<TreeView>,
    model: M,
    k: int,
    n: int,
)
    requires
        0 <= k <= n,
        asked(algorithm, trees, model, k) is None,
    ensures
        asked(algorithm, trees, model, n) is None,
    decreases n - k,
{
    if k < n {
        assert(asked(algorithm, trees, model, k + 1) is None);
        lemma_asked_stopped(algorithm, trees, model, k + 1, n);
    }
}

/// Predictions fit by what they hold.
proof fn lemma_fits(p: Predictions, count: int, action_space: int)
    ensures
        fits(p@, count, action_space) <==> p.rewards@.len() == count && p.values@.len() == count
            && p.priors@.len() == count && p.logits@.len() == count && (forall|i: int|
            0 <= i < count ==> (#[trigger] p.priors@[i])@.len() == action_space) && (forall|i: int|
            0 <= i < count ==> (#[trigger] p.logits@[i])@.len() == action_space),
{
    if fits(p@, count, action_space) {
        assert forall|i: int| 0 <= i < count implies (#[trigger] p.priors@[i])@.len()
            == action_space by {
            assert(p@.priors[i].len() == action_space);
        }
        assert forall|i: int| 0 <= i < count implies (#[trigger] p.logits@[i])@.len()
            == action_space by {
            assert(p@.logits[i].len() == action_space);
        }
    }
}

/// A legal action of the root stays legal.
proof fn lemma_has_legal_kept(
    before: Seq<SearchTree>,
    after: Seq<SearchTree>,
    k: int,
    action_space: int,
)
    requires
        same_origins(before, after),
        0 <= k < before.len(),
        has_legal(before[k].nodes@, action_space),
        before[k].nodes@.len() > action_space,
        before[k].nodes@[0].first_child == 1,
        after[k].nodes@[0].first_child == 1,
    ensures
        has_legal(after[k].nodes@, action_space),
{
    let a = choose|a: int|
        0 <= a < action_space && (#[trigger] root_child(before[k].nodes@, a)).legal;
    assert(origin_kept(before, after, k, 1 + a));
    assert(root_child(after[k].nodes@, a).legal);
}

/// Whether trees have the same nodes.
pub open spec fn same_nodes(a: Seq<SearchTree>, b: Seq<SearchTree>) -> bool {
    &&& a.len() == b.len()
    &&& forall|k: int| 0 <= k < a.len() ==> (#[trigger] b[k]).nodes@ == a[k].nodes@
}

/// Whether the nodes of trees are made as they were, with more behind them.
pub open spec fn same_origins(a: Seq<SearchTree>, b: Seq<SearchTree>) -> bool {
    &&& a.len() == b.len()
    &&& forall|k: int, x: int|
        0 <= k < a.len() && 0 <= x < a[k].nodes@.len() ==> #[trigger] origin_kept(a, b, k, x)
}

/// Whether node `x` of tree `k` is made as it was.
pub open spec fn origin_kept(a: Seq<SearchTree>, b: Seq<SearchTree>, k: int, x: int) -> bool {
    x < b[k].nodes@.len() && same_origin(b[k].nodes@[x], a[k].nodes@[x])
}

proof fn lemma_same_nodes_keep_origins(
    a: Seq<SearchTree>,
    b: Seq<SearchTree>,
    c: Seq<SearchTree>,
)
    requires
        same_origins(a, b),
        same_nodes(b, c),
    ensures
        same_origins(a, c),
{
    assert forall|k: int, x: int| 0 <= k < a.len() && 0 <= x < a[k].nodes@.len() implies
        #[trigger] origin_kept(a, c, k, x) by {
        assert(origin_kept(a, b, k, x));
        assert(c[k].nodes@ == b[k].nodes@);
    }
}

/// Whether `best` is the best scored of the legal actions with so many visits, or 0 where no
/// such score counts.
pub open spec fn best_of_most(
    nodes: Seq<BatchNode>,
    action_space: int,
    scores: Seq<Single>,
    most: usize,
    best: int,
) -> bool {
    let allowed = choosable(nodes, 0, action_space, Some(most));
    if none_best(scores, allowed) {
        best == 0
    } else {
        first_best(scores, allowed, best)
    }
}

/// Whether `best` is the best scored of the legal actions with the most visits, or 0 where
/// no such score counts.
pub open spec fn gumbel_best(
    nodes: Seq<BatchNode>,
    action_space: int,
    scores: Seq<Single>,
    best: int,
) -> bool {
    exists|most: usize|
        {
            &&& #[trigger] most_legal_visits(nodes, action_space, most as int)
            &&& best_of_most(nodes, action_space, scores, most, best)
        }
}

/// A walk of more than one node ends above the node before.
proof fn lemma_walk_goes_on(tree: SearchTree)
    requires
        tree.walking(),
        tree.path@.len() >= 2,
    ensures
        tree.path@[tree.path@.len() - 2] < tree.path@.last(),
        tree.path@.last() < tree.nodes@.len(),
{
    assert(path_step(
        tree.nodes@,
        tree.action_space as int,
        tree.path@,
        tree.path@.len() - 2,
    ));
    assert(expanded(tree.nodes@, tree.path@[tree.path@.len() - 2] as int));
    assert(tree.path@[tree.path@.len() - 1] < tree.nodes@.len());
}

/// A walk starts at the root and stays in the tree.
proof fn lemma_walk_stays(tree: SearchTree)
    requires
        tree.walking(),
    ensures
        tree.path@.len() >= 1,
        tree.path@[0] == 0,
        tree.path@.last() < tree.nodes@.len(),
{
    assert(tree.path@[tree.path@.len() - 1] < tree.nodes@.len());
}

/// Whether a mask leaves just one action.
pub open spec fn leaves_one(mask: Seq<bool>) -> bool {
    exists|a: int| #[trigger] only_legal(mask, a)
}

/// What a batch search with these arguments is to do.
pub open spec fn job_of(
    algorithm: SearchAlgorithm,
    max_considered: usize,
    action_space: usize,
    num_simulations: usize,
    root_visits: usize,
    masks: Option<&Vec<Vec<bool>>>,
    roots: Predictions,
) -> Job {
    Job {
        algorithm,
        max_considered,
        action_space,
        num_simulations,
        root_visits,
        masks: mask_views(masks),
        roots: roots@,
    }
}

proof fn lemma_no_open_rows(forced: Seq<Option<usize>>, end: int)
    requires
        0 <= end <= forced.len(),
        forall|i: int| 0 <= i < forced.len() ==> #[trigger] forced[i] is Some,
    ensures
        open_rows(forced, end).len() == 0,
    decreases end,
{
    if end > 0 {
        lemma_no_open_rows(forced, end - 1);
        assert(forced[end - 1] is Some);
    }
}

/// A search that was just made does the job that it was made for.
proof fn lemma_made_for(
    search: BatchSearch,
    job: Job,
    max_considered: usize,
    masks: Option<&Vec<Vec<bool>>>,
    roots: Predictions,
)
    requires
        search.wf(),
        search.sim_step == 0,
        job == job_of(
            search.algorithm,
            max_considered,
            search.action_space,
            search.num_simulations,
            search.root_visits,
            masks,
            roots,
        ),
        fits(roots@, roots.rewards@.len() as int, search.action_space as int),
        search.forced@.len() == roots.rewards@.len(),
        roots.rewards@.len() <= usize::MAX,
        masks matches Some(m) ==> m@.len() == roots.rewards@.len() && forall|i: int|
            0 <= i < m@.len() ==> (#[trigger] m@[i])@.len() == search.action_space,
        forall|i: int|
            0 <= i < search.forced@.len() ==> match masks {
                Some(m) => forced_by(m@[i]@, #[trigger] search.forced@[i]),
                None => search.forced@[i] is None,
            },
        forall|k: int|
            0 <= k < search.trees@.len() ==> root_of(
                #[trigger] search.trees@[k],
                k,
                search.active@[k] as int,
                masks,
                roots.rewards@,
                roots.values@,
                roots.priors@,
                roots.logits@,
            ),
        search.algorithm is Gumbel ==> forall|k: int|
            0 <= k < search.trees@.len() ==> #[trigger] search.num_considered@[k]
                == crate::batch::considered_at(
                mask_views(masks),
                search.active@[k] as int,
                max_considered as int,
                search.action_space as int,
            ),
    ensures
        search.does(job),
        forall|i: int| 0 <= i < job.count() ==> #[trigger] job.forced(i) == search.forced@[i],
        job.open() == search.active@,
        tree_views(search.trees@) == job.trees(),
{
    assert forall|i: int| 0 <= i < job.count() implies #[trigger] job.forced(i)
        == search.forced@[i] by {
        match masks {
            Some(m) => {
                assert(forced_by(m@[i]@, search.forced@[i]));
                assert(job.masks->0[i] == m@[i]@);
                if search.forced@[i] is Some {
                    let a = search.forced@[i]->0 as int;
                    assert(only_legal(m@[i]@, a));
                    let b = choose|b: int| #[trigger] only_legal(m@[i]@, b);
                    assert(m@[i]@[a] && m@[i]@[b]);
                }
            },
            None => {
                assert(search.forced@[i] is None);
            },
        }
    }
    assert(Seq::new(job.count(), |i: int| job.forced(i)) =~= search.forced@);
    crate::batch::lemma_open_rows(search.forced@, search.forced@.len() as int);
    assert forall|k: int| 0 <= k < search.trees@.len() implies search.trees@[k]@
        == job.root(k) by {
        search.lemma_tree(k);
        let tree = search.trees@[k];
        let row = search.active@[k] as int;
        assert(root_of(
            tree,
            k,
            row,
            masks,
            roots.rewards@,
            roots.values@,
            roots.priors@,
            roots.logits@,
        ));
        assert(search.active@[k] < search.forced@.len());
        assert(roots@.priors[row] == roots.priors@[row]@);
        assert(roots@.logits[row] == roots.logits@[row]@);
        match masks {
            Some(m) => {
                assert(job.masks->0[row] == m@[row]@);
                assert(m@[row]@.len() == search.action_space);
            },
            None => {},
        }
        assert forall|i: int| 0 <= i < tree.nodes@.len() implies tree.nodes@[i]
            == job.root(k).nodes[i] by {
            if i > 0 {
                assert(tree.nodes@[i].action == i - 1);
            }
        }
        assert(tree.nodes@ =~= job.root(k).nodes);
    }
    assert(tree_views(search.trees@) =~= job.trees());
    if search.algorithm is Gumbel {
        assert forall|k: int, step: int|
            0 <= k < search.trees@.len() && 0 <= step < search.num_simulations implies
            search.considered@[search.num_considered@[k] as int]@[step]
            == #[trigger] job.threshold(k, step) by {
            let m = search.num_considered@[k] as int;
            assert(search.considered@[m]@ == crate::considered::considered_visits(
                m as nat,
                search.num_simulations as nat,
            ));
        }
    }
}

/// Whether every position has a legal action.
pub open spec fn playable(job: Job) -> bool {
    forall|row: int| 0 <= row < job.count() ==> #[trigger] has_an_action(job, row)
}

/// Whether a position has a legal action.
pub open spec fn has_an_action(job: Job, row: int) -> bool {
    exists|a: int| 0 <= a < job.action_space && #[trigger] job.legal(row, a)
}

/// Whether a result keeps to the legal actions: its best action is legal, and no other has a
/// share.
pub open spec fn keeps_to_legal(job: Job, row: int, r: SearchReturn) -> bool {
    &&& r.best_action < job.action_space
    &&& job.legal(row, r.best_action as int)
    &&& forall|a: int|
        0 <= a < job.action_space && !#[trigger] job.legal(row, a) ==> r.policy_target@[a]
            == Single::zero_spec() && r.distribution@[a] == Single::zero_spec()
}

/// Whether all results keep to the legal actions.
pub open spec fn all_keep_to_legal(job: Job, results: Seq<SearchReturn>) -> bool {
    forall|i: int| 0 <= i < results.len() ==> keeps_to_legal(job, i, #[trigger] results[i])
}

/// Searches a batch of positions.
///
/// Positions with one legal action are answered without a search. None comes back where an
/// answer of the model did not have the right length. The predictions for the positions
/// come with one entry for each of them.
///
/// The results are those that the model's answers lead to (see [`crate::course`]). Where it
/// gives legal actions scores above negative infinity, and there is a simulation, they keep to
/// the legal actions.
#[verifier::rlimit(40)]
pub fn batched_search<M: SearchModel>(
    algorithm: SearchAlgorithm,
    max_considered: usize,
    action_space: usize,
    num_simulations: usize,
    root_visits: usize,
    masks: Option<&Vec<Vec<bool>>>,
    roots: &Predictions,
    tau: Single,
    model: &mut M,
) -> (results: Option<Vec<SearchReturn>>)
    requires
        action_space >= 1,
        max_considered < usize::MAX,
        root_visits <= 1,
        sizes_fit(num_simulations as int, action_space as int, roots.rewards@.len() as int),
        masks matches Some(m) ==> m@.len() == roots.rewards@.len() && forall|i: int|
            0 <= i < m@.len() ==> (#[trigger] m@[i])@.len() == action_space,
    ensures
        ({
            let job = job_of(
                algorithm,
                max_considered,
                action_space,
                num_simulations,
                root_visits,
                masks,
                *roots,
            );
            let shaped = fits(roots@, roots.rewards@.len() as int, action_space as int);
            &&& results is Some <==> comes_to_results(job, *old(model))
            &&& results matches Some(r) ==> results_of(job, *old(model), tau, r@)
            &&& results is Some ==> told_model(job, *old(model)) == Some(*final(model))
            &&& results matches Some(r) ==> (num_simulations >= 1 && playable(job)
                && scores_legal_actions::<M>() ==> all_keep_to_legal(job, r@))
            &&& shaped && masks is Some && (forall|i: int|
                0 <= i < roots.rewards@.len() ==> leaves_one(#[trigger] masks->0@[i]@))
                ==> results is Some
            &&& !shaped ==> results is None
            &&& shaped && old(model).answers_in_full(action_space) ==> results is Some
                && final(model).answers_in_full(action_space)
        }),
{
    let ghost job = job_of(
        algorithm,
        max_considered,
        action_space,
        num_simulations,
        root_visits,
        masks,
        *roots,
    );
    let batch_size: usize = roots.rewards.len();
    assert(roots.rewards@.len() == batch_size);
    proof {
        lemma_fits(*roots, batch_size as int, action_space as int);
    }
    if roots.values.len() != batch_size || !all_of_length(&roots.priors, batch_size, action_space)
        || !all_of_length(&roots.logits, batch_size, action_space) {
        return None;
    }
    let mut search: BatchSearch = BatchSearch::new(
        algorithm,
        max_considered,
        action_space,
        num_simulations,
        root_visits,
        batch_size,
        masks,
        &roots.rewards,
        &roots.values,
        &roots.priors,
        &roots.logits,
    );
    let ghost started = search;
    proof {
        lemma_made_for(search, job, max_considered, masks, *roots);
        if masks is Some && forall|i: int|
            0 <= i < roots.rewards@.len() ==> leaves_one(#[trigger] masks->0@[i]@) {
            assert forall|i: int| 0 <= i < search.forced@.len() implies
                #[trigger] search.forced@[i] is Some by {
                assert(leaves_one(masks->0@[i]@));
                assert(forced_by(masks->0@[i]@, search.forced@[i]));
            }
            lemma_no_open_rows(search.forced@, search.forced@.len() as int);
            assert(job.trees().len() == 0);
            assert(simulated_from(job, 0, job.trees(), *old(model)) is Some);
        }
    }
    if !search.run(model, Ghost(job)) {
        return None;
    }
    let ghost next = *model;
    match search.outcomes(model, tau) {
        None => {
            return None;
        },
        Some(outcomes) => {
            let ghost told = outcomes@;
            let results: Vec<SearchReturn> = search.results(outcomes, &roots.values);
            proof {
                assert(search.active@ == started.active@);
                assert(search.forced@ == started.forced@);
                assert forall|i: int| 0 <= i < results@.len() implies (
                #[trigger] job.forced(i) matches Some(a) ==> {
                    &&& results@[i].best_action == a
                    &&& results@[i].value == job.roots.values[i]
                    &&& results@[i].distribution@ == one_hot_spec(
                        a as int,
                        job.action_space as nat,
                    )
                    &&& results@[i].policy_target@ == one_hot_spec(
                        a as int,
                        job.action_space as nat,
                    )
                }) by {
                    assert(search.forced@[i] == job.forced(i));
                }
                assert forall|k: int| 0 <= k < job.open().len() implies said(
                    job.algorithm,
                    crate::course::final_trees(job, *old(model)),
                    crate::course::final_model(job, *old(model)),
                    k,
                    tau,
                    results@[#[trigger] job.open()[k] as int],
                ) by {
                    assert(results@[search.active@[k] as int] == told[k]);
                }
                assert(results_of(job, *old(model), tau, results@));
                if num_simulations >= 1 && playable(job) && scores_legal_actions::<M>() {
                    assert forall|i: int| 0 <= i < results@.len() implies keeps_to_legal(
                        job,
                        i,
                        #[trigger] results@[i],
                    ) by {
                        if job.forced(i) is Some {
                            let a = job.forced(i)->0 as int;
                            assert(only_legal(job.masks->0[i], a));
                        } else {
                            crate::batch::lemma_open_rows(
                                search.forced@,
                                search.forced@.len() as int,
                            );
                            assert(search.forced@[i] is None);
                            assert(search.active@.contains(i as usize));
                            let k = choose|k: int|
                                0 <= k < search.active@.len() && search.active@[k] == i as usize;
                            assert(said(
                                job.algorithm,
                                tree_views(search.trees@),
                                next,
                                k,
                                tau,
                                results@[job.open()[k] as int],
                            ));
                            lemma_keeps_to_legal(
                                job,
                                started,
                                search,
                                next,
                                k,
                                tau,
                                results@[i],
                            );
                        }
                    }
                }
            }
            return Some(results);
        },
    }
}

/// What a finished tree says keeps to the legal actions.
proof fn lemma_keeps_to_legal<M: SearchModel>(
    job: Job,
    started: BatchSearch,
    search: BatchSearch,
    model: M,
    k: int,
    tau: Single,
    r: SearchReturn,
)
    requires
        scores_legal_actions::<M>(),
        playable(job),
        job.num_simulations >= 1,
        search.wf(),
        started.wf(),
        search.sim_step == search.num_simulations,
        search.num_simulations == job.num_simulations,
        search.action_space == job.action_space,
        started.action_space == job.action_space,
        search.algorithm == job.algorithm,
        0 <= k < search.trees@.len(),
        started.trees@.len() == search.trees@.len(),
        tree_views(started.trees@) == job.trees(),
        job.open().len() == search.trees@.len(),
        0 <= job.open()[k] < job.count(),
        same_origins(started.trees@, search.trees@),
        has_legal(started.trees@[k].nodes@, started.action_space as int) && illegal_unvisited(
            started.trees@[k].nodes@,
            started.action_space as int,
        ) ==> illegal_unvisited(search.trees@[k].nodes@, started.action_space as int),
        said(job.algorithm, tree_views(search.trees@), model, k, tau, r),
        asked(job.algorithm, tree_views(search.trees@), model, search.trees@.len() as int) is Some,
    ensures
        keeps_to_legal(job, job.open()[k] as int, r),
{
    let row = job.open()[k] as int;
    let n = job.action_space as int;
    let first = started.trees@[k];
    let tree = search.trees@[k];
    let views = tree_views(search.trees@);
    started.lemma_tree(k);
    search.lemma_tree(k);
    assert(job.trees()[k] == job.root(k));
    assert forall|a: int| 0 <= a < n implies (#[trigger] root_child(tree.nodes@, a)).legal
        == job.legal(row, a) && root_child(first.nodes@, a).legal == job.legal(row, a)
        && root_child(first.nodes@, a).visits == 0 by {
        assert(origin_kept(started.trees@, search.trees@, k, 1 + a));
        assert(first.nodes@[1 + a] == job.root(k).nodes[1 + a]);
    }
    assert(has_an_action(job, row));
    let w = choose|a: int| 0 <= a < n && #[trigger] job.legal(row, a);
    assert(root_child(first.nodes@, w).legal);
    assert(root_child(tree.nodes@, w).legal);
    assert(illegal_unvisited(first.nodes@, n));
    assert(tree_wf(
        tree,
        n,
        search.root_visits as int,
        search.sim_step as int,
        k,
        search.trees@.len() as int,
        search.arena_len as int,
    ));
    crate::extract::legal_visits_match_simulations(tree);
    if asked(job.algorithm, views, model, k + 1) is None {
        lemma_asked_stopped(job.algorithm, views, model, k + 1, search.trees@.len() as int);
    }
    let m = asked(job.algorithm, views, model, k)->0;
    if job.algorithm is Puct {
        lemma_legal_visited(tree.nodes@, n);
        let b = choose|b: int|
            0 <= b < n && (#[trigger] root_child(tree.nodes@, b)).legal && root_child(
                tree.nodes@,
                b,
            ).visits > 0;
        assert(root_child(tree.nodes@, b).visits != 0);
        assert(root_child(tree.nodes@, r.best_action as int).legal);
    } else {
        let scores = m.policy_spec(k as usize, tree@).0.scores;
        assert forall|b: int| 0 <= b < scores.len() && (#[trigger] root_child(tree.nodes@, b)).legal
            implies Single::neg_infinity_spec().lt_spec(scores[b]) by {
            assert(m.policy_spec(k as usize, tree@).0.scores[b] == scores[b]);
        }
        halving_respects_the_mask(tree.nodes@, n, scores, r.best_action as int, w);
    }
    assert forall|a: int| 0 <= a < n && !#[trigger] job.legal(row, a) implies r.policy_target@[a]
        == Single::zero_spec() && r.distribution@[a] == Single::zero_spec() by {
        assert(!root_child(tree.nodes@, a).legal);
        assert(a != r.best_action);
    }
}

/// Where the legal children of a root have visits at all, one of them has.
proof fn lemma_legal_visited(nodes: Seq<BatchNode>, n: int)
    requires
        nodes[0].first_child == 1,
        legal_visits_in(nodes, 1, n) > 0,
    ensures
        exists|a: int|
            0 <= a < n && (#[trigger] root_child(nodes, a)).legal && root_child(nodes, a).visits
                > 0,
    decreases n,
{
    if n > 0 {
        assert(root_child(nodes, n - 1) == nodes[1 + n - 1]);
        if !(root_child(nodes, n - 1).legal && root_child(nodes, n - 1).visits > 0) {
            lemma_legal_visited(nodes, n - 1);
            let a = choose|a: int|
                0 <= a < n - 1 && (#[trigger] root_child(nodes, a)).legal && root_child(
                    nodes,
                    a,
                ).visits > 0;
            assert(root_child(nodes, a).legal);
        }
    }
}

/// The best action by sequential halving is legal, as long as some action is and the scores of
/// legal actions are numbers above negative infinity.
pub proof fn halving_respects_the_mask(
    nodes: Seq<BatchNode>,
    n: int,
    scores: Seq<Single>,
    best: int,
    witness: int,
)
    requires
        nodes[0].first_child == 1,
        gumbel_best(nodes, n, scores, best),
        scores.len() == n,
        forall|b: int|
            0 <= b < n && (#[trigger] root_child(nodes, b)).legal
                ==> Single::neg_infinity_spec().lt_spec(scores[b]),
        0 <= witness < n,
        root_child(nodes, witness).legal,
    ensures
        root_child(nodes, best).legal,
{
    let most = choose|most: usize|
        {
            &&& #[trigger] most_legal_visits(nodes, n, most as int)
            &&& best_of_most(nodes, n, scores, most, best)
        };
    let allowed = choosable(nodes, 0, n, Some(most));
    let b = if most == 0 {
        witness
    } else {
        choose|b: int|
            0 <= b < n && (#[trigger] root_child(nodes, b)).legal && root_child(nodes, b).visits
                == most
    };
    assert(root_child(nodes, b).legal && root_child(nodes, b).visits <= most);
    assert(child_of(nodes, 0, b) == 1 + b);
    assert(allowed[b]);
    assert(!none_best(scores, allowed));
    assert(allowed[best]);
    assert(child_of(nodes, 0, best) == 1 + best);
}

/// After a finished search, every tree has as many simulations as were asked for, and they
/// all went through the root's children.
pub proof fn finished_trees_have_all_simulations(search: BatchSearch, k: int)
    requires
        search.wf(),
        search.sim_step == search.num_simulations,
        0 <= k < search.trees@.len(),
    ensures
        search.trees@[k].simulations() == search.num_simulations,
        visits_in(search.trees@[k].nodes@, 1, search.action_space as int)
            == search.num_simulations,
{
    assert(tree_wf(
        search.trees@[k],
        search.action_space as int,
        search.root_visits as int,
        search.sim_step as int,
        k,
        search.trees@.len() as int,
        search.arena_len as int,
    ));
    crate::extract::root_visits_match_simulations(search.trees@[k]);
}

/// What the search of one position without illegal actions is to do.
pub open spec fn single_job(action_space: usize, num_simulations: usize, roots: Predictions) -> Job {
    Job {
        algorithm: SearchAlgorithm::Puct,
        max_considered: (action_space - 1) as usize,
        action_space,
        num_simulations,
        root_visits: 1,
        masks: None,
        roots: roots@,
    }
}

/// What the visits of the tree of one position come to.
pub open spec fn single_shares<M: SearchModel>(job: Job, model: M) -> SharesView {
    crate::course::final_model(job, model).shares_spec(
        0,
        crate::course::final_trees(job, model)[0],
    ).0
}

/// Whether a distribution, a value and an action are what the search of one position comes to:
/// without temperature the latest of the most visited actions alone, and otherwise the shares
/// of the visits and the earliest of the most visited actions.
pub open spec fn single_result<M: SearchModel>(
    job: Job,
    model: M,
    tau: Single,
    distribution: Seq<Single>,
    value: Single,
    best: usize,
) -> bool {
    let nodes = crate::course::final_trees(job, model)[0].nodes;
    let s = single_shares(job, model);
    let n = job.action_space as int;
    &&& value == s.mean
    &&& if tau.eq_value_spec(Single::zero_spec()) {
        &&& latest_most_visited(nodes, n, best as int)
        &&& distribution == one_hot_spec(best as int, n as nat)
    } else {
        &&& most_visited(nodes, n, best as int)
        &&& distribution == s.powers
    }
}

/// Equal searches of one position find the same.
pub proof fn equal_single_searches_agree<M: SearchModel>(
    job: Job,
    model: M,
    tau: Single,
    distribution: Seq<Single>,
    value: Single,
    best: usize,
    other_distribution: Seq<Single>,
    other_value: Single,
    other_best: usize,
)
    requires
        single_result(job, model, tau, distribution, value, best),
        single_result(job, model, tau, other_distribution, other_value, other_best),
    ensures
        distribution == other_distribution,
        value == other_value,
        best == other_best,
{
    let nodes = crate::course::final_trees(job, model)[0].nodes;
    let n = job.action_space as int;
    if tau.eq_value_spec(Single::zero_spec()) {
        let a = root_child(nodes, best as int);
        let b = root_child(nodes, other_best as int);
        assert(a.visits <= b.visits || b.visits <= a.visits);
    } else {
        crate::course::lemma_one_most_visited(nodes, n, best as int, other_best as int);
    }
}

/// Searches one position without illegal actions by upper confidence bounds, where the
/// network's prediction for the root counts as its first visit.
///
/// The distribution to play from, the mean value of the root and the best action come back,
/// and none where an answer of the model did not have the right length.
pub fn search<M: SearchModel>(
    action_space: usize,
    num_simulations: usize,
    roots: &Predictions,
    tau: Single,
    model: &mut M,
) -> (found: Option<(Vec<Single>, Single, usize)>)
    requires
        action_space >= 1,
        sizes_fit(num_simulations as int, action_space as int, 1),
    ensures
        ({
            let job = single_job(action_space, num_simulations, *roots);
            let shaped = roots.rewards@.len() == 1 && fits(roots@, 1, action_space as int);
            &&& found is Some <==> shaped && searched(job, *old(model)) is Some && single_shares(
                job,
                *old(model),
            ).powers.len() == action_space
            &&& shaped && old(model).answers_in_full(action_space) ==> found is Some
            &&& found matches Some(f) ==> single_result(job, *old(model), tau, f.0@, f.1, f.2)
            &&& found is Some ==> visits_in(
                crate::course::final_trees(job, *old(model))[0].nodes,
                1,
                action_space as int,
            ) == num_simulations
        }),
{
    let ghost job = single_job(action_space, num_simulations, *roots);
    proof {
        lemma_fits(*roots, 1, action_space as int);
    }
    if roots.rewards.len() != 1 || roots.values.len() != 1 || !all_of_length(
        &roots.priors,
        1,
        action_space,
    ) || !all_of_length(&roots.logits, 1, action_space) {
        return None;
    }
    let mut run: BatchSearch = BatchSearch::new(
        SearchAlgorithm::Puct,
        action_space - 1,
        action_space,
        num_simulations,
        1,
        1,
        None,
        &roots.rewards,
        &roots.values,
        &roots.priors,
        &roots.logits,
    );
    let ghost started = run;
    proof {
        lemma_made_for(run, job, (action_space - 1) as usize, None, *roots);
        reveal_with_fuel(open_rows, 2);
        assert(started.forced@[0] is None);
        assert(started.active@.len() == 1);
        assert(root_of(
            started.trees@[0],
            0,
            started.active@[0] as int,
            None,
            roots.rewards@,
            roots.values@,
            roots.priors@,
            roots.logits@,
        ));
    }
    if !run.run(model, Ghost(job)) {
        return None;
    }
    proof {
        run.lemma_tree(0);
    }
    let shares: VisitShares = model.visit_shares(0, &run.trees[0]);
    assert(tree_views(run.trees@)[0] == run.trees@[0]@);
    if shares.powers.len() != action_space {
        return None;
    }
    proof {
        finished_trees_have_all_simulations(run, 0);
        started.lemma_tree(0);
        assert forall|a: int| 0 <= a < action_space implies (#[trigger] root_child(
            run.trees@[0].nodes@,
            a,
        )).legal by {
            assert(started.trees@[0].nodes@[1 + a].action == a);
            assert(origin_kept(started.trees@, run.trees@, 0, 1 + a));
        }
    }
    Some(run.trees[0].extract_visit_result(shares.mean, tau, shares.powers))
}

} // verus!
