//! The search of a single position by sequential halving.
use vstd::prelude::*;
use crate::batch::{forced_by, only_legal, sizes_fit};
use crate::config::SearchAlgorithm;
use crate::course::{Job, comes_to_results, final_model, final_trees, results_of};
use crate::extract::{SearchReturn, legal_only, one_hot_spec};
use crate::search::{
    Predictions, PredictionsView, SearchModel, batched_search, gumbel_best, has_an_action,
    leaves_one, playable, scores_legal_actions,
};
use crate::single::Single;

verus! {

/// The numbers that a search goes by.
#[derive(Clone, Copy, Debug, PartialEq, Eq, Structural)]
pub struct SearchParams {
    pub num_simulations: usize,
    pub action_space: usize,
    pub support_size: usize,
    pub discount: Single,
    pub max_num_considered_actions: usize,
    pub c_visit: Single,
    pub c_scale: Single,
    pub two_player: bool,
}

/// The outcome of a search of one position.
#[derive(Debug)]
pub struct SearchResult {
    pub best_action: usize,
    /// The mixed value at the root, as the side to move sees it.
    pub value: Single,
    /// The improved policy.
    pub policy: Vec<Single>,
}

/// The factor that turns a child's value to the parent's side: minus one where the
/// players alternate, and one otherwise.
pub fn value_sign(two_player: bool) -> (sign: Single)
    ensures
        sign == (if two_player {
            Single::one_spec().neg_spec()
        } else {
            Single::one_spec()
        }),
{
    if two_player {
        Single::one().negated()
    } else {
        Single::one()
    }
}

/// What the search of one position by halving is to do.
pub open spec fn lone_job(
    params: SearchParams,
    num_simulations: usize,
    legal: Seq<bool>,
    value: Single,
    priors: Seq<Single>,
    logits: Seq<Single>,
) -> Job {
    Job {
        algorithm: SearchAlgorithm::Gumbel,
        max_considered: params.max_num_considered_actions,
        action_space: params.action_space,
        num_simulations,
        root_visits: 0,
        masks: Some(seq![legal]),
        roots: PredictionsView {
            rewards: seq![Single::zero_spec()],
            values: seq![value],
            priors: seq![priors],
            logits: seq![logits],
        },
    }
}

/// Whether a result is that of a search of one position: the forced action, or what the
/// finished tree and the model's improved policy say.
pub open spec fn lone_result<M: SearchModel>(job: Job, model: M, r: SearchResult) -> bool {
    match job.forced(0) {
        Some(a) => {
            &&& r.best_action == a
            &&& r.value == job.roots.values[0]
            &&& r.policy@ == one_hot_spec(a as int, job.action_space as nat)
        },
        None => {
            let tree = final_trees(job, model)[0];
            let p = final_model(job, model).policy_spec(0, tree).0;
            &&& r.best_action < job.action_space
            &&& gumbel_best(
                tree.nodes,
                job.action_space as int,
                p.scores,
                r.best_action as int,
            )
            &&& r.value == p.mixed_value
            &&& r.policy@ == legal_only(tree.nodes, p.policy)
        },
    }
}

/// The search of one position agrees with a batch search of that position alone, at any
/// temperature.
pub proof fn lone_search_agrees_with_batch<M: SearchModel>(
    job: Job,
    model: M,
    tau: Single,
    batch: Seq<SearchReturn>,
    r: SearchResult,
)
    requires
        job.algorithm is Gumbel,
        job.count() == 1,
        results_of(job, model, tau, batch),
        lone_result(job, model, r),
    ensures
        batch[0].best_action == r.best_action,
        batch[0].value == r.value,
        batch[0].policy_target@ == r.policy@,
{
    if job.forced(0) is None {
        crate::course::lemma_first_row(job, model, tau, batch);
        let tree = final_trees(job, model)[0];
        let p = final_model(job, model).policy_spec(0, tree).0;
        crate::course::lemma_one_best(
            tree.nodes,
            job.action_space as int,
            p.scores,
            r.best_action as int,
            batch[0].best_action as int,
        );
    }
}

/// Searches one position by sequential halving, with the network's predictions for it.
///
/// None comes back where no action is legal, and where an answer of the model did not have
/// the right length. The only legal action is played without a search. Where the model gives
/// legal actions scores above negative infinity, and there is a simulation, the best action is
/// legal, and the policy has nothing on others.
pub fn gumbel_search<M: SearchModel>(
    params: &SearchParams,
    num_simulations: usize,
    legal: Vec<bool>,
    value: Single,
    priors: Vec<Single>,
    logits: Vec<Single>,
    model: &mut M,
) -> (found: Option<SearchResult>)
    requires
        params.action_space >= 1,
        params.max_num_considered_actions < usize::MAX,
        sizes_fit(num_simulations as int, params.action_space as int, 1),
        legal@.len() == params.action_space,
        priors@.len() == params.action_space,
        logits@.len() == params.action_space,
    ensures
        ({
            let job = lone_job(*params, num_simulations, legal@, value, priors@, logits@);
            let open = exists|a: int| 0 <= a < legal@.len() && #[trigger] legal@[a];
            &&& found is Some <==> open && comes_to_results(job, *old(model))
            &&& found matches Some(r) ==> lone_result(job, *old(model), r)
            &&& open && old(model).answers_in_full(params.action_space) ==> found is Some
            &&& leaves_one(legal@) ==> found is Some
            &&& found matches Some(r) ==> (num_simulations >= 1 && scores_legal_actions::<M>()
                ==> legal@[r.best_action as int] && forall|a: int|
                0 <= a < legal@.len() && !#[trigger] legal@[a] ==> r.policy@[a]
                    == Single::zero_spec())
        }),
        forall|a: int| #[trigger]
            only_legal(legal@, a) ==> {
                &&& found is Some
                &&& found->0.best_action == a
                &&& found->0.value == value
                &&& found->0.policy@ == one_hot_spec(a, params.action_space as nat)
            },
{
    let mut any: bool = false;
    let mut a: usize = 0;
    while a < legal.len()
        invariant
            a <= legal@.len(),
            any ==> exists|b: int| 0 <= b < legal@.len() && #[trigger] legal@[b],
            !any ==> forall|b: int| 0 <= b < a ==> !#[trigger] legal@[b],
        decreases legal@.len() - a,
    {
        if legal[a] {
            any = true;
        }
        a = a + 1;
    }
    if !any {
        return None;
    }
    let ghost mask = legal@;
    let ghost job = lone_job(*params, num_simulations, legal@, value, priors@, logits@);
    let mut masks: Vec<Vec<bool>> = Vec::new();
    let mut roots: Predictions = Predictions {
        rewards: Vec::new(),
        values: Vec::new(),
        priors: Vec::new(),
        logits: Vec::new(),
    };
    masks.push(legal);
    roots.rewards.push(Single::zero());
    roots.values.push(value);
    roots.priors.push(priors);
    roots.logits.push(logits);
    proof {
        assert(roots@.rewards =~= job.roots.rewards);
        assert(roots@.values =~= job.roots.values);
        assert(roots@.priors =~= job.roots.priors);
        assert(roots@.logits =~= job.roots.logits);
        assert(crate::batch::mask_views(Some(&masks))->0 =~= job.masks->0);
        let b = choose|b: int| 0 <= b < mask.len() && #[trigger] mask[b];
        assert(job.legal(0, b));
        assert(has_an_action(job, 0));
        assert(playable(job));
        if leaves_one(mask) {
            assert(leaves_one(masks@[0]@));
        }
    }
    let found: Option<Vec<SearchReturn>> = batched_search(
        SearchAlgorithm::Gumbel,
        params.max_num_considered_actions,
        params.action_space,
        num_simulations,
        0,
        Some(&masks),
        &roots,
        Single::zero(),
        model,
    );
    match found {
        None => None,
        Some(mut results) => {
            let ghost all = results@;
            match results.pop() {
                None => None,
                Some(r) => {
                    let result = SearchResult {
                        best_action: r.best_action,
                        value: r.value,
                        policy: r.policy_target,
                    };
                    proof {
                        assert(all[0] == r);
                        if job.forced(0) is None {
                            crate::course::lemma_first_row(
                                job,
                                *old(model),
                                Single::zero_spec(),
                                all,
                            );
                        }
                        assert forall|a: int| #[trigger] only_legal(mask, a) implies {
                            &&& result.best_action == a
                            &&& result.value == value
                            &&& result.policy@ == one_hot_spec(a, params.action_space as nat)
                        } by {
                            assert(leaves_one(mask));
                            assert(forced_by(mask, Some(a as usize)));
                            let b = choose|b: int| #[trigger] only_legal(job.masks->0[0], b);
                            assert(mask[a] && mask[b]);
                        }
                        if num_simulations >= 1 && scores_legal_actions::<M>() {
                            assert(crate::search::keeps_to_legal(job, 0, all[0]));
                            assert(job.legal(0, result.best_action as int));
                            assert forall|a: int| 0 <= a < mask.len() && !#[trigger] mask[a]
                                implies result.policy@[a] == Single::zero_spec() by {
                                assert(!job.legal(0, a));
                            }
                        }
                    }
                    Some(result)
                },
            }
        },
    }
}

/// The search of one position is that of the position that it was given: one tree, whose root
/// has the legal actions, the value, the priors and the logits that came with it, no reward and
/// no visit of its own, and which is searched by halving as often as asked for.
pub proof fn lone_jobs_are_of_their_position(
    params: SearchParams,
    num_simulations: usize,
    legal: Seq<bool>,
    value: Single,
    priors: Seq<Single>,
    logits: Seq<Single>,
)
    ensures
        ({
            let job = lone_job(params, num_simulations, legal, value, priors, logits);
            &&& job.algorithm is Gumbel
            &&& job.count() == 1
            &&& job.num_simulations == num_simulations
            &&& job.max_considered == params.max_num_considered_actions
            &&& job.action_space == params.action_space
            &&& job.root_visits == 0
            &&& job.masks == Some(seq![legal])
            &&& job.roots.values[0] == value
            &&& job.roots.rewards[0] == Single::zero_spec()
            &&& job.roots.priors[0] == priors
            &&& job.roots.logits[0] == logits
        }),
{
}

/// Where there is something to decide, the outcome of the search of one position says what the
/// model makes of the finished tree: its mixed value, and its policy on the actions of the root.
pub proof fn lone_searches_say_what_the_tree_says<M: SearchModel>(job: Job, model: M, r: SearchResult)
    requires
        lone_result(job, model, r),
        job.count() == 1,
    ensures
        job.forced(0) is None ==> {
            let tree = final_trees(job, model)[0];
            let p = final_model(job, model).policy_spec(0, tree).0;
            &&& r.value == p.mixed_value
            &&& gumbel_best(tree.nodes, job.action_space as int, p.scores, r.best_action as int)
            &&& r.policy@ == legal_only(tree.nodes, p.policy)
        },
        job.forced(0) matches Some(a) ==> {
            &&& r.best_action == a
            &&& r.value == job.roots.values[0]
            &&& r.policy@.len() == job.action_space
            &&& forall|b: int|
                0 <= b < job.action_space ==> #[trigger] r.policy@[b] == if b == a {
                    Single::one_spec()
                } else {
                    Single::zero_spec()
                }
        },
{
}

} // verus!
