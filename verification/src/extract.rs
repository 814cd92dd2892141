//! What a finished search tree says: the move to play, the distribution to draw
//! moves from, and the policy to train on.
use vstd::prelude::*;
use crate::single::Single;
use crate::tree::{
    BatchNode, SearchTree, child_of, choosable, expanded, first_best, legal_visits_in, none_best,
    visits_in,
};

verus! {

/// The outcome of one search.
#[derive(Debug)]
pub struct SearchReturn {
    pub distribution: Vec<Single>,
    pub policy_target: Vec<Single>,
    pub value: Single,
    pub best_action: usize,
}

/// All zeros but for a one at `action`.
pub open spec fn one_hot_spec(action: int, action_space: nat) -> Seq<Single> {
    Seq::new(
        action_space,
        |a: int|
            if a == action {
                Single::one_spec()
            } else {
                Single::zero_spec()
            },
    )
}

/// The root's child for action `a`.
pub open spec fn root_child(nodes: Seq<BatchNode>, a: int) -> BatchNode {
    nodes[child_of(nodes, 0, a)]
}

/// The earliest legal action with the most visits; 0 where no legal action has any.
pub open spec fn most_visited(nodes: Seq<BatchNode>, action_space: int, best: int) -> bool {
    if forall|a: int|
        0 <= a < action_space && (#[trigger] root_child(nodes, a)).legal ==> root_child(
            nodes,
            a,
        ).visits == 0 {
        best == 0
    } else {
        &&& 0 <= best < action_space
        &&& root_child(nodes, best).legal
        &&& forall|a: int|
            0 <= a < action_space && (#[trigger] root_child(nodes, a)).legal ==> root_child(
                nodes,
                a,
            ).visits <= root_child(nodes, best).visits
        &&& forall|a: int|
            0 <= a < best && (#[trigger] root_child(nodes, a)).legal ==> root_child(nodes, a).visits
                < root_child(nodes, best).visits
    }
}

/// The latest action with the most visits.
pub open spec fn latest_most_visited(nodes: Seq<BatchNode>, action_space: int, best: int) -> bool {
    &&& 0 <= best < action_space
    &&& forall|a: int|
        0 <= a < action_space ==> (#[trigger] root_child(nodes, a)).visits <= root_child(
            nodes,
            best,
        ).visits
    &&& forall|a: int|
        best < a < action_space ==> (#[trigger] root_child(nodes, a)).visits < root_child(
            nodes,
            best,
        ).visits
}

/// The most visits that a legal child of the root has; 0 where none is legal.
pub open spec fn most_legal_visits(nodes: Seq<BatchNode>, action_space: int, most: int) -> bool {
    &&& forall|a: int|
        0 <= a < action_space && (#[trigger] root_child(nodes, a)).legal ==> root_child(
            nodes,
            a,
        ).visits <= most
    &&& most == 0 || exists|a: int|
        0 <= a < action_space && (#[trigger] root_child(nodes, a)).legal && root_child(
            nodes,
            a,
        ).visits == most
    &&& most >= 0
}

/// The weights of the legal actions, and zero for the others.
pub open spec fn legal_only(nodes: Seq<BatchNode>, weights: Seq<Single>) -> Seq<Single> {
    Seq::new(
        weights.len(),
        |a: int|
            if root_child(nodes, a).legal {
                weights[a]
            } else {
                Single::zero_spec()
            },
    )
}

/// A vector of zeros with a one at `action`.
pub fn one_hot(action: usize, action_space: usize) -> (v: Vec<Single>)
    requires
        action < action_space,
    ensures
        v@ == one_hot_spec(action as int, action_space as nat),
{
    let mut v: Vec<Single> = Vec::new();
    let mut a: usize = 0;
    while a < action_space
        invariant
            a <= action_space,
            v@ == one_hot_spec(action as int, action_space as nat).take(a as int),
        decreases action_space - a,
    {
        v.push(
            if a == action {
                Single::one()
            } else {
                Single::zero()
            },
        );
        a = a + 1;
        assert(v@ =~= one_hot_spec(action as int, action_space as nat).take(a as int));
    }
    assert(v@ =~= one_hot_spec(action as int, action_space as nat));
    v
}

/// The outcome where only one action is legal: that action, and the network's value.
pub fn forced_result(action: usize, action_space: usize, value: Single) -> (r: SearchReturn)
    requires
        action < action_space,
    ensures
        r.best_action == action,
        r.value == value,
        r.distribution@ == one_hot_spec(action as int, action_space as nat),
        r.policy_target@ == one_hot_spec(action as int, action_space as nat),
{
    SearchReturn {
        policy_target: one_hot(action, action_space),
        distribution: one_hot(action, action_space),
        value,
        best_action: action,
    }
}

impl SearchTree {
    pub(crate) proof fn lemma_root_block(&self)
        requires
            self.wf(),
        ensures
            self.nodes@[0].first_child == 1,
            1 + self.action_space <= self.nodes@.len() <= usize::MAX,
            expanded(self.nodes@, 0),
    {
        assert(expanded(self.nodes@, 0));
        assert(self.nodes@.len() == self.nodes.len());
    }

    /// The earliest legal action with the most visits, and 0 before any visit.
    pub fn most_visited_action(&self) -> (best: usize)
        requires
            self.wf(),
        ensures
            most_visited(self.nodes@, self.action_space as int, best as int),
            best < self.action_space,
    {
        proof {
            self.lemma_root_block();
        }
        let mut best: usize = 0;
        let mut highest: usize = 0;
        let mut a: usize = 0;
        let ghost nodes = self.nodes@;
        while a < self.action_space
            invariant
                nodes == self.nodes@,
                nodes[0].first_child == 1,
                1 + self.action_space <= nodes.len() <= usize::MAX,
                a <= self.action_space,
                best == 0 || best < a,
                highest == 0 ==> best == 0 && forall|b: int|
                    0 <= b < a && (#[trigger] root_child(nodes, b)).legal ==> root_child(
                        nodes,
                        b,
                    ).visits == 0,
                highest > 0 ==> {
                    &&& best < a
                    &&& root_child(nodes, best as int).legal
                    &&& root_child(nodes, best as int).visits == highest
                    &&& forall|b: int|
                        0 <= b < a && (#[trigger] root_child(nodes, b)).legal ==> root_child(
                            nodes,
                            b,
                        ).visits <= highest
                    &&& forall|b: int|
                        0 <= b < best && (#[trigger] root_child(nodes, b)).legal ==> root_child(
                            nodes,
                            b,
                        ).visits < highest
                },
            decreases self.action_space - a,
        {
            let child: BatchNode = self.nodes[1 + a];
            assert(child == root_child(nodes, a as int));
            if child.legal && child.visits > highest {
                highest = child.visits;
                best = a;
            }
            a = a + 1;
        }
        best
    }

    /// The latest action with the most visits.
    pub fn latest_most_visited_action(&self) -> (best: usize)
        requires
            self.wf(),
        ensures
            latest_most_visited(self.nodes@, self.action_space as int, best as int),
    {
        proof {
            self.lemma_root_block();
        }
        let mut best: usize = 0;
        let mut highest: usize = self.nodes[1].visits;
        let mut a: usize = 1;
        let ghost nodes = self.nodes@;
        assert(root_child(nodes, 0).visits == highest);
        while a < self.action_space
            invariant
                nodes == self.nodes@,
                nodes[0].first_child == 1,
                1 + self.action_space <= nodes.len() <= usize::MAX,
                1 <= a <= self.action_space,
                best < a,
                root_child(nodes, best as int).visits == highest,
                forall|b: int|
                    0 <= b < a ==> (#[trigger] root_child(nodes, b)).visits <= highest,
                forall|b: int|
                    best < b < a ==> (#[trigger] root_child(nodes, b)).visits < highest,
            decreases self.action_space - a,
        {
            let child: BatchNode = self.nodes[1 + a];
            assert(child == root_child(nodes, a as int));
            if child.visits >= highest {
                highest = child.visits;
                best = a;
            }
            a = a + 1;
        }
        best
    }

    /// The most visits of a legal action, and the visits of all legal actions added up.
    pub fn legal_visits(&self) -> (visits: (usize, usize))
        requires
            self.wf(),
        ensures
            most_legal_visits(self.nodes@, self.action_space as int, visits.0 as int),
            visits.1 == legal_visits_in(self.nodes@, 1, self.action_space as int),
    {
        proof {
            self.lemma_root_block();
            lemma_legal_visits_bounded(
                self.nodes@,
                1,
                self.action_space as int,
                self.action_space as int,
            );
        }
        let mut most: usize = 0;
        let mut sum: usize = 0;
        let mut a: usize = 0;
        let ghost nodes = self.nodes@;
        while a < self.action_space
            invariant
                nodes == self.nodes@,
                nodes[0].first_child == 1,
                1 + self.action_space <= nodes.len() <= usize::MAX,
                a <= self.action_space,
                visits_in(nodes, 1, self.action_space as int) <= usize::MAX,
                sum == legal_visits_in(nodes, 1, a as int),
                most_legal_visits(nodes, a as int, most as int),
            decreases self.action_space - a,
        {
            let child: BatchNode = self.nodes[1 + a];
            assert(child == root_child(nodes, a as int));
            proof {
                lemma_legal_visits_bounded(nodes, 1, a as int + 1, self.action_space as int);
            }
            if child.legal {
                sum = sum + child.visits;
                if child.visits > most {
                    most = child.visits;
                }
            }
            proof {
                assert(most == 0 || exists|b: int|
                    0 <= b < a + 1 && (#[trigger] root_child(nodes, b)).legal && root_child(
                        nodes,
                        b,
                    ).visits == most);
            }
            a = a + 1;
        }
        (most, sum)
    }

    /// The weights of the legal actions, with zero at the illegal ones.
    fn masked(&self, weights: &Vec<Single>) -> (v: Vec<Single>)
        requires
            self.wf(),
            weights@.len() == self.action_space,
        ensures
            v@ == legal_only(self.nodes@, weights@),
    {
        proof {
            self.lemma_root_block();
        }
        let mut v: Vec<Single> = Vec::new();
        let mut a: usize = 0;
        let ghost nodes = self.nodes@;
        while a < self.action_space
            invariant
                nodes == self.nodes@,
                nodes[0].first_child == 1,
                1 + self.action_space <= nodes.len() <= usize::MAX,
                a <= self.action_space,
                weights@.len() == self.action_space,
                v@ == legal_only(nodes, weights@).take(a as int),
            decreases self.action_space - a,
        {
            let legal: bool = self.nodes[1 + a].legal;
            assert(legal == root_child(nodes, a as int).legal);
            v.push(
                if legal {
                    weights[a]
                } else {
                    Single::zero()
                },
            );
            a = a + 1;
            assert(v@ =~= legal_only(nodes, weights@).take(a as int));
        }
        assert(v@ =~= legal_only(nodes, weights@));
        v
    }

    /// What the visits of a finished search say.
    ///
    /// `mean` is the root's mean value, `shares` each action's share of the legal visits,
    /// `powers` each action's share of the visits after sharpening by the temperature
    /// `tau`, and `power_sum` what the sharpened visits of the legal actions add up to.
    /// The distribution is on the best action alone at temperature zero, and where the
    /// sharpened visits add up to nothing.
    pub fn extract_result(
        &self,
        mean: Single,
        shares: &Vec<Single>,
        tau: Single,
        powers: &Vec<Single>,
        power_sum: Single,
    ) -> (r: SearchReturn)
        requires
            self.wf(),
            shares@.len() == self.action_space,
            powers@.len() == self.action_space,
        ensures
            most_visited(self.nodes@, self.action_space as int, r.best_action as int),
            r.value == (if self.nodes@[0].visits == 0 {
                Single::zero_spec()
            } else {
                mean
            }),
            r.policy_target@ == (if legal_visits_in(self.nodes@, 1, self.action_space as int) > 0 {
                legal_only(self.nodes@, shares@)
            } else {
                Seq::new(self.action_space as nat, |a: int| Single::zero_spec())
            }),
            r.distribution@ == (if !tau.eq_value_spec(Single::zero_spec())
                && Single::zero_spec().lt_spec(power_sum) {
                legal_only(self.nodes@, powers@)
            } else {
                one_hot_spec(r.best_action as int, self.action_space as nat)
            }),
    {
        let best_action: usize = self.most_visited_action();
        let (_, total): (usize, usize) = self.legal_visits();
        let policy_target: Vec<Single> = if total > 0 {
            self.masked(shares)
        } else {
            let mut zeros: Vec<Single> = Vec::new();
            let mut a: usize = 0;
            while a < self.action_space
                invariant
                    a <= self.action_space,
                    zeros@ == Seq::new(a as nat, |b: int| Single::zero_spec()),
                decreases self.action_space - a,
            {
                zeros.push(Single::zero());
                a = a + 1;
                assert(zeros@ =~= Seq::new(a as nat, |b: int| Single::zero_spec()));
            }
            zeros
        };
        let distribution: Vec<Single> = if !tau.same_value(Single::zero()) && Single::zero().less(
            power_sum,
        ) {
            self.masked(powers)
        } else {
            one_hot(best_action, self.action_space)
        };
        let value: Single = if self.nodes[0].visits == 0 {
            Single::zero()
        } else {
            mean
        };
        SearchReturn { distribution, policy_target, value, best_action }
    }

    /// What a search with sequential halving says: the best scored of the legal actions
    /// with the most visits, the improved policy of the legal actions, and the mixed value.
    pub fn extract_gumbel_result(
        &self,
        mixed_value: Single,
        improved_policy: &Vec<Single>,
        scores: &Vec<Single>,
    ) -> (r: SearchReturn)
        requires
            self.wf(),
            improved_policy@.len() == self.action_space,
            scores@.len() == self.action_space,
        ensures
            r.value == mixed_value,
            r.policy_target@ == legal_only(self.nodes@, improved_policy@),
            r.best_action < self.action_space,
            r.distribution@ == one_hot_spec(r.best_action as int, self.action_space as nat),
            exists|most: usize|
                {
                    &&& #[trigger] most_legal_visits(
                        self.nodes@,
                        self.action_space as int,
                        most as int,
                    )
                    &&& ({
                        let allowed = choosable(
                            self.nodes@,
                            0,
                            self.action_space as int,
                            Some(most),
                        );
                        if none_best(scores@, allowed) {
                            r.best_action == 0
                        } else {
                            first_best(scores@, allowed, r.best_action as int)
                        }
                    })
                },
    {
        proof {
            self.lemma_root_block();
        }
        let (most, _): (usize, usize) = self.legal_visits();
        let best_action: usize = match self.best_child(0, scores, Some(most)) {
            Some(a) => a,
            None => 0,
        };
        let distribution: Vec<Single> = one_hot(best_action, self.action_space);
        assert(most_legal_visits(self.nodes@, self.action_space as int, most as int));
        let policy_target: Vec<Single> = self.masked(improved_policy);
        SearchReturn { distribution, policy_target, value: mixed_value, best_action }
    }

    /// What the visits of a finished search without illegal actions say.
    ///
    /// `powers` holds each action's share of the visits after sharpening by the
    /// temperature. At temperature zero the distribution is on the latest of the most
    /// visited actions, at any other the best action is the earliest of them.
    pub fn extract_visit_result(&self, mean: Single, tau: Single, powers: Vec<Single>) -> (r: (
        Vec<Single>,
        Single,
        usize,
    ))
        requires
            self.wf(),
            powers@.len() == self.action_space,
            forall|a: int|
                0 <= a < self.action_space ==> (#[trigger] root_child(self.nodes@, a)).legal,
        ensures
            r.1 == mean,
            if tau.eq_value_spec(Single::zero_spec()) {
                &&& latest_most_visited(self.nodes@, self.action_space as int, r.2 as int)
                &&& r.0@ == one_hot_spec(r.2 as int, self.action_space as nat)
            } else {
                &&& most_visited(self.nodes@, self.action_space as int, r.2 as int)
                &&& r.0@ == powers@
            },
    {
        if tau.same_value(Single::zero()) {
            let best: usize = self.latest_most_visited_action();
            (one_hot(best, self.action_space), mean, best)
        } else {
            let best: usize = self.most_visited_action();
            (powers, mean, best)
        }
    }
}

/// The legal visits are part of all visits.
proof fn lemma_legal_visits_bounded(nodes: Seq<BatchNode>, from: int, fewer: int, more: int)
    requires
        0 <= fewer <= more,
    ensures
        0 <= legal_visits_in(nodes, from, fewer) <= visits_in(nodes, from, more),
    decreases more,
{
    if more > 0 {
        if fewer < more {
            lemma_legal_visits_bounded(nodes, from, fewer, more - 1);
        } else {
            lemma_legal_visits_bounded(nodes, from, fewer - 1, more - 1);
        }
    }
}

/// Whether no simulation went into an illegal child of the root.
pub open spec fn illegal_unvisited(nodes: Seq<BatchNode>, action_space: int) -> bool {
    forall|a: int|
        0 <= a < action_space && !(#[trigger] root_child(nodes, a)).legal ==> root_child(
            nodes,
            a,
        ).visits == 0
}

/// The visits of the root's children add up to the number of simulations.
pub proof fn root_visits_match_simulations(tree: SearchTree)
    requires
        tree.wf(),
    ensures
        visits_in(tree.nodes@, 1, tree.action_space as int) == tree.simulations(),
{
}

/// As long as no simulation goes into an illegal child of the root, the visits of the
/// legal children alone add up to the number of simulations: none is lost.
pub proof fn legal_visits_match_simulations(tree: SearchTree)
    requires
        tree.wf(),
        illegal_unvisited(tree.nodes@, tree.action_space as int),
    ensures
        legal_visits_in(tree.nodes@, 1, tree.action_space as int) == tree.simulations(),
{
    lemma_legal_are_all(tree.nodes@, tree.action_space as int, tree.action_space as int);
}

proof fn lemma_legal_are_all(nodes: Seq<BatchNode>, count: int, action_space: int)
    requires
        nodes[0].first_child == 1,
        0 <= count <= action_space,
        illegal_unvisited(nodes, action_space),
    ensures
        legal_visits_in(nodes, 1, count) == visits_in(nodes, 1, count),
    decreases count,
{
    if count > 0 {
        lemma_legal_are_all(nodes, count - 1, action_space);
        assert(root_child(nodes, count - 1) == nodes[1 + count - 1]);
    }
}

} // verus!
