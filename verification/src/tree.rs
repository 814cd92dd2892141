//! The search tree: an arena of nodes whose children stand in blocks.
//!
//! Node 0 is the root. Each expanded node owns a block of consecutive nodes, one
//! for each action, in the order of the actions. A simulation walks from the root to
//! an unexpanded node, expands it, and adds one visit to every node of the walk.
//! What a child is worth is computed by the callers; the tree takes such scores as
//! arguments and decides by them.
use vstd::prelude::*;
use crate::single::Single;

verus! {

/// One node of a search tree.
#[derive(Clone, Copy, Debug, PartialEq, Eq, Structural)]
pub struct BatchNode {
    /// How often a simulation passed through the node.
    pub visits: usize,
    /// The action that leads here from the parent.
    pub action: usize,
    /// The row of the arena of hidden states, once the node is expanded.
    pub hidden_row: usize,
    /// Where the block of children starts; 0 while the node is not expanded.
    pub first_child: usize,
    /// The sum of the values that were backed up through the node.
    pub cumulative_value: Single,
    /// The reward predicted on the way into the node.
    pub reward: Single,
    /// The policy's probability of the action.
    pub prior: Single,
    /// The policy's logit of the action.
    pub logit: Single,
    /// The value that the network predicted for the node.
    pub value: Single,
    /// Whether the action may be played.
    pub legal: bool,
}

/// A search tree and the walk of the simulation in progress.
#[derive(Debug)]
pub struct SearchTree {
    pub nodes: Vec<BatchNode>,
    pub action_space: usize,
    pub path: Vec<usize>,
    /// The visits that the root held before the first simulation.
    pub root_visits: usize,
}

/// What a tree holds.
pub struct TreeView {
    pub nodes: Seq<BatchNode>,
    pub action_space: usize,
    pub root_visits: usize,
    pub path: Seq<usize>,
}

impl View for SearchTree {
    type V = TreeView;

    open spec fn view(&self) -> TreeView {
        TreeView {
            nodes: self.nodes@,
            action_space: self.action_space,
            root_visits: self.root_visits,
            path: self.path@,
        }
    }
}

/// The visits of `count` nodes from `from` on, added up.
pub open spec fn visits_in(nodes: Seq<BatchNode>, from: int, count: int) -> int
    decreases count,
{
    if count <= 0 {
        0
    } else {
        visits_in(nodes, from, count - 1) + nodes[from + count - 1].visits
    }
}

/// The visits of the legal ones among `count` nodes from `from` on, added up.
pub open spec fn legal_visits_in(nodes: Seq<BatchNode>, from: int, count: int) -> int
    decreases count,
{
    if count <= 0 {
        0
    } else {
        legal_visits_in(nodes, from, count - 1) + if nodes[from + count - 1].legal {
            nodes[from + count - 1].visits as int
        } else {
            0
        }
    }
}

/// Whether node `i` has its children.
pub open spec fn expanded(nodes: Seq<BatchNode>, i: int) -> bool {
    nodes[i].first_child != 0
}

/// The child of node `i` for action `a`.
pub open spec fn child_of(nodes: Seq<BatchNode>, i: int, a: int) -> int {
    nodes[i].first_child + a
}

/// Whether `c` stands in the block of children of node `i`.
pub open spec fn is_child(nodes: Seq<BatchNode>, i: int, c: int, action_space: int) -> bool {
    nodes[i].first_child <= c < nodes[i].first_child + action_space
}

/// The blocks of children lie behind their parents, hold the actions in order, and
/// share no node.
pub open spec fn blocks_wf(nodes: Seq<BatchNode>, action_space: int) -> bool {
    &&& action_space >= 1
    &&& nodes.len() >= 1
    &&& nodes[0].first_child == 1
    &&& forall|i: int|
        0 <= i < nodes.len() && #[trigger] expanded(nodes, i) ==> i < nodes[i].first_child
            && nodes[i].first_child + action_space <= nodes.len()
    &&& forall|i: int, a: int|
        0 <= i < nodes.len() && expanded(nodes, i) && 0 <= a < action_space
            ==> nodes[#[trigger] child_of(nodes, i, a)].action == a
    &&& forall|i: int, j: int|
        0 <= i < nodes.len() && 0 <= j < nodes.len() && i != j && #[trigger] expanded(nodes, i)
            && #[trigger] expanded(nodes, j) ==> nodes[i].first_child + action_space
            <= nodes[j].first_child || nodes[j].first_child + action_space <= nodes[i].first_child
}

/// Every visit below a node went through it: an expanded node has one visit of its
/// own and those of its children, an unexpanded one has none, and the root has what
/// it started with and those of its children.
pub open spec fn visits_wf(nodes: Seq<BatchNode>, action_space: int, root_visits: int) -> bool {
    &&& nodes[0].visits == root_visits + visits_in(
        nodes,
        nodes[0].first_child as int,
        action_space,
    )
    &&& forall|i: int|
        0 < i < nodes.len() && #[trigger] expanded(nodes, i) ==> nodes[i].visits == 1 + visits_in(
            nodes,
            nodes[i].first_child as int,
            action_space,
        )
    &&& forall|i: int|
        0 <= i < nodes.len() && !#[trigger] expanded(nodes, i) ==> nodes[i].visits == 0
}

/// Whether `path` starts at the root and goes from parent to child.
pub open spec fn path_wf(nodes: Seq<BatchNode>, action_space: int, path: Seq<usize>) -> bool {
    &&& path.len() >= 1
    &&& path[0] == 0
    &&& forall|j: int| 0 <= j < path.len() ==> #[trigger] path[j] < nodes.len()
    &&& forall|j: int| 0 <= j < path.len() - 1 ==> #[trigger] path_step(nodes, action_space, path, j)
}

/// Whether step `j` of the walk goes from an expanded node to one of its children.
pub open spec fn path_step(
    nodes: Seq<BatchNode>,
    action_space: int,
    path: Seq<usize>,
    j: int,
) -> bool {
    &&& expanded(nodes, path[j] as int)
    &&& is_child(nodes, path[j] as int, path[j + 1] as int, action_space)
}

/// A child that no simulation has reached yet.
pub open spec fn fresh_child(action: int, prior: Single, logit: Single, legal: bool) -> BatchNode {
    BatchNode {
        visits: 0,
        action: action as usize,
        hidden_row: 0,
        first_child: 0,
        cumulative_value: Single::zero_spec(),
        reward: Single::zero_spec(),
        prior,
        logit,
        value: Single::zero_spec(),
        legal,
    }
}

/// The nodes once `leaf` has its children and what the network said of it.
pub open spec fn after_expansion(
    nodes: Seq<BatchNode>,
    leaf: int,
    hidden_row: usize,
    reward: Single,
    value: Single,
    priors: Seq<Single>,
    logits: Seq<Single>,
) -> Seq<BatchNode> {
    (nodes + Seq::new(priors.len(), |a: int| fresh_child(a, priors[a], logits[a], true))).update(
        leaf,
        BatchNode {
            hidden_row,
            reward,
            value,
            first_child: nodes.len() as usize,
            ..nodes[leaf]
        },
    )
}

/// Whether `after` is `before` with one more visit, and the new sum of values, at
/// each node of the walk.
pub open spec fn backed_up(
    before: Seq<BatchNode>,
    after: Seq<BatchNode>,
    path: Seq<usize>,
    cumulative: Seq<Single>,
) -> bool {
    &&& after.len() == before.len()
    &&& forall|i: int|
        0 <= i < before.len() && !on_path(path, i) ==> #[trigger] after[i] == before[i]
    &&& forall|j: int|
        0 <= j < path.len() ==> after[#[trigger] path[j] as int] == (BatchNode {
            visits: (before[path[j] as int].visits + 1) as usize,
            cumulative_value: cumulative[j],
            ..before[path[j] as int]
        })
}

/// Whether the walk passes node `i`.
pub open spec fn on_path(path: Seq<usize>, i: int) -> bool {
    exists|j: int| 0 <= j < path.len() && #[trigger] path[j] == i
}

/// Whether `k` is the earliest of the allowed entries with the greatest score, and
/// that score is above negative infinity. What is no number is passed over.
pub open spec fn first_best(scores: Seq<Single>, allowed: Seq<bool>, k: int) -> bool {
    &&& 0 <= k < scores.len()
    &&& allowed[k]
    &&& Single::neg_infinity_spec().lt_spec(scores[k])
    &&& forall|j: int|
        0 <= j < scores.len() && #[trigger] allowed[j] ==> !scores[k].lt_spec(scores[j])
    &&& forall|j: int|
        0 <= j < k && #[trigger] allowed[j] ==> scores[j].lt_spec(scores[k]) || scores[j].nan()
}

/// Whether no allowed entry has a score above negative infinity.
pub open spec fn none_best(scores: Seq<Single>, allowed: Seq<bool>) -> bool {
    forall|j: int|
        0 <= j < scores.len() && #[trigger] allowed[j] ==> !Single::neg_infinity_spec().lt_spec(
            scores[j],
        )
}

/// The children of node `i` that may be chosen: the legal ones, and of those, where
/// a number of visits is given, the ones with just that number.
pub open spec fn choosable(
    nodes: Seq<BatchNode>,
    i: int,
    action_space: int,
    visits: Option<usize>,
) -> Seq<bool> {
    Seq::new(
        action_space as nat,
        |a: int|
            nodes[child_of(nodes, i, a)].legal && (visits is None || nodes[child_of(
                nodes,
                i,
                a,
            )].visits == visits->0),
    )
}

/// The child that the best score points at; the first child where no score counts.
pub open spec fn best_scored(
    nodes: Seq<BatchNode>,
    i: int,
    scores: Seq<Single>,
    chosen: int,
) -> bool {
    let allowed = choosable(nodes, i, scores.len() as int, None);
    if none_best(scores, allowed) {
        chosen == nodes[i].first_child
    } else {
        first_best(scores, allowed, chosen - nodes[i].first_child)
    }
}

/// The earliest of the legal children of node `i` with the fewest visits; action 0
/// where no child is legal.
pub open spec fn least_visited(
    nodes: Seq<BatchNode>,
    i: int,
    action_space: int,
    a: int,
) -> bool {
    let legal = |b: int| nodes[child_of(nodes, i, b)].legal;
    let visits = |b: int| nodes[child_of(nodes, i, b)].visits;
    if forall|b: int| 0 <= b < action_space ==> !#[trigger] legal(b) {
        a == 0
    } else {
        &&& 0 <= a < action_space
        &&& legal(a)
        &&& forall|b: int| 0 <= b < action_space && #[trigger] legal(b) ==> visits(a) <= visits(b)
        &&& forall|b: int| 0 <= b < a && #[trigger] legal(b) ==> visits(a) < visits(b)
    }
}

impl SearchTree {
    /// What holds of a tree between two simulations.
    pub open spec fn wf(&self) -> bool {
        &&& blocks_wf(self.nodes@, self.action_space as int)
        &&& visits_wf(self.nodes@, self.action_space as int, self.root_visits as int)
    }

    /// What holds of a tree while a simulation walks down.
    pub open spec fn walking(&self) -> bool {
        &&& self.wf()
        &&& path_wf(self.nodes@, self.action_space as int, self.path@)
    }

    /// Whether the walk has arrived at a node without children.
    pub open spec fn at_leaf(&self) -> bool {
        !expanded(self.nodes@, self.path@.last() as int)
    }

    /// How many simulations went through the root.
    pub open spec fn simulations(&self) -> int {
        self.nodes@[0].visits - self.root_visits
    }

    /// A tree of a root and its children, one for each of the priors.
    ///
    /// A mask says which actions are legal; without one all are. An illegal action has
    /// negative infinity for its logit.
    pub fn new(
        hidden_row: usize,
        root_visits: usize,
        root_cumulative: Single,
        reward: Single,
        value: Single,
        priors: &Vec<Single>,
        logits: &Vec<Single>,
        mask: Option<&Vec<bool>>,
    ) -> (tree: SearchTree)
        requires
            priors@.len() >= 1,
            priors@.len() < usize::MAX,
            logits@.len() == priors@.len(),
            mask matches Some(m) ==> m@.len() == priors@.len(),
        ensures
            tree.wf(),
            tree.action_space == priors@.len(),
            tree.root_visits == root_visits,
            tree.simulations() == 0,
            tree.nodes@.len() == 1 + priors@.len(),
            tree.nodes@[0] == (BatchNode {
                visits: root_visits,
                action: 0,
                hidden_row,
                first_child: 1,
                cumulative_value: root_cumulative,
                reward,
                prior: Single::zero_spec(),
                logit: Single::zero_spec(),
                value,
                legal: true,
            }),
            forall|i: int|
                1 <= i <= priors@.len() ==> #[trigger] tree.nodes@[i] == ({
                    let legal = mask is None || mask->0@[i - 1];
                    fresh_child(
                        i - 1,
                        priors@[i - 1],
                        if legal {
                            logits@[i - 1]
                        } else {
                            Single::neg_infinity_spec()
                        },
                        legal,
                    )
                }),
            tree.path@ == seq![0usize],
    {
        let mut nodes: Vec<BatchNode> = Vec::new();
        nodes.push(
            BatchNode {
                visits: root_visits,
                action: 0,
                hidden_row,
                first_child: 1,
                cumulative_value: root_cumulative,
                reward,
                prior: Single::zero(),
                logit: Single::zero(),
                value,
                legal: true,
            },
        );
        let ghost root = nodes@[0];
        let mut a: usize = 0;
        while a < priors.len()
            invariant
                a <= priors@.len(),
                logits@.len() == priors@.len(),
                mask matches Some(m) ==> m@.len() == priors@.len(),
                nodes@.len() == 1 + a,
                nodes@[0] == root,
                forall|i: int|
                    1 <= i <= a ==> #[trigger] nodes@[i] == ({
                        let legal = mask is None || mask->0@[i - 1];
                        fresh_child(
                            i - 1,
                            priors@[i - 1],
                            if legal {
                                logits@[i - 1]
                            } else {
                                Single::neg_infinity_spec()
                            },
                            legal,
                        )
                    }),
            decreases priors@.len() - a,
        {
            let legal: bool = match mask {
                Some(m) => m[a],
                None => true,
            };
            nodes.push(
                BatchNode {
                    visits: 0,
                    action: a,
                    hidden_row: 0,
                    first_child: 0,
                    cumulative_value: Single::zero(),
                    reward: Single::zero(),
                    prior: priors[a],
                    logit: if legal {
                        logits[a]
                    } else {
                        Single::neg_infinity()
                    },
                    value: Single::zero(),
                    legal,
                },
            );
            a = a + 1;
        }
        let mut path: Vec<usize> = Vec::new();
        path.push(0);
        proof {
            assert forall|i: int, b: int|
                0 <= i < nodes@.len() && expanded(nodes@, i) && 0 <= b < priors@.len() implies nodes@[
            #[trigger] child_of(nodes@, i, b)].action == b by {
                assert(i == 0);
                assert(nodes@[1 + b].action == b);
            }
            lemma_no_visits(nodes@, 1, priors@.len() as int);
        }
        SearchTree { nodes, action_space: priors.len(), path, root_visits }
    }

    /// Puts the walk back to the root.
    pub fn begin(&mut self)
        requires
            old(self).wf(),
        ensures
            final(self).walking(),
            final(self).path@ == seq![0usize],
            final(self).nodes@ == old(self).nodes@,
            final(self).action_space == old(self).action_space,
            final(self).root_visits == old(self).root_visits,
    {
        let mut path: Vec<usize> = Vec::new();
        path.push(0);
        self.path = path;
    }

    /// The node whose children are to be scored next, if the walk goes on.
    pub fn to_score(&self) -> (node: Option<usize>)
        requires
            self.walking(),
        ensures
            node is None <==> self.at_leaf(),
            node matches Some(i) ==> i == self.path@.last(),
    {
        let last: usize = self.path[self.path.len() - 1];
        if self.nodes[last].first_child == 0 {
            None
        } else {
            Some(last)
        }
    }

    /// Takes the walk one step down, to a child of the node that it stands at.
    pub fn descend(&mut self, child: usize)
        requires
            old(self).walking(),
            !old(self).at_leaf(),
            is_child(
                old(self).nodes@,
                old(self).path@.last() as int,
                child as int,
                old(self).action_space as int,
            ),
        ensures
            final(self).walking(),
            final(self).path@ == old(self).path@.push(child),
            final(self).nodes@ == old(self).nodes@,
            final(self).action_space == old(self).action_space,
            final(self).root_visits == old(self).root_visits,
    {
        let ghost before = self.path@;
        self.path.push(child);
        proof {
            assert forall|j: int| 0 <= j < self.path@.len() - 1 implies #[trigger] path_step(
                self.nodes@,
                self.action_space as int,
                self.path@,
                j,
            ) by {
                if j < before.len() - 1 {
                    assert(path_step(self.nodes@, self.action_space as int, before, j));
                }
            }
        }
    }

    /// The block of an expanded node lies within the arena.
    proof fn lemma_block_bounds(&self, node: int)
        requires
            self.wf(),
            0 <= node < self.nodes@.len(),
            expanded(self.nodes@, node),
        ensures
            node < self.nodes@[node].first_child,
            self.nodes@[node].first_child + self.action_space <= self.nodes@.len(),
            self.nodes@.len() <= usize::MAX,
    {
        assert(self.nodes@.len() == self.nodes.len());
    }

    /// The best of the choosable children of a node, by score.
    pub(crate) fn best_child(&self, node: usize, scores: &Vec<Single>, visits: Option<usize>) -> (best: Option<
        usize,
    >)
        requires
            self.wf(),
            node < self.nodes@.len(),
            expanded(self.nodes@, node as int),
            scores@.len() == self.action_space,
        ensures
            best is None <==> none_best(
                scores@,
                choosable(self.nodes@, node as int, self.action_space as int, visits),
            ),
            best matches Some(a) ==> first_best(
                scores@,
                choosable(self.nodes@, node as int, self.action_space as int, visits),
                a as int,
            ),
    {
        let first: usize = self.nodes[node].first_child;
        proof {
            self.lemma_block_bounds(node as int);
        }
        let ghost allowed = choosable(self.nodes@, node as int, self.action_space as int, visits);
        let mut best: Option<usize> = None;
        let mut best_score: Single = Single::neg_infinity();
        let mut a: usize = 0;
        while a < self.action_space
            invariant
                self.wf(),
                a <= self.action_space,
                scores@.len() == self.action_space,
                node < self.nodes@.len(),
                expanded(self.nodes@, node as int),
                first == self.nodes@[node as int].first_child,
                first + self.action_space <= self.nodes@.len() <= usize::MAX,
                allowed == choosable(self.nodes@, node as int, self.action_space as int, visits),
                best is None ==> best_score == Single::neg_infinity_spec() && forall|j: int|
                    0 <= j < a && #[trigger] allowed[j]
                        ==> !Single::neg_infinity_spec().lt_spec(scores@[j]),
                best matches Some(k) ==> {
                    &&& k < a
                    &&& allowed[k as int]
                    &&& best_score == scores@[k as int]
                    &&& Single::neg_infinity_spec().lt_spec(best_score)
                    &&& forall|j: int|
                        0 <= j < a && #[trigger] allowed[j] ==> !best_score.lt_spec(scores@[j])
                    &&& forall|j: int|
                        0 <= j < k && #[trigger] allowed[j] ==> scores@[j].lt_spec(best_score)
                            || scores@[j].nan()
                },
            decreases self.action_space - a,
        {
            let child: BatchNode = self.nodes[first + a];
            assert(child == self.nodes@[child_of(self.nodes@, node as int, a as int)]);
            let right_visits: bool = match visits {
                Some(v) => child.visits == v,
                None => true,
            };
            if child.legal && right_visits && best_score.less(scores[a]) {
                best_score = scores[a];
                best = Some(a);
            }
            a = a + 1;
        }
        best
    }

    /// The child with the greatest upper confidence bound, the earliest of equals.
    pub fn puct_select(&self, node: usize, scores: &Vec<Single>) -> (child: usize)
        requires
            self.wf(),
            node < self.nodes@.len(),
            expanded(self.nodes@, node as int),
            scores@.len() == self.action_space,
        ensures
            best_scored(self.nodes@, node as int, scores@, child as int),
            is_child(self.nodes@, node as int, child as int, self.action_space as int),
    {
        proof {
            self.lemma_block_bounds(node as int);
        }
        match self.best_child(node, scores, None) {
            Some(a) => self.nodes[node].first_child + a,
            None => self.nodes[node].first_child,
        }
    }

    /// The child that the improved policy asks for most, the earliest of equals.
    pub fn improved_policy_select(&self, node: usize, scores: &Vec<Single>) -> (child: usize)
        requires
            self.wf(),
            node < self.nodes@.len(),
            expanded(self.nodes@, node as int),
            scores@.len() == self.action_space,
        ensures
            best_scored(self.nodes@, node as int, scores@, child as int),
            is_child(self.nodes@, node as int, child as int, self.action_space as int),
    {
        proof {
            self.lemma_block_bounds(node as int);
        }
        match self.best_child(node, scores, None) {
            Some(a) => self.nodes[node].first_child + a,
            None => self.nodes[node].first_child,
        }
    }

    /// The root's child for one step of sequential halving: the best score among the
    /// legal children whose visits are at the threshold, and where no score counts there,
    /// the legal child with the fewest visits.
    pub fn gumbel_root_select(&self, scores: &Vec<Single>, threshold: usize) -> (child: usize)
        requires
            self.wf(),
            scores@.len() == self.action_space,
        ensures
            is_child(self.nodes@, 0, child as int, self.action_space as int),
            ({
                let allowed = choosable(
                    self.nodes@,
                    0,
                    self.action_space as int,
                    Some(threshold),
                );
                let a = child - self.nodes@[0].first_child;
                if none_best(scores@, allowed) {
                    least_visited(self.nodes@, 0, self.action_space as int, a)
                } else {
                    first_best(scores@, allowed, a)
                }
            }),
    {
        proof {
            self.lemma_block_bounds(0);
        }
        match self.best_child(0, scores, Some(threshold)) {
            Some(a) => self.nodes[0].first_child + a,
            None => {
                let first: usize = self.nodes[0].first_child;
                let mut fallback: usize = 0;
                let mut found: bool = false;
                let mut fewest: usize = 0;
                let mut a: usize = 0;
                let ghost legal = |b: int| self.nodes@[child_of(self.nodes@, 0, b)].legal;
                let ghost visits = |b: int| self.nodes@[child_of(self.nodes@, 0, b)].visits;
                while a < self.action_space
                    invariant
                        self.wf(),
                        a <= self.action_space,
                        first == self.nodes@[0].first_child,
                        first + self.action_space <= self.nodes@.len() <= usize::MAX,
                        legal == (|b: int| self.nodes@[child_of(self.nodes@, 0, b)].legal),
                        visits == (|b: int| self.nodes@[child_of(self.nodes@, 0, b)].visits),
                        !found ==> fallback == 0 && forall|b: int|
                            0 <= b < a ==> !#[trigger] legal(b),
                        found ==> {
                            &&& fallback < a
                            &&& legal(fallback as int)
                            &&& fewest == visits(fallback as int)
                            &&& forall|b: int|
                                0 <= b < a && #[trigger] legal(b) ==> fewest <= visits(b)
                            &&& forall|b: int|
                                0 <= b < fallback && #[trigger] legal(b) ==> fewest < visits(b)
                        },
                    decreases self.action_space - a,
                {
                    let child: BatchNode = self.nodes[first + a];
                    assert(child == self.nodes@[child_of(self.nodes@, 0, a as int)]);
                    if child.legal && (!found || child.visits < fewest) {
                        found = true;
                        fewest = child.visits;
                        fallback = a;
                    }
                    a = a + 1;
                }
                assert(found ==> legal(fallback as int));
                first + fallback
            },
        }
    }

    /// The visits of a node's children: added up, and the most that one of them has.
    pub fn completed_visits(&self, node: usize) -> (sums: (usize, usize))
        requires
            self.wf(),
            node < self.nodes@.len(),
            expanded(self.nodes@, node as int),
        ensures
            sums.0 == visits_in(
                self.nodes@,
                self.nodes@[node as int].first_child as int,
                self.action_space as int,
            ),
            forall|a: int|
                0 <= a < self.action_space ==> self.nodes@[#[trigger] child_of(
                    self.nodes@,
                    node as int,
                    a,
                )].visits <= sums.1,
            exists|a: int|
                0 <= a < self.action_space && self.nodes@[#[trigger] child_of(
                    self.nodes@,
                    node as int,
                    a,
                )].visits == sums.1,
    {
        let first: usize = self.nodes[node].first_child;
        proof {
            self.lemma_block_bounds(node as int);
        }
        let mut sum: usize = 0;
        let mut most: usize = 0;
        let mut a: usize = 0;
        let ghost nodes = self.nodes@;
        let ghost total = visits_in(nodes, first as int, self.action_space as int);
        assert(total <= nodes[node as int].visits);
        while a < self.action_space
            invariant
                self.wf(),
                nodes == self.nodes@,
                a <= self.action_space,
                node < nodes.len(),
                first == nodes[node as int].first_child,
                first + self.action_space <= nodes.len() <= usize::MAX,
                total == visits_in(nodes, first as int, self.action_space as int),
                total <= usize::MAX,
                sum == visits_in(nodes, first as int, a as int),
                forall|b: int|
                    0 <= b < a ==> nodes[#[trigger] child_of(nodes, node as int, b)].visits <= most,
                a == 0 ==> most == 0,
                a > 0 ==> exists|b: int|
                    0 <= b < a && nodes[#[trigger] child_of(nodes, node as int, b)].visits == most,
            decreases self.action_space - a,
        {
            let visits: usize = self.nodes[first + a].visits;
            assert(nodes[child_of(nodes, node as int, a as int)].visits == visits);
            proof {
                lemma_visits_monotone(
                    nodes,
                    first as int,
                    a as int + 1,
                    self.action_space as int,
                );
            }
            sum = sum + visits;
            if visits > most {
                most = visits;
            }
            assert(a == 0 ==> most == visits);
            a = a + 1;
        }
        (sum, most)
    }
}

/// Nodes without visits add up to none.
proof fn lemma_no_visits(nodes: Seq<BatchNode>, from: int, count: int)
    requires
        0 <= from,
        from + count <= nodes.len(),
        forall|i: int| from <= i < from + count ==> #[trigger] nodes[i].visits == 0,
    ensures
        visits_in(nodes, from, count) == 0,
    decreases count,
{
    if count > 0 {
        lemma_no_visits(nodes, from, count - 1);
    }
}

/// More nodes have no fewer visits.
proof fn lemma_visits_monotone(nodes: Seq<BatchNode>, from: int, fewer: int, more: int)
    requires
        fewer <= more,
    ensures
        visits_in(nodes, from, fewer) <= visits_in(nodes, from, more),
    decreases more,
{
    if fewer < more && more > 0 {
        lemma_visits_monotone(nodes, from, fewer, more - 1);
    }
}

/// A walk never comes back to a node that it passed, nor to a lower one.
pub proof fn lemma_path_increases(nodes: Seq<BatchNode>, action_space: int, path: Seq<usize>, j: int, k: int)
    requires
        blocks_wf(nodes, action_space),
        path_wf(nodes, action_space, path),
        0 <= j < k < path.len(),
    ensures
        path[j] < path[k],
    decreases k,
{
    assert(path_step(nodes, action_space, path, k - 1));
    if j < k - 1 {
        lemma_path_increases(nodes, action_space, path, j, k - 1);
    }
}

/// A node's visits are part of what a block that holds it adds up to.
proof fn lemma_visits_part(nodes: Seq<BatchNode>, from: int, count: int, i: int)
    requires
        from <= i < from + count,
    ensures
        nodes[i].visits <= visits_in(nodes, from, count),
        visits_in(nodes, from, count) >= 0,
    decreases count,
{
    lemma_visits_monotone(nodes, from, 0, count - 1);
    if i < from + count - 1 {
        lemma_visits_part(nodes, from, count - 1, i);
    }
}

/// No node of a walk has more visits than the root.
proof fn lemma_path_visits_bounded(
    nodes: Seq<BatchNode>,
    action_space: int,
    root_visits: int,
    path: Seq<usize>,
    j: int,
)
    requires
        blocks_wf(nodes, action_space),
        visits_wf(nodes, action_space, root_visits),
        root_visits >= 0,
        path_wf(nodes, action_space, path),
        0 <= j < path.len(),
    ensures
        nodes[path[j] as int].visits <= nodes[0].visits,
    decreases j,
{
    if j > 0 {
        lemma_path_visits_bounded(nodes, action_space, root_visits, path, j - 1);
        assert(path_step(nodes, action_space, path, j - 1));
        lemma_visits_part(
            nodes,
            nodes[path[j - 1] as int].first_child as int,
            action_space,
            path[j] as int,
        );
    }
}

/// A walk that holds a child of an expanded node passes through that node just
/// before.
pub proof fn lemma_path_enters_block(
    nodes: Seq<BatchNode>,
    action_space: int,
    path: Seq<usize>,
    i: int,
    k: int,
)
    requires
        blocks_wf(nodes, action_space),
        path_wf(nodes, action_space, path),
        0 <= i < nodes.len(),
        expanded(nodes, i),
        0 <= k < path.len(),
        is_child(nodes, i, path[k] as int, action_space),
    ensures
        k >= 1,
        path[k - 1] == i,
{
    if k >= 1 {
        assert(path_step(nodes, action_space, path, k - 1));
        let p = path[k - 1] as int;
        assert(expanded(nodes, p));
        if p != i {
            assert(expanded(nodes, i) && expanded(nodes, p));
        }
    }
}

/// Equal visits, but for one more at `special`, add up to one more if the block
/// holds `special`, and to the same otherwise.
proof fn lemma_visits_step(
    before: Seq<BatchNode>,
    after: Seq<BatchNode>,
    from: int,
    count: int,
    special: int,
)
    requires
        forall|c: int|
            from <= c < from + count ==> (#[trigger] after[c]).visits == before[c].visits + if c
                == special {
                1int
            } else {
                0int
            },
    ensures
        visits_in(after, from, count) == visits_in(before, from, count) + if from <= special < from
            + count {
            1int
        } else {
            0int
        },
    decreases count,
{
    if count > 0 {
        assert(after[from + count - 1].visits == before[from + count - 1].visits + if from + count
            - 1 == special {
            1int
        } else {
            0int
        });
        lemma_visits_step(before, after, from, count - 1, special);
    }
}

/// Expanding the end of a walk keeps the blocks in order.
proof fn lemma_expansion_keeps_blocks(
    nodes: Seq<BatchNode>,
    action_space: int,
    leaf: int,
    hidden_row: usize,
    reward: Single,
    value: Single,
    priors: Seq<Single>,
    logits: Seq<Single>,
)
    requires
        blocks_wf(nodes, action_space),
        0 <= leaf < nodes.len(),
        !expanded(nodes, leaf),
        priors.len() == action_space,
        nodes.len() + action_space <= usize::MAX,
    ensures
        blocks_wf(
            after_expansion(nodes, leaf, hidden_row, reward, value, priors, logits),
            action_space,
        ),
{
    let after = after_expansion(nodes, leaf, hidden_row, reward, value, priors, logits);
    assert(forall|i: int|
        0 <= i < nodes.len() && i != leaf ==> #[trigger] expanded(after, i) == expanded(nodes, i));
    assert(forall|i: int| nodes.len() <= i < after.len() ==> !#[trigger] expanded(after, i));
    assert(leaf != 0) by {
        assert(expanded(nodes, 0));
    }
    assert forall|i: int|
        0 <= i < after.len() && #[trigger] expanded(after, i) implies i < after[i].first_child
        && after[i].first_child + action_space <= after.len() by {
        if i != leaf {
            assert(expanded(nodes, i));
        }
    }
    assert forall|i: int, a: int|
        0 <= i < after.len() && expanded(after, i) && 0 <= a < action_space implies after[
    #[trigger] child_of(after, i, a)].action == a by {
        if i != leaf {
            assert(expanded(nodes, i));
            assert(nodes[child_of(nodes, i, a)].action == a);
        }
    }
    assert forall|i: int, j: int|
        0 <= i < after.len() && 0 <= j < after.len() && i != j && #[trigger] expanded(after, i)
            && #[trigger] expanded(after, j) implies after[i].first_child + action_space
        <= after[j].first_child || after[j].first_child + action_space <= after[i].first_child by {
        if i != leaf {
            assert(expanded(nodes, i));
        }
        if j != leaf {
            assert(expanded(nodes, j));
        }
    }
}

/// One finished simulation keeps the order of the tree: the blocks stay in place and
/// every visit is accounted for.
proof fn lemma_simulation_keeps_tree(
    nodes: Seq<BatchNode>,
    grown: Seq<BatchNode>,
    after: Seq<BatchNode>,
    action_space: int,
    root_visits: int,
    path: Seq<usize>,
    hidden_row: usize,
    reward: Single,
    value: Single,
    priors: Seq<Single>,
    logits: Seq<Single>,
    cumulative: Seq<Single>,
)
    requires
        blocks_wf(nodes, action_space),
        visits_wf(nodes, action_space, root_visits),
        root_visits >= 0,
        path_wf(nodes, action_space, path),
        !expanded(nodes, path.last() as int),
        priors.len() == action_space,
        nodes.len() + action_space <= usize::MAX,
        nodes[0].visits < usize::MAX,
        grown == after_expansion(nodes, path.last() as int, hidden_row, reward, value, priors, logits),
        backed_up(grown, after, path, cumulative),
    ensures
        blocks_wf(after, action_space),
        visits_wf(after, action_space, root_visits),
        after[0].visits == nodes[0].visits + 1,
{
    let leaf = path.last() as int;
    let last = path.len() - 1;
    lemma_expansion_keeps_blocks(
        nodes,
        action_space,
        leaf,
        hidden_row,
        reward,
        value,
        priors,
        logits,
    );
    // Backing up touches visits and sums of values only.
    assert forall|i: int| 0 <= i < grown.len() implies (#[trigger] after[i]).first_child
        == grown[i].first_child && after[i].action == grown[i].action by {
        if on_path(path, i) {
            let j = choose|j: int| 0 <= j < path.len() && #[trigger] path[j] == i;
            assert(after[path[j] as int].first_child == grown[i].first_child);
        }
    }
    assert(forall|i: int| 0 <= i < grown.len() ==> #[trigger] expanded(after, i) == expanded(grown, i));
    assert forall|i: int, a: int|
        0 <= i < after.len() && expanded(after, i) && 0 <= a < action_space implies after[
    #[trigger] child_of(after, i, a)].action == a by {
        assert(expanded(grown, i));
        assert(grown[child_of(grown, i, a)].action == a);
    }
    assert forall|i: int|
        0 <= i < after.len() && #[trigger] expanded(after, i) implies i < after[i].first_child
        && after[i].first_child + action_space <= after.len() by {
        assert(expanded(grown, i));
    }
    assert forall|i: int, j: int|
        0 <= i < after.len() && 0 <= j < after.len() && i != j && #[trigger] expanded(after, i)
            && #[trigger] expanded(after, j) implies after[i].first_child + action_space
        <= after[j].first_child || after[j].first_child + action_space <= after[i].first_child by {
        assert(expanded(grown, i) && expanded(grown, j));
    }
    assert(blocks_wf(after, action_space));
    // The visits of each node before and after.
    assert forall|j: int| 0 <= j < path.len() implies (#[trigger] after[path[j] as int]).visits
        == nodes[path[j] as int].visits + 1 by {
        lemma_path_visits_bounded(nodes, action_space, root_visits, path, j);
    }
    assert forall|i: int| 0 <= i < nodes.len() && !on_path(path, i) implies (#[trigger] after[i]).visits
        == nodes[i].visits by {
        assert(on_path(path, leaf)) by {
            assert(path[last] == leaf);
        }
    }
    assert forall|i: int| nodes.len() <= i < after.len() implies (#[trigger] after[i]).visits == 0
        && !expanded(after, i) by {
        if on_path(path, i) {
            let j = choose|j: int| 0 <= j < path.len() && #[trigger] path[j] == i;
            assert(path[j] < nodes.len());
        }
    }
    assert(path[0] == 0);
    // The sums of the children.
    assert forall|i: int| 0 <= i < after.len() && #[trigger] expanded(after, i) implies after[i].visits
        == (if i == 0 {
        root_visits
    } else {
        1
    }) + visits_in(after, after[i].first_child as int, action_space) by {
        let first = after[i].first_child as int;
        if i == leaf {
            assert(path[last] == leaf);
            lemma_no_visits(after, first, action_space);
        } else {
            assert(expanded(grown, i));
            assert(i < nodes.len());
            assert(expanded(nodes, i));
            assert(first == nodes[i].first_child);
            if on_path(path, i) {
                let j = choose|j: int| 0 <= j < path.len() && #[trigger] path[j] == i;
                assert(j < last);
                assert(path_step(nodes, action_space, path, j));
                let special = path[j + 1] as int;
                assert forall|c: int| first <= c < first + action_space implies (
                #[trigger] after[c]).visits == nodes[c].visits + if c == special {
                    1int
                } else {
                    0int
                } by {
                    if on_path(path, c) {
                        let k = choose|k: int| 0 <= k < path.len() && #[trigger] path[k] == c;
                        lemma_path_enters_block(nodes, action_space, path, i, k);
                        if k - 1 < j {
                            lemma_path_increases(nodes, action_space, path, k - 1, j);
                        } else if j < k - 1 {
                            lemma_path_increases(nodes, action_space, path, j, k - 1);
                        }
                        assert(k == j + 1);
                    } else if c == special {
                        assert(path[j + 1] == c);
                    }
                }
                lemma_visits_step(nodes, after, first, action_space, special);
                assert(after[path[j] as int].visits == nodes[i].visits + 1);
            } else {
                assert forall|c: int| first <= c < first + action_space implies (
                #[trigger] after[c]).visits == nodes[c].visits + if c == -1 {
                    1int
                } else {
                    0int
                } by {
                    if on_path(path, c) {
                        let k = choose|k: int| 0 <= k < path.len() && #[trigger] path[k] == c;
                        lemma_path_enters_block(nodes, action_space, path, i, k);
                        assert(path[k - 1] == i);
                    }
                }
                lemma_visits_step(nodes, after, first, action_space, -1);
            }
        }
    }
    assert(expanded(after, 0));
    assert(after[path[0] as int].visits == nodes[0].visits + 1);
    assert forall|i: int| 0 <= i < after.len() && !#[trigger] expanded(after, i) implies after[i].visits
        == 0 by {
        if i < nodes.len() {
            assert(!expanded(grown, i));
            assert(!expanded(nodes, i));
            if on_path(path, i) {
                let j = choose|j: int| 0 <= j < path.len() && #[trigger] path[j] == i;
                if j < last {
                    assert(path_step(nodes, action_space, path, j));
                } else {
                    assert(i == leaf);
                }
            }
        }
    }
}

impl SearchTree {
    /// Ends a simulation: gives the node at the end of the walk its children and what the
    /// network said of it, adds a visit to every node of the walk, and takes over the new
    /// sums of values, one for each node of the walk.
    pub fn expand_and_back_up(
        &mut self,
        hidden_row: usize,
        reward: Single,
        value: Single,
        priors: &Vec<Single>,
        logits: &Vec<Single>,
        cumulative: &Vec<Single>,
    )
        requires
            old(self).walking(),
            old(self).at_leaf(),
            priors@.len() == old(self).action_space,
            logits@.len() == old(self).action_space,
            cumulative@.len() == old(self).path@.len(),
            old(self).nodes@.len() + old(self).action_space <= usize::MAX,
            old(self).nodes@[0].visits < usize::MAX,
        ensures
            final(self).wf(),
            final(self).simulations() == old(self).simulations() + 1,
            final(self).path@ == old(self).path@,
            final(self).action_space == old(self).action_space,
            final(self).root_visits == old(self).root_visits,
            backed_up(
                after_expansion(
                    old(self).nodes@,
                    old(self).path@.last() as int,
                    hidden_row,
                    reward,
                    value,
                    priors@,
                    logits@,
                ),
                final(self).nodes@,
                old(self).path@,
                cumulative@,
            ),
    {
        let ghost nodes = self.nodes@;
        let ghost path = self.path@;
        let ghost action_space = self.action_space as int;
        let first: usize = self.nodes.len();
        let leaf: usize = self.path[self.path.len() - 1];
        let mut a: usize = 0;
        while a < self.action_space
            invariant
                a <= self.action_space,
                self.action_space == old(self).action_space,
                self.root_visits == old(self).root_visits,
                self.path@ == path,
                priors@.len() == self.action_space,
                logits@.len() == self.action_space,
                self.nodes@ == nodes + Seq::new(
                    a as nat,
                    |b: int| fresh_child(b, priors@[b], logits@[b], true),
                ),
            decreases self.action_space - a,
        {
            self.nodes.push(
                BatchNode {
                    visits: 0,
                    action: a,
                    hidden_row: 0,
                    first_child: 0,
                    cumulative_value: Single::zero(),
                    reward: Single::zero(),
                    prior: priors[a],
                    logit: logits[a],
                    value: Single::zero(),
                    legal: true,
                },
            );
            a = a + 1;
            assert(self.nodes@ =~= nodes + Seq::new(
                a as nat,
                |b: int| fresh_child(b, priors@[b], logits@[b], true),
            ));
        }
        let old_leaf: BatchNode = self.nodes[leaf];
        self.nodes[leaf] = BatchNode { hidden_row, reward, value, first_child: first, ..old_leaf };
        let ghost grown = self.nodes@;
        assert(grown =~= after_expansion(
            nodes,
            path.last() as int,
            hidden_row,
            reward,
            value,
            priors@,
            logits@,
        ));
        let mut k: usize = self.path.len();
        while k > 0
            invariant
                k <= path.len(),
                self.path@ == path,
                self.action_space == old(self).action_space,
                self.root_visits == old(self).root_visits,
                nodes == old(self).nodes@,
                action_space == old(self).action_space,
                blocks_wf(nodes, action_space),
                visits_wf(nodes, action_space, old(self).root_visits as int),
                path_wf(nodes, action_space, path),
                nodes[0].visits < usize::MAX,
                cumulative@.len() == path.len(),
                grown.len() >= nodes.len(),
                forall|i: int| 0 <= i < nodes.len() ==> (#[trigger] grown[i]).visits == nodes[i].visits,
                self.nodes@.len() == grown.len(),
                forall|i: int|
                    0 <= i < grown.len() && !on_path(path, i) ==> #[trigger] self.nodes@[i]
                        == grown[i],
                forall|j: int|
                    0 <= j < k ==> self.nodes@[#[trigger] path[j] as int] == grown[path[j] as int],
                forall|j: int|
                    k <= j < path.len() ==> self.nodes@[#[trigger] path[j] as int] == (BatchNode {
                        visits: (grown[path[j] as int].visits + 1) as usize,
                        cumulative_value: cumulative@[j],
                        ..grown[path[j] as int]
                    }),
            decreases k,
        {
            k = k - 1;
            let i: usize = self.path[k];
            let node: BatchNode = self.nodes[i];
            proof {
                lemma_path_visits_bounded(
                    nodes,
                    action_space,
                    old(self).root_visits as int,
                    path,
                    k as int,
                );
                assert forall|j: int| 0 <= j < path.len() && j != k implies #[trigger] path[j] != i by {
                    if j < k {
                        lemma_path_increases(nodes, action_space, path, j, k as int);
                    } else {
                        lemma_path_increases(nodes, action_space, path, k as int, j);
                    }
                }
                assert(on_path(path, i as int)) by {
                    assert(path[k as int] == i);
                }
            }
            self.nodes[i] = BatchNode {
                visits: node.visits + 1,
                cumulative_value: cumulative[k],
                ..node
            };
        }
        proof {
            assert(backed_up(grown, self.nodes@, path, cumulative@));
            lemma_simulation_keeps_tree(
                nodes,
                grown,
                self.nodes@,
                action_space,
                old(self).root_visits as int,
                path,
                hidden_row,
                reward,
                value,
                priors@,
                logits@,
                cumulative@,
            );
        }
    }
}

/// Whether what a node was made with is the same: its action, its prior, its logit and
/// whether it is legal.
pub open spec fn same_origin(a: BatchNode, b: BatchNode) -> bool {
    &&& a.action == b.action
    &&& a.prior == b.prior
    &&& a.logit == b.logit
    &&& a.legal == b.legal
}

/// A simulation changes nothing of what the nodes were made with.
pub proof fn simulations_keep_origins(
    nodes: Seq<BatchNode>,
    after: Seq<BatchNode>,
    path: Seq<usize>,
    hidden_row: usize,
    reward: Single,
    value: Single,
    priors: Seq<Single>,
    logits: Seq<Single>,
    cumulative: Seq<Single>,
    x: int,
)
    requires
        path.len() >= 1,
        path.last() < nodes.len(),
        backed_up(
            after_expansion(
                nodes,
                path.last() as int,
                hidden_row,
                reward,
                value,
                priors,
                logits,
            ),
            after,
            path,
            cumulative,
        ),
        0 <= x < nodes.len(),
    ensures
        same_origin(after[x], nodes[x]),
{
    if on_path(path, x) {
        let j = choose|j: int| 0 <= j < path.len() && #[trigger] path[j] == x;
        assert(after[path[j] as int].legal == nodes[x].legal);
    }
}

} // verus!
