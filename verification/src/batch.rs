//! The batched search: one tree for each position that leaves a choice, all trees
//! a simulation at a time.
//!
//! The caller scores the children that [`BatchSearch::to_score`] asks about, runs the
//! network on the requests, and hands the predictions back. Hidden states live in an
//! arena of rows: tree `i` of `n` owns the rows `i`, `i + n`, `i + 2 * n` and so on.
use vstd::prelude::*;
use crate::config::SearchAlgorithm;
use crate::considered::{considered_visits, table_of_considered_visits};
use crate::extract::{
    SearchReturn, forced_result, illegal_unvisited, one_hot_spec, root_child,
};
use crate::single::Single;
use crate::tree::{
    BatchNode, SearchTree, after_expansion, backed_up, best_scored, child_of, choosable, expanded,
    first_best, fresh_child, least_visited, none_best, on_path, path_step,
};

verus! {

/// Whether `a` is the only legal action of a mask.
pub open spec fn only_legal(mask: Seq<bool>, a: int) -> bool {
    &&& 0 <= a < mask.len()
    &&& mask[a]
    &&& forall|b: int| 0 <= b < mask.len() && #[trigger] mask[b] ==> b == a
}

/// The action that a mask leaves as the only one, if it does.
pub open spec fn forced_by(mask: Seq<bool>, forced: Option<usize>) -> bool {
    match forced {
        Some(a) => only_legal(mask, a as int),
        None => forall|a: int| !#[trigger] only_legal(mask, a),
    }
}

/// The positions of `None` among the first `end` entries, in order.
pub open spec fn open_rows(forced: Seq<Option<usize>>, end: int) -> Seq<usize>
    decreases end,
{
    if end <= 0 {
        Seq::empty()
    } else if forced[end - 1] is None {
        open_rows(forced, end - 1).push((end - 1) as usize)
    } else {
        open_rows(forced, end - 1)
    }
}

/// How many actions a mask allows among its first `end` ones.
pub open spec fn legal_count(mask: Seq<bool>, end: int) -> nat
    decreases end,
{
    if end <= 0 {
        0
    } else {
        legal_count(mask, end - 1) + if mask[end - 1] {
            1nat
        } else {
            0nat
        }
    }
}

fn forced_action(mask: &Vec<bool>) -> (forced: Option<usize>)
    ensures
        forced_by(mask@, forced),
{
    let mut first: Option<usize> = None;
    let mut a: usize = 0;
    while a < mask.len()
        invariant
            a <= mask@.len(),
            match first {
                Some(f) => f < a && mask@[f as int] && forall|b: int|
                    0 <= b < a && #[trigger] mask@[b] ==> b == f,
                None => forall|b: int| 0 <= b < a ==> !#[trigger] mask@[b],
            },
        decreases mask@.len() - a,
    {
        if mask[a] {
            match first {
                Some(f) => {
                    assert forall|c: int| !#[trigger] only_legal(mask@, c) by {
                        assert(mask@[f as int] && mask@[a as int]);
                    }
                    return None;
                },
                None => {
                    first = Some(a);
                },
            }
        }
        a = a + 1;
    }
    first
}

/// For each position, the one action that is legal there, if there is just one.
/// Without masks no action is forced.
pub fn forced_actions(masks: Option<&Vec<Vec<bool>>>, batch_size: usize) -> (forced: Vec<
    Option<usize>,
>)
    requires
        masks matches Some(m) ==> m@.len() == batch_size,
    ensures
        forced@.len() == batch_size,
        forall|i: int|
            0 <= i < batch_size ==> match masks {
                Some(m) => forced_by(m@[i]@, #[trigger] forced@[i]),
                None => forced@[i] is None,
            },
{
    let mut forced: Vec<Option<usize>> = Vec::new();
    let mut i: usize = 0;
    while i < batch_size
        invariant
            i <= batch_size,
            masks matches Some(m) ==> m@.len() == batch_size,
            forced@.len() == i,
            forall|j: int|
                0 <= j < i ==> match masks {
                    Some(m) => forced_by(m@[j]@, #[trigger] forced@[j]),
                    None => forced@[j] is None,
                },
        decreases batch_size - i,
    {
        match masks {
            Some(m) => {
                let f: Option<usize> = forced_action(&m[i]);
                forced.push(f);
            },
            None => {
                forced.push(None);
            },
        }
        i = i + 1;
    }
    forced
}

/// The positions without a forced action, in order.
pub fn active_rows(forced: &Vec<Option<usize>>) -> (active: Vec<usize>)
    ensures
        active@ == open_rows(forced@, forced@.len() as int),
{
    let mut active: Vec<usize> = Vec::new();
    let mut i: usize = 0;
    while i < forced.len()
        invariant
            i <= forced@.len(),
            active@ == open_rows(forced@, i as int),
        decreases forced@.len() - i,
    {
        match forced[i] {
            None => {
                active.push(i);
            },
            Some(_) => {},
        }
        i = i + 1;
    }
    active
}

/// How many actions a mask allows.
pub fn count_legal(mask: &Vec<bool>) -> (count: usize)
    ensures
        count == legal_count(mask@, mask@.len() as int),
        count <= mask@.len(),
{
    let mut count: usize = 0;
    let mut a: usize = 0;
    while a < mask.len()
        invariant
            count <= a <= mask@.len(),
            count == legal_count(mask@, a as int),
        decreases mask@.len() - a,
    {
        if mask[a] {
            count = count + 1;
        }
        a = a + 1;
    }
    count
}

/// The rows of the open positions lie within the batch, in order, and their number
/// fits.
pub(crate) proof fn lemma_open_rows(forced: Seq<Option<usize>>, end: int)
    requires
        0 <= end <= forced.len(),
        forced.len() <= usize::MAX,
    ensures
        open_rows(forced, end).len() <= end,
        forall|k: int|
            0 <= k < open_rows(forced, end).len() ==> #[trigger] open_rows(forced, end)[k] < end
                && forced[open_rows(forced, end)[k] as int] is None,
        forall|i: int|
            0 <= i < end && #[trigger] forced[i] is None ==> open_rows(forced, end).contains(
                i as usize,
            ),
    decreases end,
{
    if end > 0 {
        lemma_open_rows(forced, end - 1);
        let before = open_rows(forced, end - 1);
        let rows = open_rows(forced, end);
        assert forall|i: int| 0 <= i < end && #[trigger] forced[i] is None implies rows.contains(
            i as usize,
        ) by {
            if i < end - 1 {
                assert(before.contains(i as usize));
                let k = choose|k: int| 0 <= k < before.len() && before[k] == i as usize;
                assert(rows[k] == i as usize);
            } else {
                assert(rows[rows.len() - 1] == i as usize);
            }
        }
    }
}

/// The rows of tree `i` of `n`: each expanded node holds one, below `arena_len`, that
/// no other tree and no other node of the tree uses.
pub open spec fn rows_wf(nodes: Seq<BatchNode>, i: int, n: int, arena_len: int) -> bool {
    &&& forall|x: int|
        0 <= x < nodes.len() && #[trigger] expanded(nodes, x) ==> nodes[x].hidden_row < arena_len
            && nodes[x].hidden_row as int % n == i
    &&& forall|x: int, y: int|
        0 <= x < nodes.len() && 0 <= y < nodes.len() && x != y && #[trigger] expanded(nodes, x)
            && #[trigger] expanded(nodes, y) ==> nodes[x].hidden_row != nodes[y].hidden_row
}

/// Growing a tree by one simulation keeps its rows apart.
proof fn lemma_rows_after_simulation(
    nodes: Seq<BatchNode>,
    after: Seq<BatchNode>,
    path: Seq<usize>,
    hidden_row: usize,
    reward: Single,
    value: Single,
    priors: Seq<Single>,
    logits: Seq<Single>,
    cumulative: Seq<Single>,
    i: int,
    n: int,
    arena_len: int,
    step: int,
)
    requires
        rows_wf(nodes, i, n, arena_len),
        path.len() >= 1,
        path.last() < nodes.len(),
        nodes.len() <= usize::MAX,
        !expanded(nodes, path.last() as int),
        backed_up(
            after_expansion(
                nodes,
                path.last() as int,
                hidden_row,
                reward,
                value,
                priors,
                logits,
            ),
            after,
            path,
            cumulative,
        ),
        0 <= i < n,
        arena_len == (step + 1) * n,
        step >= 0,
        hidden_row == arena_len + i,
    ensures
        rows_wf(after, i, n, arena_len + n),
{
    let leaf = path.last() as int;
    let grown = after_expansion(nodes, leaf, hidden_row, reward, value, priors, logits);
    assert forall|x: int| 0 <= x < after.len() implies (#[trigger] after[x]).hidden_row
        == grown[x].hidden_row && after[x].first_child == grown[x].first_child by {
        if on_path(path, x) {
            let j = choose|j: int| 0 <= j < path.len() && #[trigger] path[j] == x;
            assert(after[path[j] as int].hidden_row == grown[x].hidden_row);
        }
    }
    vstd::arithmetic::div_mod::lemma_mod_multiples_vanish(step + 1, i, n);
    assert((n * (step + 1) + i) == arena_len + i) by (nonlinear_arith)
        requires
            arena_len == (step + 1) * n,
    ;
    vstd::arithmetic::div_mod::lemma_small_mod(i as nat, n as nat);
    assert(hidden_row as int % n == i);
    assert forall|x: int| 0 <= x < after.len() && #[trigger] expanded(after, x) implies after[x].hidden_row
        < arena_len + n && after[x].hidden_row as int % n == i && (x != leaf ==> x < nodes.len()
        && expanded(nodes, x) && after[x].hidden_row == nodes[x].hidden_row) by {
        assert(after[x].first_child == grown[x].first_child);
        if x != leaf {
            assert(x < nodes.len());
            assert(expanded(nodes, x));
        }
    }
    assert forall|x: int, y: int|
        0 <= x < after.len() && 0 <= y < after.len() && x != y && #[trigger] expanded(after, x)
            && #[trigger] expanded(after, y) implies after[x].hidden_row != after[y].hidden_row by {
        if x != leaf && y != leaf {
            assert(expanded(nodes, x) && expanded(nodes, y));
        } else if x == leaf {
            assert(after[x].hidden_row == arena_len + i);
            assert(expanded(nodes, y));
        } else {
            assert(after[y].hidden_row == arena_len + i);
            assert(expanded(nodes, x));
        }
    }
}

/// A search over a batch of positions.
#[derive(Debug)]
pub struct BatchSearch {
    pub algorithm: SearchAlgorithm,
    pub action_space: usize,
    pub num_simulations: usize,
    /// The visits that a root starts with: one where the network's prediction for the
    /// root counts as a visit, and none otherwise.
    pub root_visits: usize,
    /// The forced action of each position.
    pub forced: Vec<Option<usize>>,
    /// The positions that are searched.
    pub active: Vec<usize>,
    /// One tree for each searched position.
    pub trees: Vec<SearchTree>,
    /// How many actions each tree considers at first.
    pub num_considered: Vec<usize>,
    /// The required visits for each number of considered actions.
    pub considered: Vec<Vec<usize>>,
    /// How many simulations are done.
    pub sim_step: usize,
    /// How many rows of the arena of hidden states are in use.
    pub arena_len: usize,
}

/// What holds of tree `i` of `n` after `sim_step` simulations.
pub open spec fn tree_wf(
    tree: SearchTree,
    action_space: int,
    root_visits: int,
    sim_step: int,
    i: int,
    n: int,
    arena_len: int,
) -> bool {
    &&& tree.wf()
    &&& tree.action_space == action_space
    &&& tree.root_visits == root_visits
    &&& tree.simulations() == sim_step
    &&& tree.nodes@.len() == 1 + (sim_step + 1) * action_space
    &&& rows_wf(tree.nodes@, i, n, arena_len)
}

/// Whether the sizes of a search fit the machine.
pub open spec fn sizes_fit(num_simulations: int, action_space: int, rows: int) -> bool {
    &&& 1 + (num_simulations + 1) * action_space <= usize::MAX
    &&& (num_simulations + 1) * rows <= usize::MAX
    &&& (num_simulations + 1) * rows <= i64::MAX
    &&& action_space <= i64::MAX
    &&& num_simulations + 1 < usize::MAX
}

impl BatchSearch {
    pub open spec fn wf(&self) -> bool {
        &&& self.action_space >= 1
        &&& self.root_visits <= 1
        &&& self.active@ == open_rows(self.forced@, self.forced@.len() as int)
        &&& forall|i: int|
            0 <= i < self.forced@.len() ==> (#[trigger] self.forced@[i] matches Some(a) ==> a
                < self.action_space)
        &&& self.trees@.len() == self.active@.len()
        &&& self.sim_step <= self.num_simulations
        &&& sizes_fit(
            self.num_simulations as int,
            self.action_space as int,
            self.trees@.len() as int,
        )
        &&& self.arena_len == (self.sim_step + 1) * self.trees@.len()
        &&& forall|i: int|
            0 <= i < self.trees@.len() ==> tree_wf(
                #[trigger] self.trees@[i],
                self.action_space as int,
                self.root_visits as int,
                self.sim_step as int,
                i,
                self.trees@.len() as int,
                self.arena_len as int,
            )
        &&& self.num_considered@.len() == self.trees@.len()
        &&& self.algorithm is Gumbel ==> {
            &&& forall|i: int|
                0 <= i < self.trees@.len() ==> #[trigger] self.num_considered@[i]
                    < self.considered@.len()
            &&& forall|m: int|
                0 <= m < self.considered@.len() ==> (#[trigger] self.considered@[m])@
                    == considered_visits(m as nat, self.num_simulations as nat)
                    && self.considered@[m]@.len() == self.num_simulations
        }
    }

    /// Whether everything but the trees is the same.
    pub open spec fn same_but_trees(&self, other: &BatchSearch) -> bool {
        &&& self.algorithm == other.algorithm
        &&& self.action_space == other.action_space
        &&& self.num_simulations == other.num_simulations
        &&& self.root_visits == other.root_visits
        &&& self.forced@ == other.forced@
        &&& self.active@ == other.active@
        &&& self.trees@.len() == other.trees@.len()
        &&& self.num_considered@ == other.num_considered@
        &&& self.considered@ == other.considered@
    }

    /// The trees of a batch, with the network's predictions for the root positions.
    ///
    /// `max_considered` is the most actions that sequential halving considers. The
    /// predictions come with one entry for each position of the batch, and the trees take
    /// those of the positions that are searched. Where a root starts with a visit, its
    /// value is the first to be backed up.
    pub fn new(
        algorithm: SearchAlgorithm,
        max_considered: usize,
        action_space: usize,
        num_simulations: usize,
        root_visits: usize,
        batch_size: usize,
        masks: Option<&Vec<Vec<bool>>>,
        rewards: &Vec<Single>,
        values: &Vec<Single>,
        priors: &Vec<Vec<Single>>,
        logits: &Vec<Vec<Single>>,
    ) -> (search: BatchSearch)
        requires
            action_space >= 1,
            max_considered < usize::MAX,
            root_visits <= 1,
            sizes_fit(num_simulations as int, action_space as int, batch_size as int),
            masks matches Some(m) ==> m@.len() == batch_size && forall|i: int|
                0 <= i < batch_size ==> (#[trigger] m@[i])@.len() == action_space,
            rewards@.len() == batch_size,
            values@.len() == batch_size,
            priors@.len() == batch_size,
            logits@.len() == batch_size,
            forall|i: int| 0 <= i < batch_size ==> (#[trigger] priors@[i])@.len() == action_space,
            forall|i: int| 0 <= i < batch_size ==> (#[trigger] logits@[i])@.len() == action_space,
        ensures
            search.wf(),
            search.algorithm == algorithm,
            search.action_space == action_space,
            search.num_simulations == num_simulations,
            search.root_visits == root_visits,
            search.sim_step == 0,
            search.forced@.len() == batch_size,
            forall|i: int|
                0 <= i < batch_size ==> match masks {
                    Some(m) => forced_by(m@[i]@, #[trigger] search.forced@[i]),
                    None => search.forced@[i] is None,
                },
            forall|k: int|
                0 <= k < search.trees@.len() ==> root_of(
                    #[trigger] search.trees@[k],
                    k,
                    search.active@[k] as int,
                    masks,
                    rewards@,
                    values@,
                    priors@,
                    logits@,
                ),
            algorithm is Gumbel ==> forall|k: int|
                0 <= k < search.trees@.len() ==> #[trigger] search.num_considered@[k]
                    == considered_at(
                    mask_views(masks),
                    search.active@[k] as int,
                    max_considered as int,
                    action_space as int,
                ),
    {
        let forced: Vec<Option<usize>> = forced_actions(masks, batch_size);
        let active: Vec<usize> = active_rows(&forced);
        proof {
            lemma_open_rows(forced@, forced@.len() as int);
        }
        let n: usize = active.len();
        proof {
            assert((num_simulations + 1) * n <= (num_simulations + 1) * batch_size)
                by (nonlinear_arith)
                requires
                    n <= batch_size,
            ;
            assert(action_space <= (num_simulations + 1) * action_space) by (nonlinear_arith)
                requires
                    num_simulations >= 0,
                    action_space >= 0,
            ;
        }
        let most: usize = if max_considered < action_space {
            max_considered
        } else {
            action_space
        };
        let considered: Vec<Vec<usize>> = match algorithm {
            SearchAlgorithm::Gumbel => {
                let table: Vec<Vec<usize>> = table_of_considered_visits(most, num_simulations);
                table
            },
            SearchAlgorithm::Puct => Vec::new(),
        };
        let mut trees: Vec<SearchTree> = Vec::new();
        let mut num_considered: Vec<usize> = Vec::new();
        let mut k: usize = 0;
        while k < n
            invariant
                k <= n,
                n == active@.len(),
                action_space >= 1,
                action_space < usize::MAX,
                active@ == open_rows(forced@, forced@.len() as int),
                forall|j: int| 0 <= j < n ==> #[trigger] active@[j] < batch_size,
                masks matches Some(m) ==> m@.len() == batch_size && forall|i: int|
                    0 <= i < batch_size ==> (#[trigger] m@[i])@.len() == action_space,
                rewards@.len() == batch_size,
                values@.len() == batch_size,
                priors@.len() == batch_size,
                logits@.len() == batch_size,
                forall|i: int|
                    0 <= i < batch_size ==> (#[trigger] priors@[i])@.len() == action_space,
                forall|i: int|
                    0 <= i < batch_size ==> (#[trigger] logits@[i])@.len() == action_space,
                most == if max_considered < action_space {
                    max_considered
                } else {
                    action_space
                },
                trees@.len() == k,
                num_considered@.len() == k,
                forall|j: int|
                    0 <= j < k ==> tree_wf(
                        #[trigger] trees@[j],
                        action_space as int,
                        root_visits as int,
                        0,
                        j,
                        n as int,
                        n as int,
                    ),
                forall|j: int|
                    0 <= j < k ==> root_of(
                        #[trigger] trees@[j],
                        j,
                        active@[j] as int,
                        masks,
                        rewards@,
                        values@,
                        priors@,
                        logits@,
                    ),
                forall|j: int|
                    0 <= j < k ==> #[trigger] num_considered@[j] <= most && num_considered@[j]
                        == considered_at(
                        mask_views(masks),
                        active@[j] as int,
                        max_considered as int,
                        action_space as int,
                    ),
            decreases n - k,
        {
            let row: usize = active[k];
            let mask: Option<&Vec<bool>> = match masks {
                Some(m) => Some(&m[row]),
                None => None,
            };
            let tree: SearchTree = SearchTree::new(
                k,
                root_visits,
                if root_visits == 0 {
                    Single::zero()
                } else {
                    values[row]
                },
                rewards[row],
                values[row],
                &priors[row],
                &logits[row],
                mask,
            );
            let legal: usize = match mask {
                Some(m) => count_legal(m),
                None => action_space,
            };
            proof {
                assert(forall|x: int|
                    0 < x < tree.nodes@.len() ==> !#[trigger] expanded(tree.nodes@, x));
                vstd::arithmetic::div_mod::lemma_small_mod(k as nat, n as nat);
                assert(rows_wf(tree.nodes@, k as int, n as int, n as int));
                assert((0 + 1) * (action_space as int) == action_space) by (nonlinear_arith);
            }
            trees.push(tree);
            num_considered.push(
                if legal < most {
                    legal
                } else {
                    most
                },
            );
            k = k + 1;
        }
        proof {
            assert((0 + 1) * n == n) by (nonlinear_arith);
            assert forall|i: int|
                0 <= i < forced@.len() implies (#[trigger] forced@[i] matches Some(a) ==> a
                < action_space) by {
                match masks {
                    Some(m) => {
                        assert(m@[i]@.len() == action_space);
                    },
                    None => {},
                }
            }
        }
        BatchSearch {
            algorithm,
            action_space,
            num_simulations,
            root_visits,
            forced,
            active,
            trees,
            num_considered,
            considered,
            sim_step: 0,
            arena_len: n,
        }
    }
}

/// How many actions sequential halving considers at first in a position: the legal
/// ones, but no more than the limit.
pub open spec fn considered_at(
    masks: Option<Seq<Seq<bool>>>,
    row: int,
    max_considered: int,
    action_space: int,
) -> int {
    let most = if max_considered < action_space {
        max_considered
    } else {
        action_space
    };
    let legal = match masks {
        Some(m) => legal_count(m[row], m[row].len() as int) as int,
        None => action_space,
    };
    if legal < most {
        legal
    } else {
        most
    }
}

/// What masks hold.
pub open spec fn mask_views(masks: Option<&Vec<Vec<bool>>>) -> Option<Seq<Seq<bool>>> {
    match masks {
        Some(m) => Some(Seq::new(m@.len(), |i: int| m@[i]@)),
        None => None,
    }
}

/// Whether a tree is the root of position `row`, with the network's predictions.
pub open spec fn root_of(
    tree: SearchTree,
    hidden_row: int,
    row: int,
    masks: Option<&Vec<Vec<bool>>>,
    rewards: Seq<Single>,
    values: Seq<Single>,
    priors: Seq<Vec<Single>>,
    logits: Seq<Vec<Single>>,
) -> bool {
    &&& tree.nodes@.len() == 1 + tree.action_space
    &&& tree.path@ == seq![0usize]
    &&& tree.nodes@[0] == (BatchNode {
        visits: tree.root_visits,
        action: 0,
        hidden_row: hidden_row as usize,
        first_child: 1,
        cumulative_value: if tree.root_visits == 0 {
            Single::zero_spec()
        } else {
            values[row]
        },
        reward: rewards[row],
        prior: Single::zero_spec(),
        logit: Single::zero_spec(),
        value: values[row],
        legal: true,
    })
    &&& forall|i: int|
        1 <= i <= tree.action_space ==> #[trigger] tree.nodes@[i] == ({
            let legal = masks is None || masks->0@[row]@[i - 1];
            fresh_child(
                i - 1,
                priors[row]@[i - 1],
                if legal {
                    logits[row]@[i - 1]
                } else {
                    Single::neg_infinity_spec()
                },
                legal,
            )
        })
}

/// The child of node `i` that a search descends to: by upper confidence bound or by the
/// improved policy it is the best scored one, at the root of sequential halving the best
/// scored of those with the required visits, or else the least visited.
pub open spec fn chosen_child(
    algorithm: SearchAlgorithm,
    nodes: Seq<BatchNode>,
    i: int,
    scores: Seq<Single>,
    threshold: usize,
    child: int,
) -> bool {
    if algorithm is Gumbel && i == 0 {
        let allowed = choosable(nodes, 0, scores.len() as int, Some(threshold));
        let a = child - nodes[0].first_child;
        if none_best(scores, allowed) {
            least_visited(nodes, 0, scores.len() as int, a)
        } else {
            first_best(scores, allowed, a)
        }
    } else {
        best_scored(nodes, i, scores, child)
    }
}

impl BatchSearch {
    /// Whether every tree walks.
    pub open spec fn walking(&self) -> bool {
        &&& self.wf()
        &&& self.sim_step < self.num_simulations
        &&& forall|i: int| 0 <= i < self.trees@.len() ==> (#[trigger] self.trees@[i]).walking()
    }

    /// Whether every walk has arrived at a node without children.
    pub open spec fn all_at_leaf(&self) -> bool {
        forall|i: int| 0 <= i < self.trees@.len() ==> (#[trigger] self.trees@[i]).at_leaf()
    }

    /// The visits that the root of tree `i` requires in this simulation.
    pub open spec fn threshold(&self, i: int) -> usize {
        self.considered@[self.num_considered@[i] as int]@[self.sim_step as int]
    }

    /// Whether no simulation is left to do.
    pub fn is_done(&self) -> (done: bool)
        requires
            self.wf(),
        ensures
            done == (self.trees@.len() == 0 || self.sim_step == self.num_simulations),
    {
        self.trees.len() == 0 || self.sim_step >= self.num_simulations
    }

    /// Starts a simulation: every walk is at its root.
    pub fn begin(&mut self)
        requires
            old(self).wf(),
            old(self).sim_step < old(self).num_simulations,
        ensures
            final(self).walking(),
            final(self).same_but_trees(old(self)),
            final(self).sim_step == old(self).sim_step,
            final(self).arena_len == old(self).arena_len,
            forall|i: int|
                0 <= i < old(self).trees@.len() ==> (#[trigger] final(self).trees@[i]).path@
                    == seq![0usize] && final(self).trees@[i].nodes@ == old(self).trees@[i].nodes@,
    {
        let mut i: usize = 0;
        while i < self.trees.len()
            invariant
                i <= self.trees@.len(),
                self.trees@.len() == old(self).trees@.len(),
                old(self).wf(),
                self.same_but_trees(old(self)),
                self.sim_step == old(self).sim_step,
                self.arena_len == old(self).arena_len,
                forall|j: int|
                    i <= j < self.trees@.len() ==> #[trigger] self.trees@[j] == old(self).trees@[j],
                forall|j: int|
                    0 <= j < i ==> {
                        &&& (#[trigger] self.trees@[j]).path@ == seq![0usize]
                        &&& self.trees@[j].nodes@ == old(self).trees@[j].nodes@
                        &&& self.trees@[j].action_space == old(self).trees@[j].action_space
                        &&& self.trees@[j].root_visits == old(self).trees@[j].root_visits
                        &&& self.trees@[j].walking()
                    },
            decreases self.trees@.len() - i,
        {
            assert(old(self).trees@[i as int].wf());
            self.trees[i].begin();
            i = i + 1;
        }
        proof {
            assert forall|j: int| 0 <= j < self.trees@.len() implies tree_wf(
                #[trigger] self.trees@[j],
                self.action_space as int,
                self.root_visits as int,
                self.sim_step as int,
                j,
                self.trees@.len() as int,
                self.arena_len as int,
            ) by {
                assert(tree_wf(
                    old(self).trees@[j],
                    self.action_space as int,
                    self.root_visits as int,
                    self.sim_step as int,
                    j,
                    self.trees@.len() as int,
                    self.arena_len as int,
                ));
            }
        }
    }

    /// The node of tree `i` whose children are to be scored next, if its walk goes on.
    pub fn to_score(&self, i: usize) -> (node: Option<usize>)
        requires
            self.walking(),
            i < self.trees@.len(),
        ensures
            node is None <==> self.trees@[i as int].at_leaf(),
            node matches Some(x) ==> x == self.trees@[i as int].path@.last(),
    {
        assert(self.trees@[i as int].walking());
        self.trees[i].to_score()
    }

    /// Takes the walk of tree `i` one step down, by the scores of the children of the node
    /// that it stands at.
    pub fn select(&mut self, i: usize, scores: &Vec<Single>)
        requires
            old(self).walking(),
            i < old(self).trees@.len(),
            !old(self).trees@[i as int].at_leaf(),
            scores@.len() == old(self).action_space,
        ensures
            final(self).walking(),
            final(self).same_but_trees(old(self)),
            final(self).sim_step == old(self).sim_step,
            final(self).arena_len == old(self).arena_len,
            forall|j: int|
                0 <= j < old(self).trees@.len() && j != i ==> #[trigger] final(self).trees@[j]
                    == old(self).trees@[j],
            final(self).trees@[i as int].nodes@ == old(self).trees@[i as int].nodes@,
            final(self).trees@[i as int].path@.len() == old(self).trees@[i as int].path@.len() + 1,
            final(self).trees@[i as int].path@.drop_last() == old(self).trees@[i as int].path@,
            chosen_child(
                old(self).algorithm,
                old(self).trees@[i as int].nodes@,
                old(self).trees@[i as int].path@.last() as int,
                scores@,
                old(self).threshold(i as int),
                final(self).trees@[i as int].path@.last() as int,
            ),
    {
        let ghost before = self.trees@[i as int];
        assert(before.walking());
        assert(tree_wf(
            before,
            self.action_space as int,
            self.root_visits as int,
            self.sim_step as int,
            i as int,
            self.trees@.len() as int,
            self.arena_len as int,
        ));
        let node: usize = self.trees[i].path[self.trees[i].path.len() - 1];
        let child: usize = match self.algorithm {
            SearchAlgorithm::Puct => self.trees[i].puct_select(node, scores),
            SearchAlgorithm::Gumbel => {
                if node == 0 {
                    assert(self.num_considered@[i as int] < self.considered@.len());
                    let row: usize = self.num_considered[i];
                    assert(self.considered@[row as int]@.len() == self.num_simulations);
                    let threshold: usize = self.considered[row][self.sim_step];
                    self.trees[i].gumbel_root_select(scores, threshold)
                } else {
                    self.trees[i].improved_policy_select(node, scores)
                }
            },
        };
        self.trees[i].descend(child);
        assert(self.trees@[i as int].path@.drop_last() =~= before.path@);
        proof {
            assert forall|j: int| 0 <= j < self.trees@.len() implies tree_wf(
                #[trigger] self.trees@[j],
                self.action_space as int,
                self.root_visits as int,
                self.sim_step as int,
                j,
                self.trees@.len() as int,
                self.arena_len as int,
            ) && self.trees@[j].walking() by {
                assert(tree_wf(
                    old(self).trees@[j],
                    self.action_space as int,
                    self.root_visits as int,
                    self.sim_step as int,
                    j,
                    self.trees@.len() as int,
                    self.arena_len as int,
                ) && old(self).trees@[j].walking());
            }
        }
    }

    /// What the network is to predict: for each tree the row of the hidden state of the
    /// last node but one of its walk, and the action that leads to the last one.
    pub fn requests(&self) -> (requests: (Vec<i64>, Vec<i64>))
        requires
            self.walking(),
            self.all_at_leaf(),
        ensures
            requests.0@.len() == self.trees@.len(),
            requests.1@.len() == self.trees@.len(),
            forall|i: int|
                0 <= i < self.trees@.len() ==> {
                    let tree = #[trigger] self.trees@[i];
                    let parent = tree.path@[tree.path@.len() - 2] as int;
                    &&& tree.path@.len() >= 2
                    &&& requests.0@[i] == tree.nodes@[parent].hidden_row
                    &&& requests.1@[i] == tree.nodes@[tree.path@.last() as int].action
                    &&& requests.0@[i] < self.arena_len
                    &&& requests.0@[i] as int % self.trees@.len() as int == i
                    &&& 0 <= requests.1@[i] < self.action_space
                },
    {
        let mut rows: Vec<i64> = Vec::new();
        let mut actions: Vec<i64> = Vec::new();
        let mut i: usize = 0;
        while i < self.trees.len()
            invariant
                i <= self.trees@.len(),
                self.walking(),
                self.all_at_leaf(),
                rows@.len() == i,
                actions@.len() == i,
                forall|j: int|
                    0 <= j < i ==> {
                        let tree = #[trigger] self.trees@[j];
                        let parent = tree.path@[tree.path@.len() - 2] as int;
                        &&& tree.path@.len() >= 2
                        &&& rows@[j] == tree.nodes@[parent].hidden_row
                        &&& actions@[j] == tree.nodes@[tree.path@.last() as int].action
                        &&& rows@[j] < self.arena_len
                        &&& rows@[j] as int % self.trees@.len() as int == j
                        &&& 0 <= actions@[j] < self.action_space
                    },
            decreases self.trees@.len() - i,
        {
            let ghost tree = self.trees@[i as int];
            let tree_ref: &SearchTree = &self.trees[i];
            proof {
                assert(tree.walking() && tree.at_leaf());
                assert(tree_wf(
                    tree,
                    self.action_space as int,
                    self.root_visits as int,
                    self.sim_step as int,
                    i as int,
                    self.trees@.len() as int,
                    self.arena_len as int,
                ));
                lemma_walk_has_parent(tree);
                let parent = tree.path@[tree.path@.len() - 2] as int;
                let leaf = tree.path@.last() as int;
                assert(path_step(
                    tree.nodes@,
                    tree.action_space as int,
                    tree.path@,
                    tree.path@.len() - 2,
                ));
                let a = leaf - tree.nodes@[parent].first_child;
                assert(tree.nodes@[child_of(tree.nodes@, parent, a)].action == a);
                assert(self.arena_len <= (self.num_simulations + 1) * self.trees@.len())
                    by (nonlinear_arith)
                    requires
                        self.arena_len == (self.sim_step + 1) * self.trees@.len(),
                        self.sim_step <= self.num_simulations,
                        self.trees@.len() >= 0,
                ;
            }
            let len: usize = tree_ref.path.len();
            let parent: usize = tree_ref.path[len - 2];
            let leaf: usize = tree_ref.path[len - 1];
            rows.push(tree_ref.nodes[parent].hidden_row as i64);
            actions.push(tree_ref.nodes[leaf].action as i64);
            i = i + 1;
        }
        (rows, actions)
    }

    /// Ends a simulation of all trees with the network's predictions and the new sums of
    /// values along the walks.
    pub fn absorb(
        &mut self,
        rewards: &Vec<Single>,
        values: &Vec<Single>,
        priors: &Vec<Vec<Single>>,
        logits: &Vec<Vec<Single>>,
        cumulative: &Vec<Vec<Single>>,
    )
        requires
            old(self).walking(),
            old(self).all_at_leaf(),
            rewards@.len() == old(self).trees@.len(),
            values@.len() == old(self).trees@.len(),
            priors@.len() == old(self).trees@.len(),
            logits@.len() == old(self).trees@.len(),
            cumulative@.len() == old(self).trees@.len(),
            forall|i: int|
                0 <= i < old(self).trees@.len() ==> {
                    &&& (#[trigger] priors@[i])@.len() == old(self).action_space
                    &&& logits@[i]@.len() == old(self).action_space
                    &&& cumulative@[i]@.len() == old(self).trees@[i].path@.len()
                },
        ensures
            final(self).wf(),
            final(self).same_but_trees(old(self)),
            final(self).sim_step == old(self).sim_step + 1,
            final(self).arena_len == old(self).arena_len + old(self).trees@.len(),
            forall|i: int|
                0 <= i < old(self).trees@.len() ==> backed_up(
                    after_expansion(
                        old(self).trees@[i].nodes@,
                        old(self).trees@[i].path@.last() as int,
                        (old(self).arena_len + i) as usize,
                        rewards@[i],
                        values@[i],
                        priors@[i]@,
                        logits@[i]@,
                    ),
                    (#[trigger] final(self).trees@[i]).nodes@,
                    old(self).trees@[i].path@,
                    cumulative@[i]@,
                ) && final(self).trees@[i].path@ == old(self).trees@[i].path@,
    {
        let ghost n = self.trees@.len() as int;
        let ghost action_space = self.action_space as int;
        let ghost step = self.sim_step as int;
        proof {
            lemma_sizes(step, self.num_simulations as int, action_space, n);
        }
        let mut i: usize = 0;
        while i < self.trees.len()
            invariant
                i <= n,
                n == self.trees@.len(),
                n == old(self).trees@.len(),
                action_space == old(self).action_space,
                step == old(self).sim_step,
                old(self).walking(),
                old(self).all_at_leaf(),
                self.same_but_trees(old(self)),
                self.sim_step == old(self).sim_step,
                self.arena_len == old(self).arena_len,
                self.arena_len == (step + 1) * n,
                (step + 1) * n + n <= usize::MAX,
                1 + (step + 1) * action_space + action_space <= usize::MAX,
                (step + 1) * action_space + action_space == (step + 1 + 1) * action_space,
                step + 1 < usize::MAX,
                self.root_visits <= 1,
                rewards@.len() == n,
                values@.len() == n,
                priors@.len() == n,
                logits@.len() == n,
                cumulative@.len() == n,
                forall|j: int|
                    0 <= j < n ==> {
                        &&& (#[trigger] priors@[j])@.len() == action_space
                        &&& logits@[j]@.len() == action_space
                        &&& cumulative@[j]@.len() == old(self).trees@[j].path@.len()
                    },
                forall|j: int|
                    i <= j < n ==> #[trigger] self.trees@[j] == old(self).trees@[j],
                forall|j: int|
                    0 <= j < i ==> tree_wf(
                        #[trigger] self.trees@[j],
                        action_space,
                        self.root_visits as int,
                        step + 1,
                        j,
                        n,
                        self.arena_len + n,
                    ) && backed_up(
                        after_expansion(
                            old(self).trees@[j].nodes@,
                            old(self).trees@[j].path@.last() as int,
                            (old(self).arena_len + j) as usize,
                            rewards@[j],
                            values@[j],
                            priors@[j]@,
                            logits@[j]@,
                        ),
                        self.trees@[j].nodes@,
                        old(self).trees@[j].path@,
                        cumulative@[j]@,
                    ) && self.trees@[j].path@ == old(self).trees@[j].path@,
            decreases n - i,
        {
            let ghost tree = self.trees@[i as int];
            assert(tree == old(self).trees@[i as int]);
            assert(tree.walking() && tree.at_leaf());
            assert(tree_wf(
                tree,
                action_space,
                self.root_visits as int,
                step,
                i as int,
                n,
                self.arena_len as int,
            ));
            assert(priors@[i as int]@.len() == action_space);
            let row: usize = self.arena_len + i;
            self.trees[i].expand_and_back_up(
                row,
                rewards[i],
                values[i],
                &priors[i],
                &logits[i],
                &cumulative[i],
            );
            proof {
                lemma_rows_after_simulation(
                    tree.nodes@,
                    self.trees@[i as int].nodes@,
                    tree.path@,
                    row,
                    rewards@[i as int],
                    values@[i as int],
                    priors@[i as int]@,
                    logits@[i as int]@,
                    cumulative@[i as int]@,
                    i as int,
                    n,
                    self.arena_len as int,
                    step,
                );
            }
            i = i + 1;
        }
        let count: usize = self.trees.len();
        self.arena_len = self.arena_len + count;
        self.sim_step = self.sim_step + 1;
        proof {
            assert((step + 1 + 1) * n == (step + 1) * n + n) by (nonlinear_arith);
        }
    }

    /// The outcomes of the whole batch: the forced ones, and those of the trees in order.
    pub fn results(&self, mut outcomes: Vec<SearchReturn>, values: &Vec<Single>) -> (results: Vec<
        SearchReturn,
    >)
        requires
            self.wf(),
            outcomes@.len() == self.trees@.len(),
            values@.len() == self.forced@.len(),
        ensures
            results@.len() == self.forced@.len(),
            forall|i: int|
                0 <= i < self.forced@.len() ==> (#[trigger] self.forced@[i] matches Some(a) ==> {
                    &&& results@[i].best_action == a
                    &&& results@[i].value == values@[i]
                    &&& results@[i].distribution@ == one_hot_spec(
                        a as int,
                        self.action_space as nat,
                    )
                    &&& results@[i].policy_target@ == one_hot_spec(
                        a as int,
                        self.action_space as nat,
                    )
                }),
            forall|k: int|
                0 <= k < self.active@.len() ==> results@[#[trigger] self.active@[k] as int]
                    == outcomes@[k],
    {
        let ghost given = outcomes@;
        let mut backwards: Vec<SearchReturn> = Vec::new();
        let mut i: usize = self.forced.len();
        while i > 0
            invariant
                i <= self.forced@.len(),
                self.wf(),
                given.len() == self.trees@.len(),
                values@.len() == self.forced@.len(),
                backwards@.len() == self.forced@.len() - i,
                outcomes@ == given.take(open_rows(self.forced@, i as int).len() as int),
                open_rows(self.forced@, i as int).len() <= given.len(),
                is_prefix(open_rows(self.forced@, i as int), self.active@),
                forall|j: int|
                    i <= j < self.forced@.len() ==> (#[trigger] self.forced@[j] matches Some(a)
                        ==> forced_outcome(
                        backwards@[self.forced@.len() - 1 - j],
                        a as int,
                        self.action_space as nat,
                        values@[j],
                    )),
                forall|k: int|
                    open_rows(self.forced@, i as int).len() <= k < self.active@.len() ==> i
                        <= #[trigger] self.active@[k] < self.forced@.len() && backwards@[self.forced@.len()
                        - 1 - self.active@[k]] == given[k],
            decreases i,
        {
            let ghost rows = open_rows(self.forced@, i as int);
            i = i - 1;
            match self.forced[i] {
                Some(a) => {
                    backwards.push(forced_result(a, self.action_space, values[i]));
                },
                None => {
                    assert(rows == open_rows(self.forced@, i as int).push(i));
                    assert(self.active@[rows.len() - 1] == rows[rows.len() - 1]);
                    let outcome: Option<SearchReturn> = outcomes.pop();
                    match outcome {
                        Some(r) => {
                            backwards.push(r);
                        },
                        None => {},
                    }
                    assert(outcomes@ =~= given.take(rows.len() - 1));
                },
            }
        }
        let mut results: Vec<SearchReturn> = Vec::new();
        let ghost reversed = backwards@;
        while backwards.len() > 0
            invariant
                reversed.len() == self.forced@.len(),
                backwards@ == reversed.take(backwards@.len() as int),
                backwards@.len() + results@.len() == reversed.len(),
                forall|j: int|
                    0 <= j < results@.len() ==> #[trigger] results@[j] == reversed[reversed.len() - 1
                        - j],
            decreases backwards@.len(),
        {
            match backwards.pop() {
                Some(r) => {
                    results.push(r);
                },
                None => {},
            }
        }
        results
    }
}

/// Whether an outcome is that of the one legal action.
pub open spec fn forced_outcome(
    r: SearchReturn,
    action: int,
    action_space: nat,
    value: Single,
) -> bool {
    &&& r.best_action == action
    &&& r.value == value
    &&& r.distribution@ == one_hot_spec(action, action_space)
    &&& r.policy_target@ == one_hot_spec(action, action_space)
}

spec fn is_prefix(a: Seq<usize>, b: Seq<usize>) -> bool {
    a.len() <= b.len() && forall|k: int| 0 <= k < a.len() ==> #[trigger] b[k] == a[k]
}

proof fn lemma_sizes(step: int, num_simulations: int, action_space: int, n: int)
    requires
        0 <= step < num_simulations,
        n >= 0,
        action_space >= 1,
        sizes_fit(num_simulations, action_space, n),
    ensures
        (step + 1) * n + n <= usize::MAX,
        1 + (step + 1) * action_space + action_space <= usize::MAX,
        (step + 1) * action_space + action_space == (step + 1 + 1) * action_space,
        step + 1 < usize::MAX,
{
    assert((step + 1) * n + n <= (num_simulations + 1) * n) by (nonlinear_arith)
        requires
            step + 1 <= num_simulations,
            n >= 0,
    ;
    assert((step + 1) * action_space + action_space <= (num_simulations + 1) * action_space)
        by (nonlinear_arith)
        requires
            step + 1 <= num_simulations,
            action_space >= 0,
    ;
    assert((step + 1) * action_space + action_space == (step + 1 + 1) * action_space)
        by (nonlinear_arith);
}

/// A walk that ends at an unexpanded node has left the root.
proof fn lemma_walk_has_parent(tree: SearchTree)
    requires
        tree.walking(),
        tree.at_leaf(),
    ensures
        tree.path@.len() >= 2,
{
    if tree.path@.len() == 1 {
        assert(expanded(tree.nodes@, tree.path@[0] as int));
    }
}

/// Where a legal action has a score above negative infinity, no search by scores goes
/// into an illegal one; and sequential halving never does where some action is legal.
pub proof fn search_keeps_to_legal_actions(
    algorithm: SearchAlgorithm,
    nodes: Seq<BatchNode>,
    i: int,
    scores: Seq<Single>,
    threshold: usize,
    child: int,
    witness: int,
)
    requires
        chosen_child(algorithm, nodes, i, scores, threshold, child),
        0 <= witness < scores.len(),
        nodes[child_of(nodes, i, witness)].legal,
        algorithm is Gumbel && i == 0 || Single::neg_infinity_spec().lt_spec(scores[witness]),
    ensures
        nodes[child].legal,
{
    if algorithm is Gumbel && i == 0 {
        let allowed = choosable(nodes, 0, scores.len() as int, Some(threshold));
        let legal = |b: int| nodes[child_of(nodes, i, b)].legal;
        let a = child - nodes[0].first_child;
        assert(child_of(nodes, 0, a) == child);
        if none_best(scores, allowed) {
            assert(legal(witness));
        } else {
            assert(allowed[a]);
        }
    } else {
        let allowed = choosable(nodes, i, scores.len() as int, None);
        let a = child - nodes[i].first_child;
        assert(child_of(nodes, i, a) == child);
        assert(allowed[witness]);
        assert(!none_best(scores, allowed));
    }
}

/// A simulation that leaves the root by a legal action leaves the illegal ones
/// unvisited.
pub proof fn legal_walks_leave_illegal_actions_unvisited(
    tree: SearchTree,
    after: Seq<BatchNode>,
    hidden_row: usize,
    reward: Single,
    value: Single,
    priors: Seq<Single>,
    logits: Seq<Single>,
    cumulative: Seq<Single>,
)
    requires
        tree.walking(),
        tree.at_leaf(),
        illegal_unvisited(tree.nodes@, tree.action_space as int),
        tree.nodes@[tree.path@[1] as int].legal,
        backed_up(
            after_expansion(
                tree.nodes@,
                tree.path@.last() as int,
                hidden_row,
                reward,
                value,
                priors,
                logits,
            ),
            after,
            tree.path@,
            cumulative,
        ),
    ensures
        illegal_unvisited(after, tree.action_space as int),
{
    let nodes = tree.nodes@;
    let path = tree.path@;
    let grown = after_expansion(
        nodes,
        path.last() as int,
        hidden_row,
        reward,
        value,
        priors,
        logits,
    );
    lemma_walk_has_parent(tree);
    assert(expanded(nodes, 0));
    assert(after[path[0] as int].first_child == grown[0].first_child);
    assert(grown[0].first_child == 1) by {
        if path.last() == 0 {
            assert(expanded(nodes, 0));
        }
    }
    assert forall|a: int|
        0 <= a < tree.action_space && !(#[trigger] root_child(after, a)).legal implies root_child(
        after,
        a,
    ).visits == 0 by {
        let c = child_of(nodes, 0, a);
        assert(root_child(after, a) == after[c]);
        if on_path(path, c) {
            let k = choose|k: int| 0 <= k < path.len() && #[trigger] path[k] == c;
            assert(after[path[k] as int].legal == grown[c].legal);
            crate::tree::lemma_path_enters_block(nodes, tree.action_space as int, path, 0, k);
            if k != 1 {
                crate::tree::lemma_path_increases(nodes, tree.action_space as int, path, 0, k - 1);
            }
        } else {
            assert(after[c] == grown[c]);
            assert(root_child(nodes, a) == nodes[c]);
            assert(!root_child(nodes, a).legal);
        }
    }
}

} // verus!
