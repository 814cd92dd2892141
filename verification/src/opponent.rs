//! Benchmark opponents: random moves, and alpha-beta search over any board game.
use vstd::prelude::*;
use crate::rng::{Dice, Rng, advanced, drawn_below, drawn_order, fisher_yates, mixed, state_after};
use crate::single::Single;
use crate::tree::{first_best, none_best};

verus! {

/// What a move led to, as the side that moved sees it.
#[derive(Clone, Copy, Debug, PartialEq, Eq, Structural)]
pub struct StepResult {
    pub reward: Single,
    /// The reward, scaled past any static evaluation, so that a proven result always
    /// outweighs one.
    pub score: Single,
    pub done: bool,
    pub truncated: bool,
}

impl StepResult {
    /// Whether the game is over.
    pub open spec fn over(self) -> bool {
        self.done || self.truncated
    }
}

/// A two-player game that the benchmark opponents can search.
pub trait BoardGame: Sized {
    /// Which actions are legal.
    open spec fn legal_spec(&self) -> Seq<bool> {
        arbitrary()
    }

    /// The static evaluation.
    open spec fn heuristic_spec(&self) -> Single {
        arbitrary()
    }

    /// The position after an action.
    open spec fn next_spec(&self, action: int) -> Self {
        arbitrary()
    }

    /// What an action leads to.
    open spec fn result_spec(&self, action: int) -> StepResult {
        arbitrary()
    }

    /// The position that games start from.
    open spec fn initial_spec() -> Self {
        arbitrary()
    }

    /// The most plies that a game may take.
    open spec fn max_steps_spec() -> usize {
        arbitrary()
    }

    /// The position that games start from.
    fn initial() -> (env: Self)
        ensures
            env == Self::initial_spec(),
    ;

    /// The most plies that a game may take.
    fn max_steps() -> (n: usize)
        ensures
            n == Self::max_steps_spec(),
    ;

    /// Which actions the side to move may play.
    fn legal_mask(&self) -> (mask: Vec<bool>)
        ensures
            mask@ == self.legal_spec(),
    ;

    /// A static evaluation from the side to move, roughly between minus one and one.
    fn heuristic(&self) -> (h: Single)
        ensures
            h == self.heuristic_spec(),
    ;

    /// The position after a legal action, and what the action led to.
    fn step(&self, action: usize) -> (next: (Self, StepResult))
        requires
            action < self.legal_spec().len(),
            self.legal_spec()[action as int],
        ensures
            next.0 == self.next_spec(action as int),
            next.1 == self.result_spec(action as int),
    ;
}

/// The legal ones among the first `end` actions, in order.
pub open spec fn legal_list(mask: Seq<bool>, end: int) -> Seq<usize>
    decreases end,
{
    if end <= 0 {
        Seq::empty()
    } else if mask[end - 1] {
        legal_list(mask, end - 1).push((end - 1) as usize)
    } else {
        legal_list(mask, end - 1)
    }
}

/// The legal actions of a mask, in order.
pub fn legal_actions(mask: &[bool]) -> (actions: Vec<usize>)
    ensures
        actions@ == legal_list(mask@, mask@.len() as int),
{
    let mut actions: Vec<usize> = Vec::new();
    let mut a: usize = 0;
    while a < mask.len()
        invariant
            a <= mask@.len(),
            actions@ == legal_list(mask@, a as int),
        decreases mask@.len() - a,
    {
        if mask[a] {
            actions.push(a);
        }
        a = a + 1;
    }
    actions
}

/// The list holds just the legal actions, in ascending order.
pub proof fn legal_list_is_exact(mask: Seq<bool>, end: int)
    requires
        0 <= end <= mask.len(),
        mask.len() <= usize::MAX,
    ensures
        legal_list(mask, end).len() <= end,
        forall|k: int|
            0 <= k < legal_list(mask, end).len() ==> #[trigger] legal_list(mask, end)[k] < end
                && mask[legal_list(mask, end)[k] as int],
        forall|a: int|
            0 <= a < end && #[trigger] mask[a] ==> exists|k: int|
                0 <= k < legal_list(mask, end).len() && legal_list(mask, end)[k] == a,
        forall|k: int, l: int|
            0 <= k < l < legal_list(mask, end).len() ==> #[trigger] legal_list(mask, end)[k]
                < #[trigger] legal_list(mask, end)[l],
    decreases end,
{
    if end > 0 {
        legal_list_is_exact(mask, end - 1);
        let before = legal_list(mask, end - 1);
        let list = legal_list(mask, end);
        assert forall|a: int| 0 <= a < end && #[trigger] mask[a] implies exists|k: int|
            0 <= k < list.len() && list[k] == a by {
            if a < end - 1 {
                let k = choose|k: int| 0 <= k < before.len() && before[k] == a;
                assert(list[k] == a);
            } else {
                assert(list[list.len() - 1] == a);
            }
        }
    }
}

/// What an action is worth to the side that plays it, searched `depth` plies further
/// without pruning.
pub open spec fn child_value<E: BoardGame>(env: E, action: int, depth: nat) -> Single {
    if env.result_spec(action).over() {
        env.result_spec(action).score
    } else {
        plain_value(env.next_spec(action), depth).neg_spec()
    }
}

/// What a position is worth to the side to move, searched `depth` plies deep without
/// pruning.
pub open spec fn plain_value<E: BoardGame>(env: E, depth: nat) -> Single
    decreases depth, env.legal_spec().len() + 1,
{
    if depth == 0 || legal_list(env.legal_spec(), env.legal_spec().len() as int).len() == 0 {
        env.heuristic_spec()
    } else {
        best_upto(env, depth, env.legal_spec().len() as int)
    }
}

/// The largest worth of the legal ones among the first `end` actions.
pub open spec fn best_upto<E: BoardGame>(env: E, depth: nat, end: int) -> Single
    decreases depth, end,
{
    if end <= 0 || depth == 0 {
        Single::neg_infinity_spec()
    } else if !env.legal_spec()[end - 1] {
        best_upto(env, depth, end - 1)
    } else {
        best_upto(env, depth, end - 1).max_spec(
            if env.result_spec(end - 1).over() {
                env.result_spec(end - 1).score
            } else {
                plain_value(env.next_spec(end - 1), (depth - 1) as nat).neg_spec()
            },
        )
    }
}

/// A position that one action leads to.
pub struct Child<E> {
    pub action: usize,
    pub env: E,
    /// The score of the action, where it ends the game.
    pub terminal: Option<Single>,
}

/// The child of a position for an action.
pub open spec fn child_spec<E: BoardGame>(env: E, action: usize) -> Child<E> {
    Child {
        action,
        env: env.next_spec(action as int),
        terminal: if env.result_spec(action as int).over() {
            Some(env.result_spec(action as int).score)
        } else {
            None
        },
    }
}

/// The children of a position, in the order of the actions.
pub open spec fn children_spec<E: BoardGame>(env: E) -> Seq<Child<E>> {
    let list = legal_list(env.legal_spec(), env.legal_spec().len() as int);
    Seq::new(list.len(), |k: int| child_spec(env, list[k]))
}

/// What a child seems worth to its parent's side at first sight.
pub open spec fn hint_spec<E: BoardGame>(child: Child<E>) -> Single {
    match child.terminal {
        Some(score) => score,
        None => child.env.heuristic_spec().neg_spec(),
    }
}

/// The hints of the children of a position.
pub open spec fn hints_spec<E: BoardGame>(env: E) -> Seq<Single> {
    children_spec(env).map_values(|c: Child<E>| hint_spec(c))
}

/// Whether `order` lists the same numbers as `start`, those with the larger hints first,
/// and numbers with equal hints in the order of `start`.
pub open spec fn stable_order(hints: Seq<Single>, start: Seq<usize>, order: Seq<usize>) -> bool {
    &&& order.to_multiset() == start.to_multiset()
    &&& forall|k: int, l: int|
        0 <= k < l < order.len() ==> comes_before(
            hints,
            start,
            #[trigger] order[k],
            #[trigger] order[l],
        )
}

/// Whether `x` comes before `y`: by a larger hint, or by its place in `start`.
pub open spec fn comes_before(hints: Seq<Single>, start: Seq<usize>, x: usize, y: usize) -> bool {
    ||| hints[x as int].total_rank() > hints[y as int].total_rank()
    ||| hints[x as int].total_rank() == hints[y as int].total_rank() && start.index_of(x)
        < start.index_of(y)
}

/// Numbers can be put in order in one way alone.
pub proof fn order_is_unique(hints: Seq<Single>, start: Seq<usize>, a: Seq<usize>, b: Seq<usize>)
    requires
        stable_order(hints, start, a),
        stable_order(hints, start, b),
    ensures
        a == b,
{
    lemma_one_order(hints, start, a, b);
}

proof fn lemma_one_order(hints: Seq<Single>, start: Seq<usize>, a: Seq<usize>, b: Seq<usize>)
    requires
        a.to_multiset() == b.to_multiset(),
        forall|k: int, l: int|
            0 <= k < l < a.len() ==> comes_before(
                hints,
                start,
                #[trigger] a[k],
                #[trigger] a[l],
            ),
        forall|k: int, l: int|
            0 <= k < l < b.len() ==> comes_before(
                hints,
                start,
                #[trigger] b[k],
                #[trigger] b[l],
            ),
    ensures
        a == b,
    decreases a.len(),
{
    broadcast use vstd::seq_lib::group_to_multiset_ensures;

    assert(a.to_multiset().len() == a.len());
    assert(b.to_multiset().len() == b.len());
    if a.len() > 0 {
        assert(b.contains(a[0])) by {
            assert(b.to_multiset().count(a[0]) > 0) by {
                assert(a.contains(a[0]));
            }
        }
        assert(a.contains(b[0])) by {
            assert(a.to_multiset().count(b[0]) > 0) by {
                assert(b.contains(b[0]));
            }
        }
        let k = choose|k: int| 0 <= k < b.len() && b[k] == a[0];
        let l = choose|l: int| 0 <= l < a.len() && a[l] == b[0];
        if a[0] != b[0] {
            assert(comes_before(hints, start, b[0], b[k]));
            assert(comes_before(hints, start, a[0], a[l]));
        }
        let c = a.remove(0);
        let d = b.remove(0);
        assert(c.to_multiset() =~= d.to_multiset());
        lemma_one_order(hints, start, c, d);
        assert(a =~= seq![a[0]] + c);
        assert(b =~= seq![b[0]] + d);
    }
}

/// There is one action alone to play in an order.
pub proof fn best_in_order_is_unique<E: BoardGame>(
    env: E,
    order: Seq<usize>,
    depth: nat,
    a: int,
    b: int,
)
    requires
        best_in_order(env, order, depth, a),
        best_in_order(env, order, depth, b),
    ensures
        a == b,
{
    let list = legal_list(env.legal_spec(), env.legal_spec().len() as int);
    let values = ordered_values(env, order, depth);
    let all = Seq::new(values.len(), |i: int| true);
    if !none_best(values, all) {
        let p = choose|p: int| #[trigger]
            first_best(values, all, p) && a == list[order[p] as int];
        let q = choose|q: int| #[trigger]
            first_best(values, all, q) && b == list[order[q] as int];
        assert(all[p] && all[q]);
    }
}

/// Whether `order` holds every number below `n` once.
pub open spec fn is_permutation(order: Seq<usize>, n: int) -> bool {
    &&& order.len() == n
    &&& order.no_duplicates()
    &&& forall|k: int| 0 <= k < order.len() ==> #[trigger] order[k] < n
    &&& forall|i: int| 0 <= i < n ==> order.contains(#[trigger] (i as usize))
}

/// The numbers below `n` in order.
pub open spec fn identity(n: nat) -> Seq<usize> {
    Seq::new(n, |i: int| i as usize)
}

pub(crate) proof fn lemma_permutation_from_multiset(order: Seq<usize>, start: Seq<usize>, n: int)
    requires
        is_permutation(start, n),
        order.to_multiset() == start.to_multiset(),
    ensures
        is_permutation(order, n),
{
    broadcast use vstd::seq_lib::group_to_multiset_ensures;

    start.lemma_multiset_has_no_duplicates();
    order.lemma_multiset_has_no_duplicates_conv();
    assert(order.len() == order.to_multiset().len());
    assert(start.len() == start.to_multiset().len());
    assert forall|k: int| 0 <= k < order.len() implies #[trigger] order[k] < n by {
        assert(order.contains(order[k]));
        assert(order.to_multiset().count(order[k]) > 0);
        assert(start.contains(order[k]));
    }
    assert forall|i: int| 0 <= i < n implies order.contains(#[trigger] (i as usize)) by {
        assert(start.contains(i as usize));
        assert(start.to_multiset().count(i as usize) > 0);
    }
}

pub(crate) proof fn lemma_identity_is_permutation(n: nat)
    requires
        n <= usize::MAX,
    ensures
        is_permutation(identity(n), n as int),
{
    assert forall|i: int| 0 <= i < n implies identity(n).contains(#[trigger] (i as usize)) by {
        assert(identity(n)[i] == i as usize);
    }
}

pub(crate) fn identity_order(n: usize) -> (order: Vec<usize>)
    ensures
        order@ == identity(n as nat),
        is_permutation(order@, n as int),
{
    let mut order: Vec<usize> = Vec::new();
    let mut i: usize = 0;
    while i < n
        invariant
            i <= n,
            order@ == identity(i as nat),
        decreases n - i,
    {
        order.push(i);
        i = i + 1;
        assert(order@ =~= identity(i as nat));
    }
    proof {
        lemma_identity_is_permutation(n as nat);
    }
    order
}

/// Sorts by hint, the largest first, and keeps the order of equals.
pub(crate) fn order(hints: &Vec<Single>, start: &Vec<usize>) -> (order: Vec<usize>)
    requires
        is_permutation(start@, hints@.len() as int),
    ensures
        stable_order(hints@, start@, order@),
        is_permutation(order@, hints@.len() as int),
{
    broadcast use vstd::seq_lib::group_to_multiset_ensures;

    let mut order: Vec<usize> = Vec::new();
    let mut i: usize = 0;
    assert(start@.take(0) =~= Seq::<usize>::empty());
    while i < start.len()
        invariant
            i <= start@.len(),
            start@.len() == hints@.len(),
            is_permutation(start@, hints@.len() as int),
            order@.len() == i,
            order@.to_multiset() == start@.take(i as int).to_multiset(),
            forall|k: int|
                0 <= k < order@.len() ==> #[trigger] order@[k] < hints@.len() && start@.index_of(
                    order@[k],
                ) < i,
            forall|k: int, l: int|
                0 <= k < l < order@.len() ==> comes_before(
                    hints@,
                    start@,
                    #[trigger] order@[k],
                    #[trigger] order@[l],
                ),
        decreases start@.len() - i,
    {
        let x: usize = start[i];
        let rank: i64 = hints[x].total_rank_number();
        let ghost before = order@;
        proof {
            assert(start@[start@.index_of(x)] == x);
            assert(start@.index_of(x) == i);
        }
        let mut j: usize = order.len();
        while j > 0 && hints[order[j - 1]].total_rank_number() < rank
            invariant
                j <= order@.len(),
                order@ == before,
                before.len() == i,
                x < hints@.len(),
                rank == hints@[x as int].total_rank(),
                forall|k: int| 0 <= k < order@.len() ==> #[trigger] order@[k] < hints@.len(),
                forall|k: int|
                    j <= k < order@.len() ==> hints@[#[trigger] order@[k] as int].total_rank()
                        < rank,
            decreases j,
        {
            j = j - 1;
        }
        order.insert(j, x);
        proof {
            assert(start@.take(i + 1) =~= start@.take(i as int).push(x));
            vstd::seq_lib::to_multiset_build(start@.take(i as int), x);
            vstd::seq_lib::to_multiset_insert(before, j as int, x);
            assert forall|k: int| 0 <= k < order@.len() implies #[trigger] order@[k] < hints@.len()
                && start@.index_of(order@[k]) < i + 1 by {
                if k < j {
                    assert(order@[k] == before[k]);
                } else if k > j {
                    assert(order@[k] == before[k - 1]);
                }
            }
            assert forall|k: int, l: int| 0 <= k < l < order@.len() implies comes_before(
                hints@,
                start@,
                #[trigger] order@[k],
                #[trigger] order@[l],
            ) by {
                if l < j {
                    assert(comes_before(hints@, start@, before[k], before[l]));
                } else if l == j {
                    // What stands before the gap has no smaller hint than `x`.
                    assert(order@[k] == before[k]);
                    if k < j - 1 {
                        assert(comes_before(hints@, start@, before[k], before[j - 1]));
                    }
                    assert(start@.index_of(before[k]) < i);
                } else if k < j {
                    assert(order@[k] == before[k] && order@[l] == before[l - 1]);
                    assert(comes_before(hints@, start@, before[k], before[l - 1]));
                } else if k == j {
                    assert(order@[l] == before[l - 1]);
                } else {
                    assert(comes_before(hints@, start@, before[k - 1], before[l - 1]));
                }
            }
        }
        i = i + 1;
    }
    proof {
        assert(start@.take(start@.len() as int) =~= start@);
        lemma_permutation_from_multiset(order@, start@, hints@.len() as int);
    }
    order
}

/// The children of a position.
fn expand<E: BoardGame>(env: &E) -> (children: Vec<Child<E>>)
    ensures
        children@ == children_spec(*env),
        env.legal_spec().len() <= usize::MAX,
{
    let mask: Vec<bool> = env.legal_mask();
    let list: Vec<usize> = legal_actions(mask.as_slice());
    let ghost whole = children_spec(*env);
    assert(mask@.len() == mask.len());
    let mut children: Vec<Child<E>> = Vec::new();
    let mut k: usize = 0;
    while k < list.len()
        invariant
            k <= list@.len(),
            mask@ == env.legal_spec(),
            mask@.len() <= usize::MAX,
            list@ == legal_list(mask@, mask@.len() as int),
            whole == children_spec(*env),
            children@ == whole.take(k as int),
        decreases list@.len() - k,
    {
        let action: usize = list[k];
        proof {
            legal_list_is_exact(mask@, mask@.len() as int);
        }
        let (next, result): (E, StepResult) = env.step(action);
        let terminal: Option<Single> = if result.done || result.truncated {
            Some(result.score)
        } else {
            None
        };
        children.push(Child { action, env: next, terminal });
        k = k + 1;
        assert(children@ =~= whole.take(k as int));
    }
    assert(children@ =~= whole);
    children
}

fn hint<E: BoardGame>(child: &Child<E>) -> (h: Single)
    ensures
        h == hint_spec(*child),
{
    match child.terminal {
        Some(score) => score,
        None => child.env.heuristic().negated(),
    }
}

fn hints<E: BoardGame>(children: &Vec<Child<E>>) -> (hints: Vec<Single>)
    ensures
        hints@ == children@.map_values(|c: Child<E>| hint_spec(c)),
{
    let mut hints: Vec<Single> = Vec::new();
    let ghost whole = children@.map_values(|c: Child<E>| hint_spec(c));
    let mut k: usize = 0;
    while k < children.len()
        invariant
            k <= children@.len(),
            whole == children@.map_values(|c: Child<E>| hint_spec(c)),
            hints@ == whole.take(k as int),
        decreases children@.len() - k,
    {
        hints.push(hint(&children[k]));
        k = k + 1;
        assert(hints@ =~= whole.take(k as int));
    }
    assert(hints@ =~= whole);
    hints
}

/// What the best of the legal actions is worth: no legal action is worth more, and one
/// is worth as much unless none is worth more than negative infinity.
proof fn lemma_best_upto<E: BoardGame>(env: E, depth: nat, end: int)
    requires
        depth > 0,
        0 <= end <= env.legal_spec().len(),
    ensures
        !best_upto(env, depth, end).nan(),
        forall|a: int|
            0 <= a < end && #[trigger] env.legal_spec()[a] ==> !best_upto(env, depth, end).lt_spec(
                child_value(env, a, (depth - 1) as nat),
            ),
        best_upto(env, depth, end).rank() == Single::neg_infinity_spec().rank() || exists|a: int|
            {
                &&& 0 <= a < end
                &&& #[trigger] env.legal_spec()[a]
                &&& child_value(env, a, (depth - 1) as nat).eq_value_spec(
                    best_upto(env, depth, end),
                )
            },
        best_upto(env, depth, end).rank() >= Single::neg_infinity_spec().rank(),
    decreases end,
{
    if end > 0 {
        lemma_best_upto(env, depth, end - 1);
        let before = best_upto(env, depth, end - 1);
        let best = best_upto(env, depth, end);
        if env.legal_spec()[end - 1] {
            let value = child_value(env, end - 1, (depth - 1) as nat);
            assert(best == before.max_spec(value));
            if before.lt_spec(value) {
                assert(env.legal_spec()[end - 1]);
            } else if before.rank() != Single::neg_infinity_spec().rank() {
                let a = choose|a: int|
                    {
                        &&& 0 <= a < end - 1
                        &&& #[trigger] env.legal_spec()[a]
                        &&& child_value(env, a, (depth - 1) as nat).eq_value_spec(before)
                    };
                assert(env.legal_spec()[a]);
            }
        } else if before.rank() != Single::neg_infinity_spec().rank() {
            let a = choose|a: int|
                {
                    &&& 0 <= a < end - 1
                    &&& #[trigger] env.legal_spec()[a]
                    &&& child_value(env, a, (depth - 1) as nat).eq_value_spec(before)
                };
            assert(env.legal_spec()[a]);
        }
    }
}

/// What a pruned search may return for a position worth `value`: the value itself
/// where it lies between `alpha` and `beta`, otherwise a bound on it on the same side.
pub open spec fn agrees(found: Single, value: Single, alpha: Single, beta: Single) -> bool {
    ||| found.nan() && value.nan()
    ||| {
        &&& !found.nan()
        &&& !value.nan()
        &&& found.rank() < beta.rank() ==> value.rank() <= found.rank()
        &&& alpha.rank() < found.rank() ==> found.rank() <= value.rank()
    }
}

/// Whether `alpha` and `beta` leave something between them.
pub open spec fn open_window(alpha: Single, beta: Single) -> bool {
    &&& !alpha.nan()
    &&& !beta.nan()
    &&& alpha.rank() < beta.rank()
}

/// The value of child `k` of a position.
pub open spec fn kid_value<E: BoardGame>(env: E, k: int, depth: nat) -> Single {
    child_value(
        env,
        legal_list(env.legal_spec(), env.legal_spec().len() as int)[k] as int,
        depth,
    )
}

/// Alpha-beta search: what a position is worth to the side to move, exact between the
/// two bounds.
pub fn negamax<E: BoardGame>(env: &E, depth: usize, alpha: Single, beta: Single) -> (found: Single)
    ensures
        open_window(alpha, beta) ==> agrees(found, plain_value(*env, depth as nat), alpha, beta),
    decreases depth,
{
    if depth == 0 {
        return env.heuristic();
    }
    let children: Vec<Child<E>> = expand(env);
    if children.len() == 0 {
        return env.heuristic();
    }
    let child_hints: Vec<Single> = hints(&children);
    let start: Vec<usize> = identity_order(child_hints.len());
    let sequence: Vec<usize> = order(&child_hints, &start);
    let ghost below = (depth - 1) as nat;
    let ghost open = open_window(alpha, beta);
    let mut best: Single = Single::neg_infinity();
    let mut floor: Single = alpha;
    let mut k: usize = 0;
    let ghost value_of = |p: int| kid_value(*env, sequence@[p] as int, below);
    while k < sequence.len()
        invariant_except_break
            open ==> floor.rank() < beta.rank(),
            open ==> (best.rank() < beta.rank() ==> forall|p: int|
                0 <= p < k ==> (#[trigger] value_of(p)).nan() || value_of(p).rank() <= best.rank()),
        invariant
            depth > 0,
            k <= sequence@.len(),
            children@ == children_spec(*env),
            children@.len() == child_hints@.len(),
            is_permutation(sequence@, child_hints@.len() as int),
            below == (depth - 1) as nat,
            value_of == (|p: int| kid_value(*env, sequence@[p] as int, below)),
            open == open_window(alpha, beta),
            !best.nan(),
            open ==> !floor.nan() && floor.rank() == if alpha.rank() < best.rank() {
                best.rank()
            } else {
                alpha.rank()
            },
            open ==> (alpha.rank() < best.rank() ==> exists|p: int|
                0 <= p < k && !(#[trigger] value_of(p)).nan() && best.rank() <= value_of(p).rank()),
        ensures
            open ==> (best.rank() < beta.rank() ==> forall|p: int|
                0 <= p < sequence@.len() ==> (#[trigger] value_of(p)).nan() || value_of(p).rank()
                    <= best.rank()),
        decreases sequence@.len() - k,
    {
        let child: &Child<E> = &children[sequence[k]];
        let ghost list = legal_list(env.legal_spec(), env.legal_spec().len() as int);
        assert(*child == child_spec(*env, list[sequence@[k as int] as int]));
        let value: Single = match child.terminal {
            Some(score) => score,
            None => negamax(&child.env, depth - 1, beta.negated(), floor.negated()).negated(),
        };
        let ghost exact = value_of(k as int);
        assert(open ==> ((value.nan() && exact.nan()) || (!value.nan() && !exact.nan() && (
        floor.rank() < value.rank() ==> value.rank() <= exact.rank()) && (value.rank()
            < beta.rank() ==> exact.rank() <= value.rank()))));
        let ghost old_best = best;
        if best.less(value) {
            best = value;
        }
        if floor.less(best) {
            floor = best;
        }
        proof {
            if open && alpha.rank() < best.rank() {
                if best == value && old_best.lt_spec(value) {
                    assert(!value_of(k as int).nan() && best.rank() <= value_of(k as int).rank());
                } else {
                    let p = choose|p: int|
                        0 <= p < k && !(#[trigger] value_of(p)).nan() && best.rank() <= value_of(
                            p,
                        ).rank();
                    assert(value_of(p).rank() >= best.rank());
                }
            }
        }
        k = k + 1;
        if floor.at_least(beta) {
            break ;
        }
    }
    proof {
        let list = legal_list(env.legal_spec(), env.legal_spec().len() as int);
        let end = env.legal_spec().len() as int;
        lemma_best_upto(*env, depth as nat, end);
        legal_list_is_exact(env.legal_spec(), end);
        let value = plain_value(*env, depth as nat);
        assert(value == best_upto(*env, depth as nat, end));
        if open {
            if alpha.rank() < best.rank() {
                let p = choose|p: int|
                    0 <= p < sequence@.len() && !(#[trigger] value_of(p)).nan() && best.rank()
                        <= value_of(p).rank();
                let a = list[sequence@[p] as int] as int;
                assert(env.legal_spec()[a]);
                assert(value_of(p) == child_value(*env, a, below));
            }
            if best.rank() < beta.rank() && value.rank() != Single::neg_infinity_spec().rank() {
                let a = choose|a: int|
                    {
                        &&& 0 <= a < end
                        &&& #[trigger] env.legal_spec()[a]
                        &&& child_value(*env, a, below).eq_value_spec(value)
                    };
                let i = choose|i: int| 0 <= i < list.len() && list[i] == a;
                assert(sequence@.contains(i as usize));
                let p = choose|p: int| 0 <= p < sequence@.len() && sequence@[p] == i as usize;
                assert(value_of(p) == child_value(*env, a, below));
            }
        }
    }
    best
}

/// The values of the children of a position, in a given order.
pub open spec fn ordered_values<E: BoardGame>(env: E, order: Seq<usize>, depth: nat) -> Seq<
    Single,
> {
    order.map_values(|k: usize| kid_value(env, k as int, depth))
}

/// Whether `action` is the one to play when the children are looked at in `order`: the
/// first with the greatest value without pruning, and the very first where no value is
/// above negative infinity.
pub open spec fn best_in_order<E: BoardGame>(
    env: E,
    order: Seq<usize>,
    depth: nat,
    action: int,
) -> bool {
    let list = legal_list(env.legal_spec(), env.legal_spec().len() as int);
    let values = ordered_values(env, order, depth);
    let all = Seq::new(values.len(), |i: int| true);
    if none_best(values, all) {
        action == list[order[0] as int]
    } else {
        exists|p: int| #[trigger] first_best(values, all, p) && action == list[order[p] as int]
    }
}

/// The move of alpha-beta search `depth` plies deep.
///
/// `start` breaks ties: of two children that seem and are worth the same, the one that
/// it names first is played.
pub fn alpha_beta_best<E: BoardGame>(env: &E, depth: usize, start: &Vec<usize>) -> (action: usize)
    requires
        depth >= 1,
        legal_list(env.legal_spec(), env.legal_spec().len() as int).len() >= 1,
        is_permutation(
            start@,
            legal_list(env.legal_spec(), env.legal_spec().len() as int).len() as int,
        ),
    ensures
        exists|order: Seq<usize>|
            #[trigger] stable_order(hints_spec(*env), start@, order) && best_in_order(
                *env,
                order,
                (depth - 1) as nat,
                action as int,
            ),
        action < env.legal_spec().len(),
        env.legal_spec()[action as int],
{
    let children: Vec<Child<E>> = expand(env);
    let child_hints: Vec<Single> = hints(&children);
    let sequence: Vec<usize> = order(&child_hints, start);
    let ghost below = (depth - 1) as nat;
    let ghost list = legal_list(env.legal_spec(), env.legal_spec().len() as int);
    let ghost values = ordered_values(*env, sequence@, below);
    let ghost all = Seq::new(values.len(), |i: int| true);
    let mut best_place: usize = 0;
    let mut best: Single = Single::neg_infinity();
    let mut k: usize = 0;
    let ghost mut found = false;
    while k < sequence.len()
        invariant
            depth >= 1,
            k <= sequence@.len(),
            children@ == children_spec(*env),
            children@.len() == list.len(),
            list == legal_list(env.legal_spec(), env.legal_spec().len() as int),
            is_permutation(sequence@, list.len() as int),
            below == (depth - 1) as nat,
            values == ordered_values(*env, sequence@, below),
            all == Seq::new(values.len(), |i: int| true),
            !best.nan(),
            best.rank() >= Single::neg_infinity_spec().rank(),
            !found ==> best_place == 0 && best == Single::neg_infinity_spec() && forall|p: int|
                0 <= p < k && #[trigger] all[p] ==> !Single::neg_infinity_spec().lt_spec(values[p]),
            found ==> {
                &&& best_place < k
                &&& best.eq_value_spec(values[best_place as int])
                &&& Single::neg_infinity_spec().lt_spec(values[best_place as int])
                &&& forall|p: int|
                    0 <= p < k && #[trigger] all[p] ==> !values[best_place as int].lt_spec(values[p])
                &&& forall|p: int|
                    0 <= p < best_place && #[trigger] all[p] ==> values[p].lt_spec(
                        values[best_place as int],
                    ) || values[p].nan()
            },
        decreases sequence@.len() - k,
    {
        let child: &Child<E> = &children[sequence[k]];
        assert(*child == child_spec(*env, list[sequence@[k as int] as int]));
        let value: Single = match child.terminal {
            Some(score) => score,
            None => negamax(
                &child.env,
                depth - 1,
                Single::neg_infinity(),
                best.negated(),
            ).negated(),
        };
        let ghost exact = values[k as int];
        assert(exact == kid_value(*env, sequence@[k as int] as int, below));
        proof {
            lemma_infinity_bounds(exact);
            lemma_infinity_bounds(value);
            lemma_infinity_bounds(best);
            assert(best.lt_spec(value) == best.lt_spec(exact));
            assert(best.lt_spec(value) ==> value.eq_value_spec(exact));
        }
        if best.less(value) {
            best = value;
            best_place = k;
            proof {
                found = true;
            }
        }
        k = k + 1;
    }
    proof {
        legal_list_is_exact(env.legal_spec(), env.legal_spec().len() as int);
        assert(child_hints@ == hints_spec(*env));
        if found {
            assert(first_best(values, all, best_place as int));
            assert(!none_best(values, all)) by {
                assert(all[best_place as int]);
            }
        } else {
            assert(none_best(values, all));
        }
        assert(best_in_order(
            *env,
            sequence@,
            below,
            list[sequence@[best_place as int] as int] as int,
        ));
        assert(stable_order(hints_spec(*env), start@, sequence@));
    }
    children[sequence[best_place]].action
}

/// Every number lies between the infinities.
proof fn lemma_infinity_bounds(a: Single)
    ensures
        !a.nan() ==> Single::neg_infinity_spec().rank() <= a.rank()
            <= Single::infinity_spec().rank(),
        Single::neg_infinity_spec().neg_spec() == Single::infinity_spec(),
        Single::neg_infinity_spec().rank() == -Single::infinity_spec().rank(),
        a.neg_spec().rank() == -a.rank(),
        a.neg_spec().nan() == a.nan(),
{
}

/// What a position is worth, searched without pruning.
pub fn plain_negamax<E: BoardGame>(env: &E, depth: usize) -> (value: Single)
    ensures
        value == plain_value(*env, depth as nat),
    decreases depth,
{
    if depth == 0 {
        return env.heuristic();
    }
    let mask: Vec<bool> = env.legal_mask();
    let list: Vec<usize> = legal_actions(mask.as_slice());
    if list.len() == 0 {
        return env.heuristic();
    }
    let mut best: Single = Single::neg_infinity();
    let mut a: usize = 0;
    while a < mask.len()
        invariant
            depth > 0,
            a <= mask@.len(),
            mask@ == env.legal_spec(),
            best == best_upto(*env, depth as nat, a as int),
        decreases mask@.len() - a,
    {
        if mask[a] {
            let (next, result): (E, StepResult) = env.step(a);
            let value: Single = if result.done || result.truncated {
                result.score
            } else {
                plain_negamax(&next, depth - 1).negated()
            };
            best = best.larger(value);
        }
        a = a + 1;
    }
    best
}

/// A search between two bounds finds the value without pruning where it lies between them,
/// and otherwise a bound on it: at or below the lower bound the value is no greater, at or
/// above the upper one no less. With nothing below or above the bounds, it finds the value.
pub proof fn bounded_search_agrees_with_plain_negamax<E: BoardGame>(
    env: E,
    depth: nat,
    alpha: Single,
    beta: Single,
    found: Single,
)
    requires
        alpha.lt_spec(beta),
        !env.heuristic_spec().nan(),
        agrees(found, plain_value(env, depth), alpha, beta),
    ensures
        alpha.lt_spec(found) && found.lt_spec(beta) ==> found.eq_value_spec(
            plain_value(env, depth),
        ),
        alpha.ge_spec(found) ==> found.ge_spec(plain_value(env, depth)),
        found.ge_spec(beta) ==> plain_value(env, depth).ge_spec(found),
        alpha == Single::neg_infinity_spec() && beta == Single::neg_infinity_spec().neg_spec()
            ==> found.eq_value_spec(plain_value(env, depth)),
{
    if depth > 0 {
        lemma_best_upto(env, depth, env.legal_spec().len() as int);
    }
}

/// Pruning changes nothing: the move that alpha-beta search plays is worth, without
/// pruning, as much as any legal move.
pub proof fn pruning_agrees_with_plain_negamax<E: BoardGame>(
    env: E,
    depth: nat,
    start: Seq<usize>,
    order: Seq<usize>,
    action: int,
    other: int,
)
    requires
        env.legal_spec().len() <= usize::MAX,
        is_permutation(
            start,
            legal_list(env.legal_spec(), env.legal_spec().len() as int).len() as int,
        ),
        stable_order(hints_spec(env), start, order),
        best_in_order(env, order, depth, action),
        0 <= other < env.legal_spec().len(),
        env.legal_spec()[other],
    ensures
        !child_value(env, action, depth).lt_spec(child_value(env, other, depth)),
{
    let list = legal_list(env.legal_spec(), env.legal_spec().len() as int);
    let values = ordered_values(env, order, depth);
    let all = Seq::new(values.len(), |i: int| true);
    lemma_permutation_from_multiset(order, start, list.len() as int);
    legal_list_is_exact(env.legal_spec(), env.legal_spec().len() as int);
    let i = choose|i: int| 0 <= i < list.len() && list[i] == other;
    assert(order.contains(i as usize));
    let q = choose|q: int| 0 <= q < order.len() && order[q] == i as usize;
    assert(all[q]);
    assert(values[q] == child_value(env, other, depth));
    if none_best(values, all) {
        lemma_infinity_bounds(child_value(env, action, depth));
    } else {
        let p = choose|p: int| #[trigger]
            first_best(values, all, p) && action == list[order[p] as int];
        assert(values[p] == child_value(env, action, depth));
    }
}

/// An opponent to measure an agent against.
#[derive(Clone, Copy, Debug, PartialEq, Eq, Structural)]
pub enum Opponent {
    /// Plays any legal move.
    Random,
    /// Searches `depth` plies, and now and then, with probability `epsilon`, plays any
    /// legal move.
    AlphaBeta { depth: usize, epsilon: Single },
}

/// The depth that a search goes to: at least one ply.
pub open spec fn search_depth(depth: usize) -> nat {
    if depth == 0 {
        1
    } else {
        depth as nat
    }
}

impl Opponent {
    /// The opponent of a strength: random play at depth 0, and alpha-beta search with a
    /// little noise at shallow depths, so that repeated games differ.
    pub fn from_depth(depth: u32) -> (opponent: Opponent)
        ensures
            opponent == (if depth == 0 {
                Opponent::Random
            } else {
                Opponent::AlphaBeta {
                    depth: depth as usize,
                    epsilon: Single {
                        bits: if depth <= 1 {
                            FIVE_HUNDREDTHS_BITS
                        } else if depth <= 3 {
                            TWO_HUNDREDTHS_BITS
                        } else {
                            0
                        },
                    },
                }
            }),
    {
        if depth == 0 {
            return Opponent::Random;
        }
        let bits: u32 = if depth <= 1 {
            FIVE_HUNDREDTHS_BITS
        } else if depth <= 3 {
            TWO_HUNDREDTHS_BITS
        } else {
            0
        };
        Opponent::AlphaBeta { depth: depth as usize, epsilon: Single::from_bits(bits) }
    }

    /// Whether the opponent's next move needs a draw from the unit interval.
    pub open spec fn needs_unit_spec(self) -> bool {
        match self {
            Opponent::Random => false,
            Opponent::AlphaBeta { depth: _, epsilon } => Single::zero_spec().lt_spec(epsilon),
        }
    }

    /// Whether the opponent plays any legal move, when `unit` was drawn.
    pub open spec fn plays_any_spec(self, unit: Single) -> bool {
        match self {
            Opponent::Random => true,
            Opponent::AlphaBeta { depth: _, epsilon } => Single::zero_spec().lt_spec(epsilon)
                && unit.lt_spec(epsilon),
        }
    }

    /// Whether the opponent's next move needs a draw from the unit interval.
    pub fn needs_unit(&self) -> (needs: bool)
        ensures
            needs == self.needs_unit_spec(),
    {
        match self {
            Opponent::Random => false,
            Opponent::AlphaBeta { depth: _, epsilon } => Single::zero().less(*epsilon),
        }
    }

    fn plays_any(&self, unit: Single) -> (any: bool)
        ensures
            any == self.plays_any_spec(unit),
    {
        match self {
            Opponent::Random => true,
            Opponent::AlphaBeta { depth: _, epsilon } => Single::zero().less(*epsilon)
                && unit.less(*epsilon),
        }
    }

    /// Whether an action is legal and, where the opponent searches, one that the search may
    /// come to: the best in an order that starts from some shuffle.
    pub open spec fn may_play<E: BoardGame>(self, env: E, unit: Single, action: int) -> bool {
        &&& 0 <= action < env.legal_spec().len()
        &&& env.legal_spec()[action]
        &&& !self.plays_any_spec(unit) ==> exists|start: Seq<usize>, order: Seq<usize>|
            {
                &&& is_permutation(
                    start,
                    legal_list(env.legal_spec(), env.legal_spec().len() as int).len() as int,
                )
                &&& #[trigger] stable_order(hints_spec(env), start, order)
                &&& best_in_order(env, order, (search_depth(self->depth) - 1) as nat, action)
            }
    }

    /// Whether an action is the one that the opponent plays when the generator's state is
    /// `seed`, and `seed_after` the state that it leaves.
    pub open spec fn plays<E: BoardGame>(
        self,
        env: E,
        unit: Single,
        seed: u64,
        action: int,
        seed_after: u64,
    ) -> bool {
        let list = legal_list(env.legal_spec(), env.legal_spec().len() as int);
        &&& list.len() > 0
        &&& if self.plays_any_spec(unit) {
            let drawn = drawn_below(seed, list.len() as usize, usize::BITS);
            &&& action == list[drawn.0 as int]
            &&& seed_after == drawn.1
        } else {
            let drawn = drawn_order(seed, identity(list.len()), usize::BITS);
            &&& seed_after == drawn.1
            &&& exists|order: Seq<usize>| #[trigger]
                stable_order(hints_spec(env), drawn.0, order) && best_in_order(
                    env,
                    order,
                    (search_depth(self->depth) - 1) as nat,
                    action,
                )
        }
    }

    /// A move of the opponent, by draws from the `fastrand` generator; none where no action
    /// is legal. `unit` is a draw from the unit interval, used where noise is on.
    ///
    /// Where the opponent searches, the move is one that no legal move betters.
    pub fn choose_move<E: BoardGame>(&self, env: &E, unit: Single, rng: &mut Dice) -> (action:
        Option<usize>)
        ensures
            action is None <==> legal_list(
                env.legal_spec(),
                env.legal_spec().len() as int,
            ).len() == 0,
            action is None ==> *final(rng) == *old(rng),
            action matches Some(a) ==> self.may_play(*env, unit, a as int) && self.plays(
                *env,
                unit,
                old(rng).seed,
                a as int,
                final(rng).seed,
            ),
    {
        let mask: Vec<bool> = env.legal_mask();
        let legal: Vec<usize> = legal_actions(mask.as_slice());
        proof {
            assert(mask@.len() == mask.len());
            legal_list_is_exact(mask@, mask@.len() as int);
        }
        if legal.len() == 0 {
            return None;
        }
        if self.plays_any(unit) {
            let k: usize = rng.below(legal.len());
            return Some(legal[k]);
        }
        match self {
            Opponent::Random => None,
            Opponent::AlphaBeta { depth, epsilon: _ } => {
                let mut start: Vec<usize> = identity_order(legal.len());
                let ghost unshuffled = start@;
                rng.shuffle(&mut start);
                proof {
                    assert(unshuffled =~= identity(legal@.len()));
                    lemma_permutation_from_multiset(start@, unshuffled, legal@.len() as int);
                }
                let plies: usize = if *depth == 0 {
                    1
                } else {
                    *depth
                };
                let action: usize = alpha_beta_best(env, plies, &start);
                proof {
                    let order = choose|order: Seq<usize>| #[trigger]
                        stable_order(hints_spec(*env), start@, order) && best_in_order(
                            *env,
                            order,
                            (plies - 1) as nat,
                            action as int,
                        );
                    assert(stable_order(hints_spec(*env), start@, order));
                    let list = legal_list(env.legal_spec(), env.legal_spec().len() as int);
                    let drawn = drawn_order(old(rng).seed, identity(list.len()), usize::BITS);
                    assert(drawn == (start@, rng.seed));
                    assert(stable_order(hints_spec(*env), drawn.0, order));
                    assert(best_in_order(
                        *env,
                        order,
                        (search_depth(self->depth) - 1) as nat,
                        action as int,
                    ));
                    assert(self.plays(*env, unit, old(rng).seed, action as int, rng.seed));
                    assert(self.may_play(*env, unit, action as int));
                }
                Some(action)
            },
        }
    }

    /// A move of the opponent, by draws from a seeded generator; none where no action is
    /// legal. `unit` is a draw from the unit interval, used where noise is on.
    pub fn choose_seeded<E: BoardGame>(&self, env: &E, unit: Single, rng: &mut Rng) -> (action:
        Option<usize>)
        ensures
            ({
                let list = legal_list(env.legal_spec(), env.legal_spec().len() as int);
                match action {
                    None => list.len() == 0 && final(rng).state == old(rng).state,
                    Some(a) => list.len() > 0 && if self.plays_any_spec(unit) {
                        &&& a == list[mixed(advanced(old(rng).state)) as int % list.len() as int]
                        &&& final(rng).state == advanced(old(rng).state)
                    } else {
                        let depth = search_depth(self->depth);
                        let start = fisher_yates(
                            identity(list.len()),
                            list.len(),
                            old(rng).state,
                        );
                        &&& final(rng).state == state_after(
                            old(rng).state,
                            (list.len() - 1) as nat,
                        )
                        &&& exists|order: Seq<usize>|
                            #[trigger] stable_order(hints_spec(*env), start, order)
                                && best_in_order(*env, order, (depth - 1) as nat, a as int)
                    },
                }
            }),
    {
        let mask: Vec<bool> = env.legal_mask();
        let legal: Vec<usize> = legal_actions(mask.as_slice());
        if legal.len() == 0 {
            return None;
        }
        if self.plays_any(unit) {
            let k: usize = rng.below(legal.len());
            return Some(legal[k]);
        }
        match self {
            Opponent::Random => None,
            Opponent::AlphaBeta { depth, epsilon: _ } => {
                let mut start: Vec<usize> = identity_order(legal.len());
                let ghost unshuffled = start@;
                rng.shuffle(start.as_mut_slice());
                proof {
                    lemma_permutation_from_multiset(start@, unshuffled, legal@.len() as int);
                }
                let plies: usize = if *depth == 0 {
                    1
                } else {
                    *depth
                };
                Some(alpha_beta_best(env, plies, &start))
            },
        }
    }
}

/// The bits of the number nearest to 0.05.
pub const FIVE_HUNDREDTHS_BITS: u32 = 0x3d4c_cccd;

/// The bits of the number nearest to 0.02.
pub const TWO_HUNDREDTHS_BITS: u32 = 0x3ca3_d70a;

/// Equal positions, draws and seeds give the opponent equal moves, and leave equal seeds.
pub proof fn opponent_plays_one_move<E: BoardGame>(
    opponent: Opponent,
    env: E,
    unit: Single,
    seed: u64,
    a: int,
    seed_a: u64,
    b: int,
    seed_b: u64,
)
    requires
        opponent.plays(env, unit, seed, a, seed_a),
        opponent.plays(env, unit, seed, b, seed_b),
    ensures
        a == b,
        seed_a == seed_b,
{
    if !opponent.plays_any_spec(unit) {
        let n = legal_list(env.legal_spec(), env.legal_spec().len() as int).len();
        let start = drawn_order(seed, identity(n), usize::BITS).0;
        let depth = (search_depth(opponent->depth) - 1) as nat;
        let one = choose|order: Seq<usize>| #[trigger]
            stable_order(hints_spec(env), start, order) && best_in_order(env, order, depth, a);
        let other = choose|order: Seq<usize>| #[trigger]
            stable_order(hints_spec(env), start, order) && best_in_order(env, order, depth, b);
        order_is_unique(hints_spec(env), start, one, other);
        best_in_order_is_unique(env, one, depth, a, b);
    }
}

/// What a position is worth without pruning. With no ply left, or no legal action, it is what it
/// seems to be. Otherwise it is worth as much as the best of its actions: an action that ends the
/// game is worth its score, and any other the opposite of what the position after it is worth, one
/// ply less deep, because there the other side is to move.
pub proof fn positions_are_worth_their_best_action<E: BoardGame>(env: E, depth: nat, a: int)
    requires
        env.legal_spec().len() <= usize::MAX,
    ensures
        ({
            let legal = |b: int| 0 <= b < env.legal_spec().len() && env.legal_spec()[b];
            let worth = |b: int|
                if env.result_spec(b).done || env.result_spec(b).truncated {
                    env.result_spec(b).score
                } else {
                    plain_value(env.next_spec(b), (depth - 1) as nat).neg_spec()
                };
            &&& depth == 0 || (forall|b: int|
                0 <= b < env.legal_spec().len() ==> !#[trigger] env.legal_spec()[b])
                ==> plain_value(env, depth) == env.heuristic_spec()
            &&& depth > 0 && legal(a) ==> {
                &&& !plain_value(env, depth).nan()
                &&& !plain_value(env, depth).lt_spec(worth(a))
                &&& plain_value(env, depth).rank() == Single::neg_infinity_spec().rank() || exists|
                    b: int,
                |
                    {
                        &&& 0 <= b < env.legal_spec().len()
                        &&& #[trigger] env.legal_spec()[b]
                        &&& !worth(b).nan()
                        &&& worth(b).rank() == plain_value(env, depth).rank()
                    }
            }
        }),
{
    let n = env.legal_spec().len() as int;
    legal_list_is_exact(env.legal_spec(), n);
    let list = legal_list(env.legal_spec(), n);
    if list.len() > 0 {
        assert(env.legal_spec()[list[0] as int]);
    }
    if depth > 0 && 0 <= a < n && env.legal_spec()[a] {
        assert(list.len() > 0);
        lemma_best_upto(env, depth, n);
        if plain_value(env, depth).rank() != Single::neg_infinity_spec().rank() {
            let b = choose|b: int|
                {
                    &&& 0 <= b < n
                    &&& #[trigger] env.legal_spec()[b]
                    &&& child_value(env, b, (depth - 1) as nat).eq_value_spec(
                        best_upto(env, depth, n),
                    )
                };
            assert(env.legal_spec()[b]);
        }
    }
}

/// What an opponent plays is legal. One that searches, and does not play at random now, plays an
/// action that no other one betters. Of actions worth the same it plays none that seems worse at
/// first sight, by the score of the game that it ends, or by the opposite of what the position
/// after it seems worth.
pub proof fn searching_opponents_play_a_best_action<E: BoardGame>(
    opponent: Opponent,
    env: E,
    unit: Single,
    action: int,
    other: int,
)
    requires
        env.legal_spec().len() <= usize::MAX,
        opponent.may_play(env, unit, action),
        0 <= other < env.legal_spec().len(),
        env.legal_spec()[other],
    ensures
        env.legal_spec()[action],
        opponent matches Opponent::AlphaBeta { depth, epsilon } ==> !(
        Single::zero_spec().lt_spec(epsilon) && unit.lt_spec(epsilon)) ==> {
            let further = if depth <= 1 {
                0
            } else {
                (depth - 1) as nat
            };
            let worth = |b: int|
                if env.result_spec(b).done || env.result_spec(b).truncated {
                    env.result_spec(b).score
                } else {
                    plain_value(env.next_spec(b), further).neg_spec()
                };
            let seems = |b: int|
                if env.result_spec(b).done || env.result_spec(b).truncated {
                    env.result_spec(b).score
                } else {
                    env.next_spec(b).heuristic_spec().neg_spec()
                };
            &&& !worth(action).lt_spec(worth(other))
            &&& worth(action).eq_value_spec(worth(other)) && Single::neg_infinity_spec().lt_spec(
                worth(other),
            ) ==> !seems(action).lt_spec(seems(other))
        },
{
    if !opponent.plays_any_spec(unit) {
        let n = env.legal_spec().len() as int;
        let list = legal_list(env.legal_spec(), n);
        let depth = (search_depth(opponent->depth) - 1) as nat;
        let (start, order) = choose|start: Seq<usize>, order: Seq<usize>|
            {
                &&& is_permutation(start, list.len() as int)
                &&& #[trigger] stable_order(hints_spec(env), start, order)
                &&& best_in_order(env, order, depth, action)
            };
        pruning_agrees_with_plain_negamax(env, depth, start, order, action, other);
        lemma_permutation_from_multiset(order, start, list.len() as int);
        legal_list_is_exact(env.legal_spec(), n);
        let values = ordered_values(env, order, depth);
        let all = Seq::new(values.len(), |i: int| true);
        let i = choose|i: int| 0 <= i < list.len() && list[i] == other;
        assert(order.contains(i as usize));
        let q = choose|q: int| 0 <= q < order.len() && order[q] == i as usize;
        assert(all[q]);
        assert(values[q] == child_value(env, other, depth));
        if !none_best(values, all) {
            let p = choose|p: int| #[trigger]
                first_best(values, all, p) && action == list[order[p] as int];
            assert(all[p]);
            assert(values[p] == child_value(env, action, depth));
            let hints = hints_spec(env);
            assert(hints[order[p] as int] == hint_spec(child_spec(env, list[order[p] as int])));
            assert(hints[order[q] as int] == hint_spec(child_spec(env, list[order[q] as int])));
            if p < q {
                assert(comes_before(hints, start, order[p], order[q]));
                crate::single::total_order_refines_less(
                    hints[order[p] as int],
                    hints[order[q] as int],
                );
            } else if q < p {
                assert(values[q].lt_spec(values[p]) || values[q].nan());
            }
        }
    }
}

/// Children are looked at from the one that seems best to the one that seems worst, each once.
pub proof fn children_are_looked_at_by_their_hints(
    hints: Seq<Single>,
    start: Seq<usize>,
    order: Seq<usize>,
    k: int,
    l: int,
)
    requires
        stable_order(hints, start, order),
        is_permutation(start, hints.len() as int),
        0 <= k < l < order.len(),
    ensures
        order.len() == hints.len(),
        order[k] < hints.len(),
        order[l] < hints.len(),
        order[k] != order[l],
        !hints[order[k] as int].lt_spec(hints[order[l] as int]),
{
    lemma_permutation_from_multiset(order, start, hints.len() as int);
    assert(comes_before(hints, start, order[k], order[l]));
    crate::single::total_order_refines_less(hints[order[k] as int], hints[order[l] as int]);
}

/// With nothing excluded beforehand, a pruned search finds what a position is worth.
pub proof fn full_windows_give_the_value(found: Single, value: Single)
    requires
        agrees(found, value, Single::neg_infinity_spec(), Single::infinity_spec()),
    ensures
        found.nan() == value.nan(),
        !found.nan() ==> found.rank() == value.rank(),
{
}

/// An opponent at random, or one whose noise has come up, plays the legal action that one draw picks,
/// each legal action having a number of its own. One that searches draws the order in which it breaks
/// ties, and nothing else. Either leaves the generator as its draw does.
pub proof fn draws_decide_random_moves<E: BoardGame>(
    opponent: Opponent,
    env: E,
    unit: Single,
    seed: u64,
    action: int,
    seed_after: u64,
)
    requires
        opponent.plays(env, unit, seed, action, seed_after),
    ensures
        ({
            let list = legal_list(env.legal_spec(), env.legal_spec().len() as int);
            let at_random = match opponent {
                Opponent::Random => true,
                Opponent::AlphaBeta { depth, epsilon } => Single::zero_spec().lt_spec(epsilon)
                    && unit.lt_spec(epsilon),
            };
            &&& list.len() > 0
            &&& at_random ==> {
                &&& action == list[drawn_below(seed, list.len() as usize, usize::BITS).0 as int]
                &&& seed_after == drawn_below(seed, list.len() as usize, usize::BITS).1
            }
            &&& !at_random ==> seed_after == drawn_order(
                seed,
                identity(list.len()),
                usize::BITS,
            ).1
        }),
{
}

} // verus!
