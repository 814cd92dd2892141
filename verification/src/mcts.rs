//! Tree search with virtual loss, for several simulations in flight at once.
//!
//! A simulation walks from the root to a node without children and stakes a virtual
//! loss on every node that it passes, so that the next one is likely to go elsewhere.
//! When its evaluation is there, the stakes are released and a visit is added instead.
//! What the staked and backed up sums are, and what a child scores, is computed by the
//! callers.
use vstd::prelude::*;
use crate::chess_eval::{advance_halfmove_clock, clock_after};
use crate::position::{Move, Position, after_move_of, legal_moves_of, playable_fen};
use crate::single::Single;
use crate::tree::{first_best, none_best};

verus! {

/// A node of the tree.
#[derive(Debug)]
pub struct McNode {
    pub prior: Single,
    /// Finished simulations that passed the node.
    pub n: u32,
    /// The sum of the values that they backed up.
    pub w: Single,
    /// Simulations in flight that passed the node.
    pub vln: u32,
    /// The sum of the losses that they staked.
    pub vlw: Single,
    /// The moves from here, and the nodes that they lead to; none before expansion.
    pub children: Vec<(Move, usize)>,
}

/// What a node holds.
pub struct NodeView {
    pub prior: Single,
    pub n: u32,
    pub w: Single,
    pub vln: u32,
    pub vlw: Single,
    pub children: Seq<(Move, usize)>,
}

impl View for McNode {
    type V = NodeView;

    open spec fn view(&self) -> NodeView {
        NodeView {
            prior: self.prior,
            n: self.n,
            w: self.w,
            vln: self.vln,
            vlw: self.vlw,
            children: self.children@,
        }
    }
}

/// What nodes hold.
pub open spec fn nodes_of(arena: Seq<McNode>) -> Seq<NodeView> {
    Seq::new(arena.len(), |i: int| arena[i]@)
}

/// A walk from the root, and the position that it leads to.
#[derive(Debug)]
pub struct Walk {
    pub path: Vec<usize>,
    pub fen: String,
    pub clock: u32,
}

/// A tree of positions.
pub struct McTree {
    pub arena: Vec<McNode>,
    /// How often a walk ended at a node that another walk in flight had ended at.
    pub collisions: u64,
    /// The FEN of every node.
    pub fens: Ghost<Seq<Seq<char>>>,
    /// The walks in flight.
    pub walks: Ghost<Seq<Seq<usize>>>,
    /// The finished walks.
    pub done: Ghost<Seq<Seq<usize>>>,
}

/// Whether node `i` has children.
pub open spec fn grown(arena: Seq<McNode>, i: int) -> bool {
    arena[i].children@.len() > 0
}

/// The first child of node `i`.
pub open spec fn first_kid(arena: Seq<McNode>, i: int) -> int {
    arena[i].children@[0].1 as int
}

/// The number after the last child of node `i`.
pub open spec fn end_kid(arena: Seq<McNode>, i: int) -> int {
    first_kid(arena, i) + arena[i].children@.len()
}

/// Whether `x` is a child of node `i`.
pub open spec fn is_kid(arena: Seq<McNode>, i: int, x: int) -> bool {
    grown(arena, i) && first_kid(arena, i) <= x < end_kid(arena, i)
}

/// Whether children stand in blocks behind their parents, and no two blocks overlap.
pub open spec fn arena_wf(arena: Seq<McNode>) -> bool {
    &&& 1 <= arena.len() <= usize::MAX
    &&& forall|i: int, c: int|
        #![trigger arena[i].children@[c]]
        0 <= i < arena.len() && 0 <= c < arena[i].children@.len() ==> arena[i].children@[c].1
            == first_kid(arena, i) + c
    &&& forall|i: int|
        0 <= i < arena.len() && #[trigger] grown(arena, i) ==> i < first_kid(arena, i) && end_kid(
            arena,
            i,
        ) <= arena.len()
    &&& forall|i: int, j: int|
        0 <= i < arena.len() && 0 <= j < arena.len() && i != j && #[trigger] grown(arena, i)
            && #[trigger] grown(arena, j) ==> end_kid(arena, i) <= first_kid(arena, j) || end_kid(
            arena,
            j,
        ) <= first_kid(arena, i)
}

/// Whether the moves of every node are legal there and lead to the positions of the
/// children.
pub open spec fn moves_wf(arena: Seq<McNode>, fens: Seq<Seq<char>>) -> bool {
    &&& fens.len() == arena.len()
    &&& forall|i: int|
        0 <= i < arena.len() && #[trigger] grown(arena, i) ==> playable_fen(fens[i])
    &&& forall|i: int, c: int|
        #![trigger arena[i].children@[c]]
        0 <= i < arena.len() && 0 <= c < arena[i].children@.len() ==> {
            let m = arena[i].children@[c].0;
            &&& m.on_board()
            &&& legal_moves_of(fens[i]).contains(m)
            &&& fens[first_kid(arena, i) + c] == after_move_of(fens[i], m)
        }
}

/// Whether a walk starts at the root and goes from parent to child.
pub open spec fn walk_wf(arena: Seq<McNode>, walk: Seq<usize>) -> bool {
    &&& walk.len() >= 1
    &&& walk[0] == 0
    &&& forall|j: int| 0 <= j < walk.len() ==> #[trigger] walk[j] < arena.len()
    &&& forall|j: int| 0 <= j < walk.len() - 1 ==> #[trigger] walk_step(arena, walk, j)
}

/// Whether step `j` of a walk goes to a child.
pub open spec fn walk_step(arena: Seq<McNode>, walk: Seq<usize>, j: int) -> bool {
    is_kid(arena, walk[j] as int, walk[j + 1] as int)
}

/// How many of the walks pass node `i`.
pub open spec fn passing(walks: Seq<Seq<usize>>, i: int) -> nat
    decreases walks.len(),
{
    if walks.len() == 0 {
        0
    } else {
        passing(walks.drop_last(), i) + if walks.last().contains(i as usize) {
            1nat
        } else {
            0nat
        }
    }
}

/// Whether every stake belongs to a walk in flight and every visit to a finished one.
pub open spec fn counts_wf(
    arena: Seq<McNode>,
    walks: Seq<Seq<usize>>,
    done: Seq<Seq<usize>>,
) -> bool {
    &&& forall|i: int| 0 <= i < arena.len() ==> (#[trigger] arena[i]).vln == passing(walks, i)
    &&& forall|i: int| 0 <= i < arena.len() ==> (#[trigger] arena[i]).n == passing(done, i)
    &&& forall|k: int| 0 <= k < walks.len() ==> walk_wf(arena, #[trigger] walks[k])
    &&& forall|k: int| 0 <= k < done.len() ==> walk_wf(arena, #[trigger] done[k])
}

impl McTree {
    /// What the nodes hold.
    pub open spec fn nodes(&self) -> Seq<NodeView> {
        nodes_of(self.arena@)
    }

    pub open spec fn wf(&self) -> bool {
        &&& arena_wf(self.arena@)
        &&& moves_wf(self.arena@, self.fens@)
        &&& counts_wf(self.arena@, self.walks@, self.done@)
    }

    /// Whether a walk is the latest in flight and has come to the position that it names.
    pub open spec fn walking(&self, walk: &Walk) -> bool {
        &&& self.walks@.len() > 0
        &&& self.walks@.last() == walk.path@
        &&& walk.fen@ == self.fens@[walk.path@.last() as int]
    }
}

/// Adding a walk adds one for the nodes that it passes.
pub(crate) proof fn lemma_passing_push(walks: Seq<Seq<usize>>, walk: Seq<usize>, i: int)
    ensures
        passing(walks.push(walk), i) == passing(walks, i) + if walk.contains(i as usize) {
            1nat
        } else {
            0nat
        },
{
    assert(walks.push(walk).drop_last() =~= walks);
}

/// Taking a walk out takes one from the nodes that it passed.
pub(crate) proof fn lemma_passing_remove(walks: Seq<Seq<usize>>, k: int, i: int)
    requires
        0 <= k < walks.len(),
    ensures
        passing(walks, i) == passing(walks.remove(k), i) + if walks[k].contains(i as usize) {
            1nat
        } else {
            0nat
        },
    decreases walks.len(),
{
    if k == walks.len() - 1 {
        assert(walks.remove(k) =~= walks.drop_last());
    } else {
        lemma_passing_remove(walks.drop_last(), k, i);
        assert(walks.remove(k).drop_last() =~= walks.drop_last().remove(k));
        assert(walks.remove(k).last() == walks.last());
    }
}

/// No more walks pass a node than there are.
proof fn lemma_passing_bound(walks: Seq<Seq<usize>>, i: int)
    ensures
        passing(walks, i) <= walks.len(),
    decreases walks.len(),
{
    if walks.len() > 0 {
        lemma_passing_bound(walks.drop_last(), i);
    }
}

/// Every walk passes the root.
proof fn lemma_all_pass_root(arena: Seq<McNode>, walks: Seq<Seq<usize>>)
    requires
        forall|k: int| 0 <= k < walks.len() ==> walk_wf(arena, #[trigger] walks[k]),
    ensures
        passing(walks, 0) == walks.len(),
    decreases walks.len(),
{
    if walks.len() > 0 {
        let rest = walks.drop_last();
        assert forall|k: int| 0 <= k < rest.len() implies walk_wf(arena, #[trigger] rest[k]) by {
            assert(rest[k] == walks[k]);
        }
        lemma_all_pass_root(arena, rest);
        assert(walk_wf(arena, walks[walks.len() - 1]));
        assert(walks.last()[0] == 0);
    }
}

/// A walk goes up in the numbers of its nodes.
proof fn lemma_walk_increases(arena: Seq<McNode>, walk: Seq<usize>, j: int, k: int)
    requires
        arena_wf(arena),
        walk_wf(arena, walk),
        0 <= j < k < walk.len(),
    ensures
        walk[j] < walk[k],
    decreases k,
{
    assert(walk_step(arena, walk, k - 1));
    assert(grown(arena, walk[k - 1] as int));
    if j < k - 1 {
        lemma_walk_increases(arena, walk, j, k - 1);
    }
}

/// Whether nothing has passed a node, and it has no prior.
pub open spec fn unvisited(node: McNode) -> bool {
    &&& node.prior == Single::zero_spec()
    &&& node.n == 0
    &&& node.w == Single::zero_spec()
    &&& node.vln == 0
    &&& node.vlw == Single::zero_spec()
}

/// The arena with one more stake on node `i`, whose staked sum becomes `staked`.
pub open spec fn staked_at(arena: Seq<McNode>, i: int, staked: Single) -> Seq<McNode> {
    arena.update(i, McNode { vln: (arena[i].vln + 1) as u32, vlw: staked, ..arena[i] })
}

/// Whether two arenas have the same children everywhere.
pub open spec fn same_shape(a: Seq<McNode>, b: Seq<McNode>) -> bool {
    &&& a.len() == b.len()
    &&& forall|i: int| 0 <= i < a.len() ==> (#[trigger] b[i]).children@ == a[i].children@
}

/// What depends on the children alone is the same in arenas of the same shape.
pub proof fn lemma_same_shape(a: Seq<McNode>, b: Seq<McNode>, fens: Seq<Seq<char>>)
    requires
        same_shape(a, b),
        arena_wf(a),
        moves_wf(a, fens),
    ensures
        arena_wf(b),
        moves_wf(b, fens),
        forall|walk: Seq<usize>| #[trigger] walk_wf(a, walk) ==> walk_wf(b, walk),
{
    assert forall|i: int| 0 <= i < a.len() implies #[trigger] grown(b, i) == grown(a, i) && (grown(
        a,
        i,
    ) ==> first_kid(b, i) == first_kid(a, i) && end_kid(b, i) == end_kid(a, i)) by {
        assert(b[i].children@ == a[i].children@);
    }
    assert forall|i: int, c: int|
        #![trigger b[i].children@[c]]
        0 <= i < b.len() && 0 <= c < b[i].children@.len() implies b[i].children@[c].1 == first_kid(
        b,
        i,
    ) + c && ({
        let m = b[i].children@[c].0;
        &&& m.on_board()
        &&& legal_moves_of(fens[i]).contains(m)
        &&& fens[first_kid(b, i) + c] == after_move_of(fens[i], m)
    }) by {
        assert(b[i].children@ == a[i].children@);
        assert(a[i].children@[c].1 == first_kid(a, i) + c);
        assert(grown(b, i) == grown(a, i));
    }
    assert forall|i: int, j: int|
        0 <= i < b.len() && 0 <= j < b.len() && i != j && #[trigger] grown(b, i)
            && #[trigger] grown(b, j) implies end_kid(b, i) <= first_kid(b, j) || end_kid(b, j)
        <= first_kid(b, i) by {
        assert(grown(a, i) && grown(a, j));
    }
    assert forall|i: int| 0 <= i < b.len() && #[trigger] grown(b, i) implies i < first_kid(b, i)
        && end_kid(b, i) <= b.len() && playable_fen(fens[i]) by {
        assert(grown(a, i));
    }
    assert forall|walk: Seq<usize>| #[trigger] walk_wf(a, walk) implies walk_wf(b, walk) by {
        assert forall|j: int| 0 <= j < walk.len() - 1 implies #[trigger] walk_step(b, walk, j) by {
            assert(walk_step(a, walk, j));
            assert(walk[j] < a.len());
            assert(grown(b, walk[j] as int) == grown(a, walk[j] as int));
        }
    }
}

/// The child that the best score points at, the earliest of equals; the first child where
/// no score counts.
pub open spec fn chosen_kid(scores: Seq<Single>, k: int) -> bool {
    let all = Seq::new(scores.len(), |i: int| true);
    if none_best(scores, all) {
        k == 0
    } else {
        first_best(scores, all, k)
    }
}

fn choose_kid(scores: &Vec<Single>) -> (k: usize)
    requires
        scores@.len() > 0,
    ensures
        chosen_kid(scores@, k as int),
        k < scores@.len(),
{
    let ghost all = Seq::new(scores@.len(), |i: int| true);
    let mut best: Single = Single::neg_infinity();
    let mut place: usize = 0;
    let ghost mut found = false;
    let mut k: usize = 0;
    while k < scores.len()
        invariant
            k <= scores@.len(),
            scores@.len() > 0,
            all == Seq::new(scores@.len(), |i: int| true),
            place < scores@.len(),
            !found ==> place == 0 && best == Single::neg_infinity_spec() && forall|j: int|
                0 <= j < k && #[trigger] all[j] ==> !Single::neg_infinity_spec().lt_spec(scores@[j]),
            found ==> {
                &&& place < k
                &&& best == scores@[place as int]
                &&& Single::neg_infinity_spec().lt_spec(best)
                &&& forall|j: int|
                    0 <= j < k && #[trigger] all[j] ==> !best.lt_spec(scores@[j])
                &&& forall|j: int|
                    0 <= j < place && #[trigger] all[j] ==> scores@[j].lt_spec(best)
                        || scores@[j].nan()
            },
        decreases scores@.len() - k,
    {
        if best.less(scores[k]) {
            best = scores[k];
            place = k;
            proof {
                found = true;
            }
        }
        k = k + 1;
    }
    proof {
        if found {
            assert(all[place as int]);
            assert(first_best(scores@, all, place as int));
        }
    }
    place
}

impl McTree {
    /// A tree of one node for a position.
    pub fn new(fen: &str) -> (tree: McTree)
        ensures
            tree.wf(),
            tree.arena@.len() == 1,
            tree.arena@[0].children@.len() == 0,
            unvisited(tree.arena@[0]),
            tree.fens@ == seq![fen@],
            tree.walks@.len() == 0,
            tree.done@.len() == 0,
            tree.collisions == 0,
    {
        let mut arena: Vec<McNode> = Vec::new();
        arena.push(
            McNode {
                prior: Single::zero(),
                n: 0,
                w: Single::zero(),
                vln: 0,
                vlw: Single::zero(),
                children: Vec::new(),
            },
        );
        let ghost fens: Seq<Seq<char>> = seq![fen@];
        let ghost none: Seq<Seq<usize>> = Seq::empty();
        McTree { arena, collisions: 0, fens: Ghost(fens), walks: Ghost(none), done: Ghost(none) }
    }

    /// Starts a walk: it stakes its loss on the root, whose staked sum becomes `staked`.
    pub fn begin(&mut self, fen: &str, clock: u32, staked: Single) -> (walk: Walk)
        requires
            old(self).wf(),
            fen@ == old(self).fens@[0],
            old(self).arena@[0].vln < u32::MAX,
        ensures
            final(self).wf(),
            final(self).walking(&walk),
            walk.path@ == seq![0usize],
            walk.fen@ == fen@,
            walk.clock == clock,
            final(self).walks@ == old(self).walks@.push(seq![0usize]),
            final(self).done@ == old(self).done@,
            final(self).fens@ == old(self).fens@,
            final(self).collisions == old(self).collisions,
            final(self).arena@ == staked_at(old(self).arena@, 0, staked),
    {
        let ghost before = self.arena@;
        let ghost walks = self.walks@;
        self.stake(0, staked);
        let mut path: Vec<usize> = Vec::new();
        path.push(0);
        proof {
            let walk = seq![0usize];
            self.walks@ = walks.push(walk);
            assert(path@ =~= walk);
            lemma_same_shape(before, self.arena@, self.fens@);
            assert(walk_wf(before, walk));
            assert forall|i: int| 0 <= i < self.arena@.len() implies (#[trigger] self.arena@[i]).vln
                == passing(self.walks@, i) by {
                lemma_passing_push(walks, walk, i);
                assert(before[i].vln == passing(walks, i));
                assert(walk.contains(i as usize) <==> i == 0) by {
                    assert(walk[0] == 0);
                }
            }
            assert forall|i: int| 0 <= i < self.arena@.len() implies (#[trigger] self.arena@[i]).n
                == passing(self.done@, i) by {
                assert(before[i].n == passing(self.done@, i));
            }
            assert forall|k: int| 0 <= k < self.walks@.len() implies walk_wf(
                self.arena@,
                #[trigger] self.walks@[k],
            ) by {
                if k < walks.len() {
                    assert(self.walks@[k] == walks[k]);
                    assert(walk_wf(before, walks[k]));
                }
            }
            assert forall|k: int| 0 <= k < self.done@.len() implies walk_wf(
                self.arena@,
                #[trigger] self.done@[k],
            ) by {
                assert(walk_wf(before, self.done@[k]));
            }
        }
        Walk { path, fen: fen.to_owned(), clock }
    }

    fn stake(&mut self, i: usize, staked: Single)
        requires
            i < old(self).arena@.len(),
            old(self).arena@[i as int].vln < u32::MAX,
        ensures
            final(self).arena@ == staked_at(old(self).arena@, i as int, staked),
            same_shape(old(self).arena@, final(self).arena@),
            final(self).collisions == old(self).collisions,
            final(self).fens == old(self).fens,
            final(self).walks == old(self).walks,
            final(self).done == old(self).done,
    {
        let vln: u32 = self.arena[i].vln + 1;
        self.arena[i].vln = vln;
        self.arena[i].vlw = staked;
        assert(self.arena@ =~= staked_at(old(self).arena@, i as int, staked));
    }

    /// The node whose children are to be scored next, if the walk goes on.
    pub fn to_score(&self, walk: &Walk) -> (node: Option<usize>)
        requires
            self.wf(),
            self.walking(walk),
        ensures
            node is Some <==> grown(self.arena@, walk.path@.last() as int),
            node matches Some(i) ==> i == walk.path@.last(),
    {
        assert(walk_wf(self.arena@, self.walks@[self.walks@.len() - 1]));
        let last: usize = walk.path[walk.path.len() - 1];
        if self.arena[last].children.len() == 0 {
            None
        } else {
            Some(last)
        }
    }

    /// Takes a walk one step down, to the best scored child, and stakes its loss there:
    /// `staked` holds what the staked sum of each child would become.
    pub fn descend(&mut self, walk: Walk, scores: &Vec<Single>, staked: &Vec<Single>) -> (next:
        Walk)
        requires
            old(self).wf(),
            old(self).walking(&walk),
            grown(old(self).arena@, walk.path@.last() as int),
            scores@.len() == old(self).arena@[walk.path@.last() as int].children@.len(),
            staked@.len() == scores@.len(),
            old(self).arena@[0].vln < u32::MAX,
            walk.clock < u32::MAX,
        ensures
            final(self).wf(),
            final(self).walking(&next),
            final(self).fens@ == old(self).fens@,
            final(self).done@ == old(self).done@,
            final(self).collisions == old(self).collisions,
            final(self).walks@ == old(self).walks@.drop_last().push(next.path@),
            ({
                let node = walk.path@.last() as int;
                let kids = old(self).arena@[node].children@;
                let x = next.path@.last() as int;
                let k = x - first_kid(old(self).arena@, node);
                &&& next.path@ == walk.path@.push(next.path@.last())
                &&& chosen_kid(scores@, k)
                &&& 0 <= k < kids.len()
                &&& next.fen@ == after_move_of(walk.fen@, kids[k].0)
                &&& next.clock == clock_after(walk.fen@, kids[k].0, walk.clock as int)
                &&& final(self).arena@ == staked_at(old(self).arena@, x, staked@[k])
            }),
    {
        let ghost before = self.arena@;
        let ghost walks = self.walks@;
        let ghost last_walk = walks[walks.len() - 1];
        assert(walk_wf(before, last_walk));
        let node: usize = walk.path[walk.path.len() - 1];
        let k: usize = choose_kid(scores);
        let (m, child): (Move, usize) = self.arena[node].children[k];
        proof {
            assert(before[node as int].children@[k as int].1 == first_kid(before, node as int) + k);
            assert(grown(before, node as int));
            assert(before[child as int].vln == passing(walks, child as int));
            assert(before[0].vln == passing(walks, 0));
            lemma_passing_bound(walks, child as int);
            lemma_all_pass_root(before, walks);
        }
        let mut clock: u32 = walk.clock;
        let mut fen: String = String::new();
        match Position::read(walk.fen.as_str()) {
            Some(position) => {
                clock = advance_halfmove_clock(&position, &m, walk.clock);
                fen = position.after(&m);
            },
            None => {
                assert(false);
            },
        }
        self.stake(child, staked[k]);
        let mut path: Vec<usize> = walk.path;
        path.push(child);
        proof {
            let longer = last_walk.push(child);
            assert(path@ =~= longer);
            self.walks@ = walks.drop_last().push(longer);
            lemma_same_shape(before, self.arena@, self.fens@);
            assert(walk_wf(before, longer)) by {
                assert forall|j: int| 0 <= j < longer.len() - 1 implies #[trigger] walk_step(
                    before,
                    longer,
                    j,
                ) by {
                    if j < last_walk.len() - 1 {
                        assert(walk_step(before, last_walk, j));
                    }
                }
            }
            assert(!last_walk.contains(child)) by {
                if last_walk.contains(child) {
                    let j = choose|j: int| 0 <= j < last_walk.len() && last_walk[j] == child;
                    lemma_walk_increases(before, longer, j, longer.len() - 1);
                }
            }
            assert forall|i: int| 0 <= i < self.arena@.len() implies (#[trigger] self.arena@[i]).vln
                == passing(self.walks@, i) by {
                lemma_passing_push(walks.drop_last(), longer, i);
                lemma_passing_push(walks.drop_last(), last_walk, i);
                assert(walks.drop_last().push(last_walk) =~= walks);
                assert(before[i].vln == passing(walks, i));
                assert(longer.contains(i as usize) <==> last_walk.contains(i as usize) || i
                    == child) by {
                    if last_walk.contains(i as usize) {
                        let j = choose|j: int|
                            0 <= j < last_walk.len() && last_walk[j] == i as usize;
                        assert(longer[j] == i as usize);
                    }
                    if i == child {
                        assert(longer[longer.len() - 1] == child);
                    }
                    if longer.contains(i as usize) {
                        let j = choose|j: int| 0 <= j < longer.len() && longer[j] == i as usize;
                        if j < last_walk.len() {
                            assert(last_walk[j] == i as usize);
                        }
                    }
                }
            }
            assert forall|i: int| 0 <= i < self.arena@.len() implies (#[trigger] self.arena@[i]).n
                == passing(self.done@, i) by {
                assert(before[i].n == passing(self.done@, i));
            }
            assert forall|j: int| 0 <= j < self.walks@.len() implies walk_wf(
                self.arena@,
                #[trigger] self.walks@[j],
            ) by {
                if j < walks.len() - 1 {
                    assert(self.walks@[j] == walks[j]);
                    assert(walk_wf(before, walks[j]));
                }
            }
            assert forall|j: int| 0 <= j < self.done@.len() implies walk_wf(
                self.arena@,
                #[trigger] self.done@[j],
            ) by {
                assert(walk_wf(before, self.done@[j]));
            }
        }
        Walk { path, fen, clock }
    }

    /// Ends the descent of a walk: it collides if another walk in flight passed the node
    /// where it ends.
    pub fn arrive(&mut self, walk: &Walk)
        requires
            old(self).wf(),
            old(self).walking(walk),
            !grown(old(self).arena@, walk.path@.last() as int),
            old(self).collisions < u64::MAX,
        ensures
            final(self).wf(),
            final(self).walking(walk),
            final(self).arena@ == old(self).arena@,
            final(self).fens@ == old(self).fens@,
            final(self).walks@ == old(self).walks@,
            final(self).done@ == old(self).done@,
            final(self).collisions == old(self).collisions + (if passing(
                old(self).walks@,
                walk.path@.last() as int,
            ) > 1 {
                1int
            } else {
                0
            }),
    {
        assert(walk_wf(self.arena@, self.walks@[self.walks@.len() - 1]));
        let leaf: usize = walk.path[walk.path.len() - 1];
        assert(self.arena@[leaf as int].vln == passing(self.walks@, leaf as int));
        if self.arena[leaf].vln > 1 {
            self.collisions = self.collisions + 1;
        }
    }
}

/// A walk is no longer than the tree is large.
pub(crate) proof fn lemma_walk_length(arena: Seq<McNode>, walk: Seq<usize>)
    requires
        arena_wf(arena),
        walk_wf(arena, walk),
    ensures
        walk.len() <= arena.len(),
{
    lemma_walk_floor(arena, walk, walk.len() - 1);
}

proof fn lemma_walk_floor(arena: Seq<McNode>, walk: Seq<usize>, j: int)
    requires
        arena_wf(arena),
        walk_wf(arena, walk),
        0 <= j < walk.len(),
    ensures
        walk[j] >= j,
    decreases j,
{
    if j > 0 {
        lemma_walk_floor(arena, walk, j - 1);
        lemma_walk_increases(arena, walk, j - 1, j);
    }
}

/// The arena once node `leaf` has a child for each of the moves.
pub open spec fn after_growth(
    arena: Seq<McNode>,
    leaf: int,
    moves: Seq<Move>,
    priors: Seq<Single>,
    after: Seq<McNode>,
) -> bool {
    &&& after.len() == arena.len() + moves.len()
    &&& forall|i: int| 0 <= i < arena.len() && i != leaf ==> #[trigger] after[i] == arena[i]
    &&& after[leaf].prior == arena[leaf].prior
    &&& after[leaf].n == arena[leaf].n
    &&& after[leaf].w == arena[leaf].w
    &&& after[leaf].vln == arena[leaf].vln
    &&& after[leaf].vlw == arena[leaf].vlw
    &&& after[leaf].children@ == Seq::new(
        moves.len(),
        |c: int| (moves[c], (arena.len() + c) as usize),
    )
    &&& forall|i: int|
        arena.len() <= i < after.len() ==> {
            &&& (#[trigger] after[i]).prior == priors[i - arena.len()]
            &&& after[i].n == 0
            &&& after[i].w == Single::zero_spec()
            &&& after[i].vln == 0
            &&& after[i].vlw == Single::zero_spec()
            &&& after[i].children@.len() == 0
        }
}

/// The positions of the nodes once node `leaf` has a child for each of the moves.
pub open spec fn fens_after_growth(fens: Seq<Seq<char>>, leaf: int, moves: Seq<Move>) -> Seq<
    Seq<char>,
> {
    fens + Seq::new(moves.len(), |c: int| after_move_of(fens[leaf], moves[c]))
}

pub proof fn lemma_growth_keeps_tree(
    arena: Seq<McNode>,
    fens: Seq<Seq<char>>,
    leaf: int,
    moves: Seq<Move>,
    priors: Seq<Single>,
    after: Seq<McNode>,
)
    requires
        arena_wf(arena),
        moves_wf(arena, fens),
        0 <= leaf < arena.len(),
        !grown(arena, leaf),
        moves.len() > 0,
        priors.len() == moves.len(),
        arena.len() + moves.len() <= usize::MAX,
        playable_fen(fens[leaf]),
        forall|c: int|
            0 <= c < moves.len() ==> (#[trigger] moves[c]).on_board() && legal_moves_of(
                fens[leaf],
            ).contains(moves[c]),
        after_growth(arena, leaf, moves, priors, after),
    ensures
        arena_wf(after),
        moves_wf(after, fens_after_growth(fens, leaf, moves)),
        forall|walk: Seq<usize>| #[trigger] walk_wf(arena, walk) ==> walk_wf(after, walk),
{
    let after_fens = fens_after_growth(fens, leaf, moves);
    assert forall|i: int| 0 <= i < after.len() implies #[trigger] grown(after, i) == (i == leaf || (i
        < arena.len() && grown(arena, i))) by {
        if i < arena.len() && i != leaf {
            assert(after[i] == arena[i]);
        }
    }
    assert(first_kid(after, leaf) == arena.len()) by {
        assert(after[leaf].children@[0].1 == arena.len());
    }
    assert forall|i: int, c: int|
        #![trigger after[i].children@[c]]
        0 <= i < after.len() && 0 <= c < after[i].children@.len() implies after[i].children@[c].1
        == first_kid(after, i) + c && ({
        let m = after[i].children@[c].0;
        &&& m.on_board()
        &&& legal_moves_of(after_fens[i]).contains(m)
        &&& after_fens[first_kid(after, i) + c] == after_move_of(after_fens[i], m)
    }) by {
        assert(grown(after, i));
        if i == leaf {
            assert(after[i].children@[c] == (moves[c], (arena.len() + c) as usize));
            assert(moves[c].on_board());
        } else {
            assert(after[i] == arena[i]);
            assert(arena[i].children@[c].1 == first_kid(arena, i) + c);
            assert(grown(arena, i));
        }
    }
    assert forall|i: int| 0 <= i < after.len() && #[trigger] grown(after, i) implies i < first_kid(
        after,
        i,
    ) && end_kid(after, i) <= after.len() && playable_fen(after_fens[i]) by {
        if i != leaf {
            assert(grown(arena, i));
            assert(after[i] == arena[i]);
        }
    }
    assert forall|i: int, j: int|
        0 <= i < after.len() && 0 <= j < after.len() && i != j && #[trigger] grown(after, i)
            && #[trigger] grown(after, j) implies end_kid(after, i) <= first_kid(after, j)
        || end_kid(after, j) <= first_kid(after, i) by {
        if i != leaf {
            assert(grown(arena, i));
            assert(after[i] == arena[i]);
        }
        if j != leaf {
            assert(grown(arena, j));
            assert(after[j] == arena[j]);
        }
    }
    assert forall|walk: Seq<usize>| #[trigger] walk_wf(arena, walk) implies walk_wf(after, walk) by {
        assert forall|j: int| 0 <= j < walk.len() - 1 implies #[trigger] walk_step(after, walk, j) by {
            assert(walk_step(arena, walk, j));
            assert(walk[j] < arena.len());
            assert(walk[j] as int != leaf);
            assert(after[walk[j] as int] == arena[walk[j] as int]);
        }
    }
}

/// No walk passes a node that is not there.
proof fn lemma_none_pass_beyond(arena: Seq<McNode>, walks: Seq<Seq<usize>>, i: int)
    requires
        forall|k: int| 0 <= k < walks.len() ==> walk_wf(arena, #[trigger] walks[k]),
        arena.len() <= i <= usize::MAX,
    ensures
        passing(walks, i) == 0,
    decreases walks.len(),
{
    if walks.len() > 0 {
        let rest = walks.drop_last();
        assert forall|k: int| 0 <= k < rest.len() implies walk_wf(arena, #[trigger] rest[k]) by {
            assert(rest[k] == walks[k]);
        }
        lemma_none_pass_beyond(arena, rest, i);
        let last = walks[walks.len() - 1];
        assert(walk_wf(arena, last));
        if last.contains(i as usize) {
            let j = choose|j: int| 0 <= j < last.len() && last[j] == i as usize;
            assert(last[j] < arena.len());
        }
    }
}

/// Whether `after` is `before` with one stake less, one visit more and the new sums at
/// every node of a walk.
pub open spec fn visited(
    before: Seq<McNode>,
    after: Seq<McNode>,
    walk: Seq<usize>,
    released: Seq<Single>,
    totals: Seq<Single>,
) -> bool {
    &&& after.len() == before.len()
    &&& forall|i: int|
        0 <= i < before.len() && !walk.contains(i as usize) ==> #[trigger] after[i] == before[i]
    &&& forall|j: int|
        0 <= j < walk.len() ==> after[#[trigger] walk[j] as int] == (McNode {
            n: (before[walk[j] as int].n + 1) as u32,
            w: totals[j],
            vln: (before[walk[j] as int].vln - 1) as u32,
            vlw: released[j],
            ..before[walk[j] as int]
        })
}

/// Whether `after` is `before` with children at node `leaf`, or `before` itself where the
/// node has children already or there are no moves.
pub open spec fn expanded_to(
    before: Seq<McNode>,
    leaf: int,
    moves: Seq<Move>,
    priors: Seq<Single>,
    after: Seq<McNode>,
) -> bool {
    if grown(before, leaf) || moves.len() == 0 {
        after == before
    } else {
        after_growth(before, leaf, moves, priors, after)
    }
}

impl McTree {
    /// Gives a node its children, one for each move. A node that has children keeps them,
    /// and without moves nothing happens.
    pub fn expand(&mut self, leaf: usize, moves: &Vec<Move>, priors: &Vec<Single>)
        requires
            old(self).wf(),
            leaf < old(self).arena@.len(),
            priors@.len() == moves@.len(),
            old(self).arena@.len() + moves@.len() <= usize::MAX,
            !grown(old(self).arena@, leaf as int) && moves@.len() > 0 ==> playable_fen(
                old(self).fens@[leaf as int],
            ) && forall|c: int|
                0 <= c < moves@.len() ==> (#[trigger] moves@[c]).on_board() && legal_moves_of(
                    old(self).fens@[leaf as int],
                ).contains(moves@[c]),
        ensures
            final(self).wf(),
            final(self).walks@ == old(self).walks@,
            final(self).done@ == old(self).done@,
            final(self).collisions == old(self).collisions,
            expanded_to(old(self).arena@, leaf as int, moves@, priors@, final(self).arena@),
            final(self).fens@ == (if grown(old(self).arena@, leaf as int) || moves@.len() == 0 {
                old(self).fens@
            } else {
                fens_after_growth(old(self).fens@, leaf as int, moves@)
            }),
    {
        if self.arena[leaf].children.len() > 0 || moves.len() == 0 {
            return ;
        }
        let ghost before = self.arena@;
        let ghost fens = self.fens@;
        let first: usize = self.arena.len();
        let mut children: Vec<(Move, usize)> = Vec::new();
        let mut c: usize = 0;
        while c < moves.len()
            invariant
                c <= moves@.len(),
                priors@.len() == moves@.len(),
                first == before.len(),
                first + moves@.len() <= usize::MAX,
                children@ == Seq::new(c as nat, |d: int| (moves@[d], (first + d) as usize)),
                self.arena@.len() == before.len() + c,
                forall|i: int| 0 <= i < before.len() ==> #[trigger] self.arena@[i] == before[i],
                forall|i: int|
                    before.len() <= i < self.arena@.len() ==> {
                        &&& (#[trigger] self.arena@[i]).prior == priors@[i - before.len()]
                        &&& self.arena@[i].n == 0
                        &&& self.arena@[i].w == Single::zero_spec()
                        &&& self.arena@[i].vln == 0
                        &&& self.arena@[i].vlw == Single::zero_spec()
                        &&& self.arena@[i].children@.len() == 0
                    },
                self.collisions == old(self).collisions,
                self.fens == old(self).fens,
                self.walks == old(self).walks,
                self.done == old(self).done,
            decreases moves@.len() - c,
        {
            self.arena.push(
                McNode {
                    prior: priors[c],
                    n: 0,
                    w: Single::zero(),
                    vln: 0,
                    vlw: Single::zero(),
                    children: Vec::new(),
                },
            );
            children.push((moves[c], first + c));
            c = c + 1;
            assert(children@ =~= Seq::new(c as nat, |d: int| (moves@[d], (first + d) as usize)));
        }
        self.arena[leaf].children = children;
        proof {
            self.fens@ = fens_after_growth(fens, leaf as int, moves@);
            assert(after_growth(before, leaf as int, moves@, priors@, self.arena@));
            lemma_growth_keeps_tree(before, fens, leaf as int, moves@, priors@, self.arena@);
            assert forall|i: int| 0 <= i < self.arena@.len() implies (#[trigger] self.arena@[i]).vln
                == passing(self.walks@, i) && self.arena@[i].n == passing(self.done@, i) by {
                if i < before.len() {
                    assert(before[i].vln == passing(self.walks@, i));
                    assert(before[i].n == passing(self.done@, i));
                } else {
                    lemma_none_pass_beyond(before, self.walks@, i);
                    lemma_none_pass_beyond(before, self.done@, i);
                }
            }
            assert forall|k: int| 0 <= k < self.walks@.len() implies walk_wf(
                self.arena@,
                #[trigger] self.walks@[k],
            ) by {
                assert(walk_wf(before, self.walks@[k]));
            }
            assert forall|k: int| 0 <= k < self.done@.len() implies walk_wf(
                self.arena@,
                #[trigger] self.done@[k],
            ) by {
                assert(walk_wf(before, self.done@[k]));
            }
        }
    }

    /// Finishes a walk in flight: its stakes are released and it counts as a visit of every
    /// node that it passed. `released` and `totals` hold the staked sums and the sums of
    /// values that these nodes have then.
    pub fn unstake_and_backup(
        &mut self,
        path: &Vec<usize>,
        released: &Vec<Single>,
        totals: &Vec<Single>,
    )
        requires
            old(self).wf(),
            old(self).walks@.contains(path@),
            released@.len() == path@.len(),
            totals@.len() == path@.len(),
            old(self).arena@[0].n < u32::MAX,
        ensures
            final(self).wf(),
            final(self).fens@ == old(self).fens@,
            final(self).collisions == old(self).collisions,
            final(self).done@ == old(self).done@.push(path@),
            exists|k: int|
                0 <= k < old(self).walks@.len() && old(self).walks@[k] == path@
                    && final(self).walks@ == #[trigger] old(self).walks@.remove(k),
            final(self).walks@.to_multiset() == old(self).walks@.to_multiset().remove(path@),
            same_shape(old(self).arena@, final(self).arena@),
            visited(old(self).arena@, final(self).arena@, path@, released@, totals@),
    {
        let ghost before = self.arena@;
        let ghost walks = self.walks@;
        let ghost done = self.done@;
        let ghost walk = path@;
        let ghost place = choose|k: int| 0 <= k < walks.len() && walks[k] == walk;
        proof {
            assert(walk_wf(before, walks[place]));
            lemma_all_pass_root(before, done);
            assert(before[0].n == passing(done, 0));
        }
        let mut j: usize = path.len();
        while j > 0
            invariant
                j <= path@.len(),
                walk == path@,
                released@.len() == path@.len(),
                totals@.len() == path@.len(),
                before == old(self).arena@,
                walks == old(self).walks@,
                done == old(self).done@,
                arena_wf(before),
                walk_wf(before, walk),
                counts_wf(before, walks, done),
                0 <= place < walks.len(),
                walks[place] == walk,
                done.len() < u32::MAX,
                self.arena@.len() == before.len(),
                self.collisions == old(self).collisions,
                self.fens == old(self).fens,
                self.walks == old(self).walks,
                self.done == old(self).done,
                forall|i: int|
                    0 <= i < before.len() && !walk.contains(i as usize) ==> #[trigger] self.arena@[i]
                        == before[i],
                forall|k: int|
                    0 <= k < j ==> self.arena@[#[trigger] walk[k] as int] == before[walk[k] as int],
                forall|k: int|
                    j <= k < walk.len() ==> self.arena@[#[trigger] walk[k] as int] == (McNode {
                        n: (before[walk[k] as int].n + 1) as u32,
                        w: totals@[k],
                        vln: (before[walk[k] as int].vln - 1) as u32,
                        vlw: released@[k],
                        ..before[walk[k] as int]
                    }),
            decreases j,
        {
            j = j - 1;
            let i: usize = path[j];
            proof {
                assert(walk[j as int] == i);
                assert(walk.contains(i));
                assert(before[i as int].vln == passing(walks, i as int));
                assert(before[i as int].n == passing(done, i as int));
                lemma_passing_remove(walks, place, i as int);
                lemma_passing_bound(done, i as int);
                assert forall|k: int| 0 <= k < walk.len() && k != j implies #[trigger] walk[k]
                    != i by {
                    if k < j {
                        lemma_walk_increases(before, walk, k, j as int);
                    } else {
                        lemma_walk_increases(before, walk, j as int, k);
                    }
                }
            }
            let n: u32 = self.arena[i].n + 1;
            let vln: u32 = self.arena[i].vln - 1;
            self.arena[i].n = n;
            self.arena[i].vln = vln;
            self.arena[i].w = totals[j];
            self.arena[i].vlw = released[j];
        }
        proof {
            self.walks@ = walks.remove(place);
            self.done@ = done.push(walk);
            assert forall|i: int| 0 <= i < before.len() implies (
            #[trigger] self.arena@[i]).children@ == before[i].children@ && self.arena@[i].vln
                == passing(self.walks@, i) && self.arena@[i].n == passing(self.done@, i) by {
                lemma_passing_remove(walks, place, i);
                lemma_passing_push(done, walk, i);
                assert(before[i].vln == passing(walks, i));
                assert(before[i].n == passing(done, i));
                lemma_passing_bound(done, i);
                if walk.contains(i as usize) {
                    let k = choose|k: int| 0 <= k < walk.len() && walk[k] == i as usize;
                    assert(self.arena@[walk[k] as int].n == before[i].n + 1);
                }
            }
            assert(same_shape(before, self.arena@));
            lemma_same_shape(before, self.arena@, self.fens@);
            assert forall|k: int| 0 <= k < self.walks@.len() implies walk_wf(
                self.arena@,
                #[trigger] self.walks@[k],
            ) by {
                let old_k = if k < place {
                    k
                } else {
                    k + 1
                };
                assert(self.walks@[k] == walks[old_k]);
                assert(walk_wf(before, walks[old_k]));
            }
            assert forall|k: int| 0 <= k < self.done@.len() implies walk_wf(
                self.arena@,
                #[trigger] self.done@[k],
            ) by {
                if k < done.len() {
                    assert(self.done@[k] == done[k]);
                    assert(walk_wf(before, done[k]));
                } else {
                    assert(walk_wf(before, walk));
                }
            }
            assert(old(self).walks@.remove(place) == self.walks@);
            vstd::seq_lib::to_multiset_remove(walks, place);
        }
    }

    /// The root's move with the most visits, the latest of equals; none before expansion.
    pub fn best_move_by_visits(&self) -> (best: Option<Move>)
        requires
            self.wf(),
        ensures
            best is Some <==> grown(self.arena@, 0),
            best matches Some(m) ==> exists|c: int|
                {
                    &&& 0 <= c < self.arena@[0].children@.len()
                    &&& self.arena@[0].children@[c].0 == m
                    &&& #[trigger] most_visited_kid(self.arena@, c)
                },
            best matches Some(m) ==> legal_moves_of(self.fens@[0]).contains(m),
    {
        let kids: usize = self.arena[0].children.len();
        if kids == 0 {
            return None;
        }
        assert(grown(self.arena@, 0));
        let ghost arena = self.arena@;
        let mut best: usize = 0;
        let first: usize = self.arena[0].children[0].1;
        let mut most: u32 = self.arena[first].n;
        let mut c: usize = 1;
        while c < kids
            invariant
                self.wf(),
                arena == self.arena@,
                grown(arena, 0),
                kids == arena[0].children@.len(),
                first == first_kid(arena, 0),
                first + kids <= arena.len(),
                1 <= c <= kids,
                best < c,
                most == arena[first + best].n,
                forall|d: int| 0 <= d < c ==> (#[trigger] arena[first + d]).n <= most,
                forall|d: int| best < d < c ==> (#[trigger] arena[first + d]).n < most,
            decreases kids - c,
        {
            let child: usize = self.arena[0].children[c].1;
            assert(arena[0].children@[c as int].1 == first + c);
            let visits: u32 = self.arena[child].n;
            if visits >= most {
                most = visits;
                best = c;
            }
            c = c + 1;
        }
        proof {
            assert(most_visited_kid(arena, best as int));
            assert(arena[0].children@[best as int].1 == first + best);
        }
        Some(self.arena[0].children[best].0)
    }
}

/// Whether the root's child `c` is the latest with the most visits.
pub open spec fn most_visited_kid(arena: Seq<McNode>, c: int) -> bool {
    let first = first_kid(arena, 0);
    &&& forall|d: int|
        0 <= d < arena[0].children@.len() ==> (#[trigger] arena[first + d]).n <= arena[first + c].n
    &&& forall|d: int|
        c < d < arena[0].children@.len() ==> (#[trigger] arena[first + d]).n < arena[first + c].n
}

/// A walk on its own never collides: where no other walk is in flight, no node is staked
/// twice.
pub proof fn lone_walks_do_not_collide(tree: McTree, i: int)
    requires
        tree.walks@.len() <= 1,
    ensures
        passing(tree.walks@, i) <= 1,
{
    lemma_passing_bound(tree.walks@, i);
}

/// Once no walk is in flight, no stake is left anywhere.
pub proof fn all_stakes_are_released(tree: McTree, i: int)
    requires
        tree.wf(),
        tree.walks@.len() == 0,
        0 <= i < tree.arena@.len(),
    ensures
        tree.arena@[i].vln == 0,
{
}

/// The root counts every simulation: in flight as a stake, finished as a visit. No node
/// has more visits than the root.
pub proof fn root_counts_every_simulation(tree: McTree, i: int)
    requires
        tree.wf(),
        0 <= i < tree.arena@.len(),
    ensures
        tree.arena@[0].vln == tree.walks@.len(),
        tree.arena@[0].n == tree.done@.len(),
        tree.arena@[i].n <= tree.arena@[0].n,
{
    lemma_all_pass_root(tree.arena@, tree.walks@);
    lemma_all_pass_root(tree.arena@, tree.done@);
    lemma_passing_bound(tree.done@, i);
    assert(tree.arena@[i].n == passing(tree.done@, i));
    assert(tree.arena@[0].n == passing(tree.done@, 0));
    assert(tree.arena@[0].vln == passing(tree.walks@, 0));
}

/// The visits of `count` nodes from `from` on, added up.
pub open spec fn visit_sum(arena: Seq<McNode>, from: int, count: int) -> int
    decreases count,
{
    if count <= 0 {
        0
    } else {
        visit_sum(arena, from, count - 1) + arena[from + count - 1].n
    }
}

/// How often walks pass the nodes from `from` on, added up.
spec fn passing_sum(walks: Seq<Seq<usize>>, from: int, count: int) -> int
    decreases count,
{
    if count <= 0 {
        0
    } else {
        passing_sum(walks, from, count - 1) + passing(walks, from + count - 1)
    }
}

/// How many of the nodes from `from` on a walk passes.
spec fn passed(walk: Seq<usize>, from: int, count: int) -> int
    decreases count,
{
    if count <= 0 {
        0
    } else {
        passed(walk, from, count - 1) + if walk.contains((from + count - 1) as usize) {
            1int
        } else {
            0int
        }
    }
}

proof fn lemma_passing_sum_last(walks: Seq<Seq<usize>>, from: int, count: int)
    requires
        walks.len() > 0,
    ensures
        passing_sum(walks, from, count) == passing_sum(walks.drop_last(), from, count) + passed(
            walks.last(),
            from,
            count,
        ),
    decreases count,
{
    if count > 0 {
        lemma_passing_sum_last(walks, from, count - 1);
    }
}

proof fn lemma_passing_sum_empty(walks: Seq<Seq<usize>>, from: int, count: int)
    requires
        walks.len() == 0,
    ensures
        passing_sum(walks, from, count) == 0,
    decreases count,
{
    if count > 0 {
        lemma_passing_sum_empty(walks, from, count - 1);
    }
}

/// A walk that has left the root passes one of its children, and no other.
proof fn lemma_walk_passes_one_kid(arena: Seq<McNode>, walk: Seq<usize>, x: int)
    requires
        arena_wf(arena),
        walk_wf(arena, walk),
        walk.len() >= 2,
        is_kid(arena, 0, x),
    ensures
        walk.contains(x as usize) <==> x == walk[1],
        is_kid(arena, 0, walk[1] as int),
{
    assert(walk_step(arena, walk, 0));
    if walk.contains(x as usize) {
        let j = choose|j: int| 0 <= j < walk.len() && walk[j] == x as usize;
        assert(j != 0);
        assert(walk_step(arena, walk, j - 1));
        let p = walk[j - 1] as int;
        assert(grown(arena, p) && grown(arena, 0));
        assert(p == 0);
        if j > 1 {
            lemma_walk_increases(arena, walk, 0, j - 1);
        }
    } else if x == walk[1] {
        assert(walk[1] == x as usize);
    }
}

proof fn lemma_passed_one(arena: Seq<McNode>, walk: Seq<usize>, count: int)
    requires
        arena_wf(arena),
        walk_wf(arena, walk),
        walk.len() >= 2,
        grown(arena, 0),
        0 <= count <= arena[0].children@.len(),
    ensures
        passed(walk, first_kid(arena, 0), count) == if walk[1] < first_kid(arena, 0) + count {
            1int
        } else {
            0int
        },
    decreases count,
{
    let first = first_kid(arena, 0);
    lemma_walk_passes_one_kid(arena, walk, first);
    if count > 0 {
        lemma_passed_one(arena, walk, count - 1);
        lemma_walk_passes_one_kid(arena, walk, first + count - 1);
    }
}

proof fn lemma_sum_counts_walks(arena: Seq<McNode>, walks: Seq<Seq<usize>>)
    requires
        arena_wf(arena),
        grown(arena, 0),
        forall|k: int|
            0 <= k < walks.len() ==> walk_wf(arena, #[trigger] walks[k]) && walks[k].len() >= 2,
    ensures
        passing_sum(walks, first_kid(arena, 0), arena[0].children@.len() as int) == walks.len(),
    decreases walks.len(),
{
    let first = first_kid(arena, 0);
    let count = arena[0].children@.len() as int;
    if walks.len() == 0 {
        lemma_passing_sum_empty(walks, first, count);
    } else {
        let rest = walks.drop_last();
        assert forall|k: int| 0 <= k < rest.len() implies walk_wf(arena, #[trigger] rest[k])
            && rest[k].len() >= 2 by {
            assert(rest[k] == walks[k]);
        }
        lemma_sum_counts_walks(arena, rest);
        lemma_passing_sum_last(walks, first, count);
        let last = walks[walks.len() - 1];
        assert(walk_wf(arena, last));
        lemma_passed_one(arena, last, count);
        lemma_walk_passes_one_kid(arena, last, first);
    }
}

proof fn lemma_visit_sum_is_passing_sum(
    arena: Seq<McNode>,
    done: Seq<Seq<usize>>,
    from: int,
    count: int,
)
    requires
        0 <= from,
        from + count <= arena.len(),
        forall|i: int| 0 <= i < arena.len() ==> (#[trigger] arena[i]).n == passing(done, i),
    ensures
        visit_sum(arena, from, count) == passing_sum(done, from, count),
    decreases count,
{
    if count > 0 {
        lemma_visit_sum_is_passing_sum(arena, done, from, count - 1);
    }
}

/// Where the root was expanded before the first simulation, the visits of its children add
/// up to the finished simulations.
pub proof fn root_moves_share_all_visits(tree: McTree)
    requires
        tree.wf(),
        grown(tree.arena@, 0),
        forall|k: int| 0 <= k < tree.done@.len() ==> (#[trigger] tree.done@[k]).len() >= 2,
    ensures
        visit_sum(
            tree.arena@,
            first_kid(tree.arena@, 0),
            tree.arena@[0].children@.len() as int,
        ) == tree.done@.len(),
{
    let arena = tree.arena@;
    assert forall|k: int| 0 <= k < tree.done@.len() implies walk_wf(
        arena,
        #[trigger] tree.done@[k],
    ) && tree.done@[k].len() >= 2 by {}
    lemma_sum_counts_walks(arena, tree.done@);
    lemma_visit_sum_is_passing_sum(
        arena,
        tree.done@,
        first_kid(arena, 0),
        arena[0].children@.len() as int,
    );
}

/// The latest of the first `end` moves of the root with the most visits.
proof fn lemma_most_visited_so_far(arena: Seq<McNode>, end: int) -> (best: int)
    requires
        arena_wf(arena),
        1 <= end <= arena[0].children@.len(),
    ensures
        0 <= best < end,
        forall|d: int|
            0 <= d < end ==> arena[#[trigger] arena[0].children@[d].1 as int].n
                <= arena[arena[0].children@[best].1 as int].n,
        forall|d: int|
            best < d < end ==> arena[#[trigger] arena[0].children@[d].1 as int].n
                < arena[arena[0].children@[best].1 as int].n,
    decreases end,
{
    if end == 1 {
        0
    } else {
        let before = lemma_most_visited_so_far(arena, end - 1);
        let last = arena[0].children@[end - 1].1 as int;
        if arena[last].n >= arena[arena[0].children@[before].1 as int].n {
            end - 1
        } else {
            before
        }
    }
}

/// Whenever a search is stopped, its tree has a best move as soon as its root has children,
/// and the move is legal: walks in flight do not stand in the way.
pub proof fn stopped_search_has_a_legal_move(tree: McTree) -> (c: int)
    requires
        tree.wf(),
        grown(tree.arena@, 0),
    ensures
        0 <= c < tree.arena@[0].children@.len(),
        most_visited_kid(tree.arena@, c),
        legal_moves_of(tree.fens@[0]).contains(tree.arena@[0].children@[c].0),
{
    let arena = tree.arena@;
    let n = arena[0].children@.len() as int;
    let first = first_kid(arena, 0);
    let c = lemma_most_visited_so_far(arena, n);
    assert(arena[0].children@[c].1 == first + c);
    assert forall|d: int| 0 <= d < n implies (#[trigger] arena[first + d]).n <= arena[first + c].n
        && (c < d ==> arena[first + d].n < arena[first + c].n) by {
        assert(arena[0].children@[d].1 == first + d);
    }
    c
}

/// The visits of the root's moves decide: no move has been visited more often than the best one, and
/// of moves with as many visits the best one comes last.
pub proof fn best_moves_are_visited_most(tree: McTree, c: int, d: int)
    requires
        tree.wf(),
        most_visited_kid(tree.arena@, c),
        0 <= c < tree.arena@[0].children@.len(),
        0 <= d < tree.arena@[0].children@.len(),
    ensures
        ({
            let arena = tree.arena@;
            let best = arena[arena[0].children@[c].1 as int];
            let other = arena[arena[0].children@[d].1 as int];
            &&& other.n <= best.n
            &&& c < d ==> other.n < best.n
        }),
{
    let arena = tree.arena@;
    let first = first_kid(arena, 0);
    assert(arena[0].children@[c].1 == first + c);
    assert(arena[0].children@[d].1 == first + d);
    assert(arena[first + d] == arena[first + d]);
}

/// Where walks stand in a tree: a child stands behind its parent, has one parent alone, and stands
/// for the position after its move.
pub proof fn children_stand_for_their_moves(tree: McTree, i: int, c: int)
    requires
        tree.wf(),
        0 <= i < tree.arena@.len(),
        0 <= c < tree.arena@[i].children@.len(),
    ensures
        ({
            let (m, x) = tree.arena@[i].children@[c];
            &&& i < x < tree.arena@.len()
            &&& legal_moves_of(tree.fens@[i]).contains(m)
            &&& tree.fens@[x as int] == after_move_of(tree.fens@[i], m)
            &&& forall|j: int, d: int|
                #![trigger tree.arena@[j].children@[d]]
                0 <= j < tree.arena@.len() && 0 <= d < tree.arena@[j].children@.len()
                    && tree.arena@[j].children@[d].1 == x ==> j == i && d == c
        }),
{
    let arena = tree.arena@;
    let (m, x) = arena[i].children@[c];
    assert(x == first_kid(arena, i) + c);
    assert(grown(arena, i));
    assert forall|j: int, d: int|
        #![trigger arena[j].children@[d]]
        0 <= j < arena.len() && 0 <= d < arena[j].children@.len() && arena[j].children@[d].1
            == x implies j == i && d == c by {
        assert(arena[j].children@[d].1 == first_kid(arena, j) + d);
        assert(grown(arena, j));
    }
}

/// Every walk in flight has one stake on each node that it passes, and every finished one a visit: a
/// new walk adds one to the nodes that it passes, and to no others.
pub proof fn walks_are_counted_where_they_pass(walks: Seq<Seq<usize>>, walk: Seq<usize>, i: usize)
    ensures
        passing(Seq::empty(), i as int) == 0,
        passing(walks.push(walk), i as int) == passing(walks, i as int) + if exists|j: int|
            0 <= j < walk.len() && #[trigger] walk[j] == i {
            1int
        } else {
            0
        },
{
    assert(walks.push(walk).drop_last() =~= walks);
}

} // verus!
