//! Search in waves: several leaves are gathered, evaluated together, and backed up.
//!
//! Leaves whose position was evaluated before need no evaluation, and neither do those
//! where the game is over. The caller scores children, evaluates the gathered leaves and
//! adds up values; which leaf is what, and what is counted, is decided here.
use vstd::prelude::*;
use vstd::string::*;
use crate::chess_eval::{
    halfmove_clock, lemma_pruned_leaves_one, lemma_pruned_on_board, prune_underpromotions, pruned,
};
use crate::kept::Kept;
use crate::mcts::{
    McNode, McTree, NodeView, Walk, fens_after_growth, first_kid, grown, nodes_of,
    passing, same_shape, visited, walk_wf,
};
use crate::position::{
    Kind, MOST_MOVES, Move, Position, Status, legal_moves_of, playable_fen, status_of,
};
use crate::replay_buffer::copy_singles;
use crate::single::Single;
use crate::text::{field, number_or_zero};
use crate::wave_course::{
    Moment, Stage, Waiting, all_waiting, begun, collides, fresh_node, gives_up, has_kids,
    leads_to, leaf_views, leaves_of, lemma_gives_up, lemma_grown_nodes, lemma_leads_on,
    lemma_leads_through, lemma_one_kid, lemma_staked_nodes, lemma_stays, lemma_stuck,
    lemma_visited_nodes, most_visited_move, opening, over, released_sums, settle_step,
    settled_fens, settled_nodes, step, total_sums, turned, walk_step, walked, wave_step,
    with_kids,
};

verus! {

/// How a search goes about its simulations.
#[derive(Clone, Copy, Debug, PartialEq, Eq, Structural)]
pub struct SearchConfig {
    pub simulations: usize,
    /// Threads that share the tree, where leaves are evaluated one by one.
    pub threads: usize,
    /// Leaves of a wave, where they are evaluated together.
    pub batch_size: usize,
    pub virtual_loss: Single,
    pub cpuct_init: Single,
    pub cpuct_base: Single,
    pub cpuct_factor: Single,
    pub fpu_reduction: Single,
    /// Without progress for this long a warning is due.
    pub deadlock_stall_millis: u64,
    /// After this long a search is cut off.
    pub hard_timeout_millis: u64,
}

/// The bits of 1.745.
pub const CPUCT_INIT_BITS: u32 = 0x3fdf_5c29;

/// The bits of 38739.
pub const CPUCT_BASE_BITS: u32 = 0x4717_5300;

/// The bits of 3.894.
pub const CPUCT_FACTOR_BITS: u32 = 0x4079_374c;

/// The bits of 0.33.
pub const FPU_REDUCTION_BITS: u32 = 0x3ea8_f5c3;

impl SearchConfig {
    /// The settings of a search leaf by leaf.
    pub fn one_by_one() -> (config: SearchConfig)
        ensures
            config.simulations == 32,
            config.threads == 1,
            config.batch_size == 1,
            config.virtual_loss == Single::one_spec(),
            config.cpuct_init.bits == CPUCT_INIT_BITS,
            config.cpuct_base.bits == CPUCT_BASE_BITS,
            config.cpuct_factor.bits == CPUCT_FACTOR_BITS,
            config.fpu_reduction.bits == FPU_REDUCTION_BITS,
            config.deadlock_stall_millis == 8_000,
            config.hard_timeout_millis == 60_000,
    {
        SearchConfig {
            simulations: 32,
            threads: 1,
            batch_size: 1,
            virtual_loss: Single::one(),
            cpuct_init: Single::from_bits(CPUCT_INIT_BITS),
            cpuct_base: Single::from_bits(CPUCT_BASE_BITS),
            cpuct_factor: Single::from_bits(CPUCT_FACTOR_BITS),
            fpu_reduction: Single::from_bits(FPU_REDUCTION_BITS),
            deadlock_stall_millis: 8_000,
            hard_timeout_millis: 60_000,
        }
    }

    /// The settings of a search in waves.
    pub fn in_waves() -> (config: SearchConfig)
        ensures
            config.simulations == 800,
            config.threads == 1,
            config.batch_size == 32,
            config.virtual_loss == Single::one_spec(),
            config.cpuct_init.bits == CPUCT_INIT_BITS,
            config.cpuct_base.bits == CPUCT_BASE_BITS,
            config.cpuct_factor.bits == CPUCT_FACTOR_BITS,
            config.fpu_reduction.bits == FPU_REDUCTION_BITS,
            config.deadlock_stall_millis == 8_000,
            config.hard_timeout_millis == 60_000,
    {
        SearchConfig { simulations: 800, batch_size: 32, ..SearchConfig::one_by_one() }
    }
}

/// What a walk ended at.
#[derive(Debug)]
pub struct Leaf {
    /// The value of the position for the side to move, where the game is over.
    pub over: Option<Single>,
    /// The moves to expand: none where the game is over.
    pub moves: Vec<Move>,
    /// The key under which evaluations of the position are kept.
    pub hash: u64,
    /// The position, where it can be read.
    pub position: Option<Position>,
}

/// The value of a position where the game is over: the side to move has lost by
/// checkmate, and nothing is lost otherwise. A position that cannot be read counts as
/// drawn.
pub open spec fn over_spec(fen: Seq<char>) -> Option<Single> {
    if !playable_fen(fen) {
        Some(Single::zero_spec())
    } else {
        match status_of(fen) {
            Status::Ongoing => None,
            Status::Checkmate => Some(Single::one_spec().neg_spec()),
            Status::Stalemate => Some(Single::zero_spec()),
        }
    }
}

/// The moves to expand in a position: none where the game is over.
pub open spec fn leaf_moves(fen: Seq<char>) -> Seq<Move> {
    if over_spec(fen) is Some {
        Seq::empty()
    } else {
        pruned(legal_moves_of(fen))
    }
}

/// Whether there is a legal move in the position of a FEN.
pub open spec fn has_moves(fen: Seq<char>) -> bool {
    playable_fen(fen) && legal_moves_of(fen).len() > 0
}

/// There is a move to expand exactly where one is legal.
pub proof fn legal_moves_leave_one_to_expand(position: Position)
    requires
        position.wf(),
    ensures
        leaf_moves(position.fen@).len() > 0 <==> has_moves(position.fen@),
{
    if position.moves@.len() > 0 {
        lemma_pruned_leaves_one(position.moves@);
    } else {
        position.moves@.lemma_filter_len(|m: Move| !m.underpromotes());
    }
}

/// What a finished game is worth to the side to move: less than nothing where it is mated, and
/// nothing otherwise. Nobody has won a game by having to move.
pub proof fn mated_sides_have_lost(fen: Seq<char>)
    ensures
        over_spec(fen) is Some <==> !playable_fen(fen) || !(status_of(fen) is Ongoing),
        over_spec(fen) is Some ==> {
            let value = over_spec(fen)->0;
            &&& !value.nan()
            &&& value.rank() < 0 <==> playable_fen(fen) && status_of(fen) is Checkmate
            &&& value.rank() <= 0
            &&& value.rank() < 0 ==> value.rank() == -Single::one_spec().rank()
            &&& leaf_moves(fen).len() == 0
        },
        over_spec(fen) is None ==> forall|m: Move| #[trigger]
            leaf_moves(fen).contains(m) <==> legal_moves_of(fen).contains(m)
                && !(m.promotion is Some && m.promotion != Some(Kind::Queen)),
{
    crate::single::negation_reverses_order(Single::one_spec(), Single::one_spec());
    if over_spec(fen) is None {
        let keep = |m: Move| !m.underpromotes();
        let moves = legal_moves_of(fen);
        assert forall|m: Move| #[trigger] leaf_moves(fen).contains(m) <==> moves.contains(m)
            && !(m.promotion is Some && m.promotion != Some(Kind::Queen)) by {
            if leaf_moves(fen).contains(m) {
                moves.lemma_filter_contains_rev(keep, m);
                let i = choose|i: int| 0 <= i < leaf_moves(fen).len() && leaf_moves(fen)[i] == m;
                moves.lemma_filter_pred(keep, i);
            }
            if moves.contains(m) && !m.underpromotes() {
                let i = choose|i: int| 0 <= i < moves.len() && moves[i] == m;
                moves.lemma_filter_contains(keep, i);
            }
        }
    }
}

impl Leaf {
    /// Whether a leaf is that of a FEN.
    pub open spec fn of(&self, fen: Seq<char>) -> bool {
        &&& self.over == over_spec(fen)
        &&& self.moves@ == leaf_moves(fen)
        &&& self.moves@.len() <= MOST_MOVES
        &&& forall|c: int| 0 <= c < self.moves@.len() ==> (#[trigger] self.moves@[c]).on_board()
        &&& self.moves@.len() > 0 <==> has_moves(fen)
        &&& self.position is Some <==> playable_fen(fen)
        &&& self.position matches Some(p) ==> p.wf() && p.fen@ == fen && self.hash == p.hash
    }

    /// What a walk to the position of a FEN ends at.
    pub fn read(fen: &str) -> (leaf: Leaf)
        ensures
            leaf.of(fen@),
    {
        match Position::read(fen) {
            None => Leaf { over: Some(Single::zero()), moves: Vec::new(), hash: 0, position: None },
            Some(position) => {
                let over: Option<Single> = match position.status {
                    Status::Ongoing => None,
                    Status::Checkmate => Some(Single::one().negated()),
                    Status::Stalemate => Some(Single::zero()),
                };
                let moves: Vec<Move> = if over.is_some() {
                    Vec::new()
                } else {
                    prune_underpromotions(&position.moves)
                };
                proof {
                    lemma_pruned_on_board(position.moves@);
                    legal_moves_leave_one_to_expand(position);
                    position.moves@.lemma_filter_len(|m: Move| !m.underpromotes());
                }
                let hash: u64 = position.hash;
                Leaf { over, moves, hash, position: Some(position) }
            },
        }
    }
}

/// A walk whose leaf waits for its evaluation.
#[derive(Debug)]
pub struct Pending {
    pub walk: Walk,
    pub moves: Vec<Move>,
    pub hash: u64,
}

/// What is known of a leaf that waits: its position, the clock there, and the moves to expand.
pub struct LeafView {
    pub fen: Seq<char>,
    pub clock: u32,
    pub moves: Seq<Move>,
}

impl View for Pending {
    type V = LeafView;

    open spec fn view(&self) -> LeafView {
        LeafView { fen: self.walk.fen@, clock: self.walk.clock, moves: self.moves@ }
    }
}

/// What becomes of a walk.
#[derive(Debug)]
pub enum Arrival {
    /// The value of its leaf is known: it can be backed up.
    Settled { walk: Walk, moves: Vec<Move>, priors: Vec<Single>, value: Single },
    /// It waits for the evaluation of its leaf.
    Waiting,
}

/// A search in waves.
pub struct WaveSearch {
    pub tree: McTree,
    pub fen: String,
    pub clock: u32,
    pub simulations: usize,
    pub batch_size: usize,
    /// Simulations of later waves.
    pub remaining: usize,
    /// Simulations of this wave that have not started.
    pub in_wave: usize,
    /// Whether evaluations are kept for positions that come up again.
    pub keep: bool,
    pub cache: Kept,
    pub cache_hits: u64,
    pub cache_misses: u64,
    /// Simulations that ended where the game is over.
    pub terminals: u64,
    pub pending: Vec<Pending>,
}

/// The outcome of a search.
#[derive(Debug)]
pub struct SearchOutcome {
    pub best_move: Option<String>,
    pub collisions: u64,
    pub cache_hits: u64,
    pub cache_misses: u64,
}

/// The moves from a node.
pub open spec fn moves_from(node: McNode) -> Seq<Move> {
    Seq::new(node.children@.len(), |c: int| node.children@[c].0)
}

/// The walks of the waiting leaves.
pub open spec fn waiting_paths(pending: Seq<Pending>) -> Seq<Seq<usize>> {
    Seq::new(pending.len(), |i: int| pending[i].walk.path@)
}

/// Whether a walk ends at a node of the tree with the position that it names, and its moves
/// are those to expand there.
pub open spec fn ends_in(tree: McTree, walk: Walk, moves: Seq<Move>) -> bool {
    &&& walk_wf(tree.arena@, walk.path@)
    &&& walk.fen@ == tree.fens@[walk.path@.last() as int]
    &&& moves == leaf_moves(walk.fen@)
    &&& moves.len() <= MOST_MOVES
    &&& forall|c: int| 0 <= c < moves.len() ==> (#[trigger] moves[c]).on_board()
}

/// The most nodes that a tree can have after so many simulations: each of them, and the root
/// before them, adds the moves of one position at most.
pub open spec fn most_nodes(simulations: int) -> int {
    1 + 4608 * (1 + simulations)
}

impl WaveSearch {
    /// What holds of a search at any time.
    pub open spec fn base_wf(&self) -> bool {
        &&& self.tree.wf()
        &&& self.tree.fens@[0] == self.fen@
        &&& grown(self.tree.arena@, 0)
        &&& moves_from(self.tree.arena@[0]) == leaf_moves(self.fen@)
        &&& self.simulations < u32::MAX
        &&& self.remaining + self.in_wave <= self.simulations
        &&& self.cache_hits + self.cache_misses + self.terminals == self.started()
        &&& self.tree.collisions <= self.simulations
        &&& self.tree.arena@.len() <= most_nodes(self.tree.done@.len() as int)
        &&& self.cache.wf()
        &&& forall|fen: Seq<char>| #[trigger]
            self.cache@.contains_key(fen) ==> self.cache@[fen].priors.len() == leaf_moves(
                fen,
            ).len()
        &&& forall|i: int|
            0 <= i < self.pending@.len() ==> ends_in(
                self.tree,
                (#[trigger] self.pending@[i]).walk,
                self.pending@[i].moves@,
            )
    }

    /// How many walks have arrived.
    pub open spec fn started(&self) -> int {
        self.simulations - self.remaining - self.in_wave
    }

    /// What holds between two walks: those in flight are the waiting ones.
    pub open spec fn wf(&self) -> bool {
        &&& self.base_wf()
        &&& self.tree.walks@.to_multiset() == waiting_paths(self.pending@).to_multiset()
        &&& self.tree.walks@.len() + self.tree.done@.len() == self.started()
        &&& self.tree.collisions <= self.started()
    }

    /// What holds during a walk: it is in flight beside the waiting ones.
    pub open spec fn walking(&self, walk: &Walk) -> bool {
        &&& self.base_wf()
        &&& self.in_wave > 0
        &&& self.tree.walking(walk)
        &&& self.tree.walks@.drop_last().to_multiset() == waiting_paths(
            self.pending@,
        ).to_multiset()
        &&& self.tree.walks@.len() + self.tree.done@.len() == self.started() + 1
        &&& self.tree.collisions <= self.started()
    }

    /// What holds once a walk has arrived and can be backed up.
    pub open spec fn settling(&self, path: Seq<usize>) -> bool {
        &&& self.base_wf()
        &&& self.tree.walks@.to_multiset() == waiting_paths(self.pending@).to_multiset().insert(path)
        &&& self.tree.walks@.len() + self.tree.done@.len() == self.started()
        &&& self.tree.collisions <= self.started()
    }

    /// A search from the position of a FEN, with the policy's priors for its moves; none
    /// where the FEN cannot be read, or there is no move, or not one prior for each.
    pub fn start(
        fen: &str,
        priors: &Vec<Single>,
        simulations: usize,
        batch_size: usize,
        keep: bool,
    ) -> (search: Option<WaveSearch>)
        requires
            simulations < u32::MAX,
        ensures
            search is Some <==> leaf_moves(fen@).len() > 0 && priors@.len() == leaf_moves(
                fen@,
            ).len(),
            search matches Some(s) ==> {
                &&& s.wf()
                &&& s.fen@ == fen@
                &&& s.clock == number_or_zero(field(fen@, 0, 4))
                &&& s.simulations == simulations
                &&& s.remaining == simulations
                &&& s.batch_size == batch_size
                &&& s.keep == keep
                &&& s.in_wave == 0
                &&& s.pending@.len() == 0
                &&& s.tree.collisions == 0
                &&& s.cache_hits == 0
                &&& s.cache_misses == 0
                &&& s.cache@ == Map::<Seq<char>, PredictedView>::empty()
                &&& s.tree.fens@ == fens_after_growth(seq![fen@], 0, leaf_moves(fen@))
                &&& s.tree.nodes() == with_kids(
                    seq![fresh_node(Single::zero_spec())],
                    0,
                    leaf_moves(fen@),
                    priors@,
                )
            },
    {
        let leaf: Leaf = Leaf::read(fen);
        if leaf.moves.len() == 0 || leaf.moves.len() != priors.len() {
            return None;
        }
        proof {
            lemma_leaf_moves_legal(fen@);
        }
        let mut tree: McTree = McTree::new(fen);
        let ghost before = tree.arena@;
        tree.expand(0, &leaf.moves, priors);
        let clock: u32 = halfmove_clock(fen);
        proof {
            assert(before[0].children@ =~= Seq::<(Move, usize)>::empty());
            assert(nodes_of(before) =~= seq![fresh_node(Single::zero_spec())]);
            lemma_grown_nodes(before, 0, leaf_moves(fen@), priors@, tree.arena@);
        }
        let search = WaveSearch {
            tree,
            fen: fen.to_owned(),
            clock,
            simulations,
            batch_size,
            remaining: simulations,
            in_wave: 0,
            keep,
            cache: Kept::new(),
            cache_hits: 0,
            cache_misses: 0,
            terminals: 0,
            pending: Vec::new(),
        };
        assert(search.tree.walks@ =~= waiting_paths(search.pending@));
        assert(search.tree.arena@[0].children@ =~= Seq::new(
            priors@.len(),
            |c: int| (leaf_moves(fen@)[c], (1 + c) as usize),
        ));
        assert(moves_from(search.tree.arena@[0]) =~= leaf_moves(fen@));
        Some(search)
    }

    /// Starts the next wave, of as many simulations as a batch takes or as are left.
    pub fn next_wave(&mut self) -> (more: bool)
        requires
            old(self).wf(),
            old(self).in_wave == 0,
            old(self).batch_size > 0,
        ensures
            final(self).wf(),
            more == (old(self).remaining > 0),
            final(self).in_wave == (if old(self).remaining < old(self).batch_size {
                old(self).remaining
            } else {
                old(self).batch_size
            }),
            final(self).remaining == old(self).remaining - final(self).in_wave,
            final(self).tree == old(self).tree,
            final(self).cache == old(self).cache,
            final(self).pending@ == old(self).pending@,
            final(self).simulations == old(self).simulations,
            final(self).batch_size == old(self).batch_size,
            final(self).keep == old(self).keep,
            final(self).fen@ == old(self).fen@,
            final(self).clock == old(self).clock,
            final(self).cache_hits == old(self).cache_hits,
            final(self).cache_misses == old(self).cache_misses,
    {
        let more: bool = self.remaining > 0;
        let size: usize = if self.remaining < self.batch_size {
            self.remaining
        } else {
            self.batch_size
        };
        self.in_wave = size;
        self.remaining = self.remaining - size;
        more
    }

    /// Whether all but the tree is the same.
    pub open spec fn same_but_tree(&self, other: &WaveSearch) -> bool {
        &&& self.fen@ == other.fen@
        &&& self.clock == other.clock
        &&& self.simulations == other.simulations
        &&& self.batch_size == other.batch_size
        &&& self.remaining == other.remaining
        &&& self.in_wave == other.in_wave
        &&& self.keep == other.keep
        &&& self.cache == other.cache
        &&& self.cache_hits == other.cache_hits
        &&& self.cache_misses == other.cache_misses
        &&& self.terminals == other.terminals
        &&& self.pending@ == other.pending@
    }

    /// Ends a walk at its leaf: where the game is over, or an evaluation is kept, the walk is
    /// settled, and otherwise it waits.
    pub fn arrive(&mut self, walk: Walk, leaf: Leaf) -> (arrival: Arrival)
        requires
            old(self).walking(&walk),
            !grown(old(self).tree.arena@, walk.path@.last() as int),
            leaf.of(walk.fen@),
        ensures
            final(self).in_wave == old(self).in_wave - 1,
            final(self).remaining == old(self).remaining,
            final(self).cache == old(self).cache,
            final(self).tree.arena@ == old(self).tree.arena@,
            final(self).simulations == old(self).simulations,
            final(self).batch_size == old(self).batch_size,
            final(self).keep == old(self).keep,
            final(self).fen@ == old(self).fen@,
            final(self).clock == old(self).clock,
            final(self).tree.fens@ == old(self).tree.fens@,
            final(self).tree.collisions == old(self).tree.collisions + collides(
                old(self).tree.nodes(),
                walk.path@,
            ),
            passing(old(self).tree.walks@, walk.path@.last() as int) <= 1
                ==> final(self).tree.collisions == old(self).tree.collisions,
            ({
                let over = leaf.over is Some;
                let hit = !over && old(self).keep && old(self).cache@.contains_key(walk.fen@);
                &&& final(self).terminals == old(self).terminals + (if over {
                    1int
                } else {
                    0
                })
                &&& final(self).cache_hits == old(self).cache_hits + (if hit {
                    1int
                } else {
                    0
                })
                &&& final(self).cache_misses == old(self).cache_misses + (if over || hit {
                    0int
                } else {
                    1
                })
                &&& match arrival {
                    Arrival::Settled { walk: w, moves, priors, value } => {
                        &&& over || hit
                        &&& w.path@ == walk.path@
                        &&& w.fen@ == walk.fen@
                        &&& moves@ == leaf.moves@
                        &&& priors@.len() == moves@.len()
                        &&& over ==> value == leaf.over->0
                        &&& hit ==> {
                            &&& value == old(self).cache@[walk.fen@].value
                            &&& priors@ == old(self).cache@[walk.fen@].priors
                        }
                        &&& final(self).pending@ == old(self).pending@
                        &&& final(self).settling(w.path@)
                        &&& ends_in(final(self).tree, w, moves@)
                    },
                    Arrival::Waiting => {
                        &&& !over && !hit
                        &&& final(self).wf()
                        &&& final(self).pending@.len() == old(self).pending@.len() + 1
                        &&& final(self).pending@.drop_last() == old(self).pending@
                        &&& final(self).pending@.last().walk == walk
                        &&& final(self).pending@.last().moves@ == leaf.moves@
                        &&& final(self).pending@.last().hash == leaf.hash
                    },
                }
            }),
    {
        let ghost walks = self.tree.walks@;
        let ghost path = walk.path@;
        proof {
            assert(walk_wf(self.tree.arena@, walks[walks.len() - 1]));
            assert(path[path.len() - 1] < self.tree.arena@.len());
            assert(self.tree.arena@[path.last() as int].vln == passing(
                walks,
                path.last() as int,
            ));
            assert(walks =~= walks.drop_last().push(path));
            vstd::seq_lib::to_multiset_build(walks.drop_last(), path);
        }
        self.tree.arrive(&walk);
        self.in_wave = self.in_wave - 1;
        match leaf.over {
            Some(value) => {
                self.terminals = self.terminals + 1;
                return Arrival::Settled { walk, moves: leaf.moves, priors: Vec::new(), value };
            },
            None => {},
        }
        if self.keep {
            match self.cache.find(leaf.hash, walk.fen.as_str()) {
                Some(i) => {
                    self.cache_hits = self.cache_hits + 1;
                    let priors: Vec<Single> = copy_singles(&self.cache.evaluations[i].priors);
                    let value: Single = self.cache.evaluations[i].value;
                    return Arrival::Settled { walk, moves: leaf.moves, priors, value };
                },
                None => {},
            }
        }
        self.cache_misses = self.cache_misses + 1;
        let ghost before = self.pending@;
        self.pending.push(Pending { walk, moves: leaf.moves, hash: leaf.hash });
        proof {
            assert(self.pending@.drop_last() =~= before);
            assert(waiting_paths(self.pending@) =~= waiting_paths(before).push(path));
            vstd::seq_lib::to_multiset_build(waiting_paths(before), path);
        }
        Arrival::Waiting
    }

    /// Backs a settled walk up: its leaf gets its children, and the nodes that it passed
    /// their new sums.
    pub fn settle<M: WaveModel>(
        &mut self,
        walk: &Walk,
        moves: &Vec<Move>,
        priors: &Vec<Single>,
        value: Single,
        model: &M,
    )
        requires
            old(self).settling(walk.path@),
            ends_in(old(self).tree, *walk, moves@),
            priors@.len() == moves@.len(),
            old(self).tree.arena@.len() + moves@.len() <= usize::MAX,
        ensures
            final(self).wf(),
            final(self).same_but_tree(old(self)),
            final(self).tree.done@ == old(self).tree.done@.push(walk.path@),
            final(self).tree.collisions == old(self).tree.collisions,
            final(self).tree.nodes() == settled_nodes(
                *model,
                old(self).tree.nodes(),
                walk.path@,
                moves@,
                priors@,
                value,
            ),
            final(self).tree.fens@ == settled_fens(
                old(self).tree.nodes(),
                old(self).tree.fens@,
                walk.path@.last() as int,
                moves@,
            ),
    {
        broadcast use vstd::seq_lib::group_to_multiset_ensures;

        let ghost start_tree = self.tree;
        let leaf: usize = walk.path[walk.path.len() - 1];
        proof {
            lemma_leaf_moves_legal(walk.fen@);
            assert(self.tree.walks@.to_multiset().count(walk.path@) > 0);
            assert(self.tree.walks@.contains(walk.path@));
            crate::mcts::root_counts_every_simulation(self.tree, 0);
            assert(self.tree.done@.len() < u32::MAX) by {
                assert(self.tree.walks@.len() > 0);
            }
        }
        self.tree.expand(leaf, moves, priors);
        let ghost middle = self.tree;
        proof {
            crate::mcts::root_counts_every_simulation(self.tree, 0);
            if !grown(start_tree.arena@, leaf as int) && moves@.len() > 0 {
                crate::mcts::lemma_growth_keeps_tree(
                    start_tree.arena@,
                    start_tree.fens@,
                    leaf as int,
                    moves@,
                    priors@,
                    middle.arena@,
                );
            }
        }
        self.tree.back_up(&walk.path, value, model);
        proof {
            let tree = self.tree;
            assert forall|j: int| 0 <= j < walk.path@.len() implies {
                let node = #[trigger] walk.path@[j] as int;
                &&& middle.arena@[node].vlw == start_tree.arena@[node].vlw
                &&& middle.arena@[node].w == start_tree.arena@[node].w
            } by {
                assert(walk.path@[j] < start_tree.arena@.len());
            }
            assert(released_sums(*model, middle.nodes(), walk.path@) =~= released_sums(
                *model,
                start_tree.nodes(),
                walk.path@,
            ));
            assert(total_sums(*model, middle.nodes(), walk.path@, value) =~= total_sums(
                *model,
                start_tree.nodes(),
                walk.path@,
                value,
            ));
            lemma_grown_nodes(start_tree.arena@, leaf as int, moves@, priors@, middle.arena@);
            lemma_visited_nodes(
                middle.arena@,
                tree.arena@,
                walk.path@,
                released_sums(*model, start_tree.nodes(), walk.path@),
                total_sums(*model, start_tree.nodes(), walk.path@, value),
            );
            crate::mcts::lemma_same_shape(middle.arena@, tree.arena@, tree.fens@);
            assert(grown(start_tree.arena@, 0));
            assert(grown(middle.arena@, 0));
            assert(grown(tree.arena@, 0));
            assert(middle.arena@[0].children@ == start_tree.arena@[0].children@);
            assert(tree.arena@[0].children@ == middle.arena@[0].children@);
            assert forall|i: int| 0 <= i < self.pending@.len() implies ends_in(
                tree,
                (#[trigger] self.pending@[i]).walk,
                self.pending@[i].moves@,
            ) by {
                assert(ends_in(start_tree, self.pending@[i].walk, self.pending@[i].moves@));
            }
            assert(tree.walks@.to_multiset() =~= waiting_paths(self.pending@).to_multiset());
            assert(tree.walks@.len() == start_tree.walks@.len() - 1);
        }
    }

    /// Takes the first waiting walk out, and keeps the evaluation of its leaf if evaluations
    /// are kept. The walk is settled then.
    pub fn evaluated(&mut self, priors: &Vec<Single>, value: Single) -> (settled: Option<Pending>)
        requires
            old(self).wf(),
            old(self).pending@.len() > 0 ==> priors@.len() == old(self).pending@[0].moves@.len(),
        ensures
            settled is Some <==> old(self).pending@.len() > 0,
            settled is None ==> final(self).wf() && final(self).pending@ == old(self).pending@,
            settled matches Some(p) ==> {
                &&& p == old(self).pending@[0]
                &&& final(self).pending@ == old(self).pending@.skip(1)
                &&& final(self).settling(p.walk.path@)
                &&& ends_in(final(self).tree, p.walk, p.moves@)
                &&& final(self).cache@ == (if old(self).keep {
                    old(self).cache@.insert(
                        p.walk.fen@,
                        PredictedView { priors: priors@, value },
                    )
                } else {
                    old(self).cache@
                })
            },
            final(self).tree == old(self).tree,
            final(self).clock == old(self).clock,
            final(self).in_wave == old(self).in_wave,
            final(self).remaining == old(self).remaining,
            final(self).cache_hits == old(self).cache_hits,
            final(self).cache_misses == old(self).cache_misses,
            final(self).simulations == old(self).simulations,
            final(self).batch_size == old(self).batch_size,
            final(self).keep == old(self).keep,
            final(self).fen@ == old(self).fen@,
    {
        let ghost before = self.pending@;
        if self.pending.len() == 0 {
            return None;
        }
        let p: Pending = self.pending.remove(0);
        if self.keep {
            self.cache.keep(p.hash, p.walk.fen.as_str(), priors, value);
        }
        proof {
            assert(self.pending@ =~= before.skip(1));
            assert(waiting_paths(self.pending@) =~= waiting_paths(before).remove(0));
            vstd::seq_lib::to_multiset_remove(waiting_paths(before), 0);
            vstd::seq_lib::to_multiset_contains(waiting_paths(before), p.walk.path@);
            assert(waiting_paths(before)[0] == p.walk.path@);
            assert(waiting_paths(before).to_multiset() =~= waiting_paths(
                self.pending@,
            ).to_multiset().insert(p.walk.path@));
            assert(ends_in(self.tree, before[0].walk, before[0].moves@));
            assert forall|i: int| 0 <= i < self.pending@.len() implies ends_in(
                self.tree,
                (#[trigger] self.pending@[i]).walk,
                self.pending@[i].moves@,
            ) by {
                assert(self.pending@[i] == before[i + 1]);
            }
        }
        Some(p)
    }

    /// What a search says, finished or not: its best move, and what it counted. The move is
    /// a legal one.
    pub fn outcome(&self) -> (outcome: SearchOutcome)
        requires
            self.wf(),
        ensures
            outcome.best_move is Some,
            exists|c: int|
                {
                    &&& #[trigger] most_visited_move(self.tree.nodes(), c)
                    &&& outcome.best_move->0@ == leaf_moves(self.fen@)[c].uci_spec()
                    &&& legal_moves_of(self.fen@).contains(leaf_moves(self.fen@)[c])
                },
            outcome.collisions == self.tree.collisions,
            outcome.cache_hits == self.cache_hits,
            outcome.cache_misses == self.cache_misses,
    {
        let best_move: Option<String> = match self.tree.best_move_by_visits() {
            Some(m) => {
                proof {
                    let arena = self.tree.arena@;
                    let kids = arena[0].children@;
                    let c = choose|c: int|
                        {
                            &&& 0 <= c < kids.len()
                            &&& kids[c].0 == m
                            &&& #[trigger] crate::mcts::most_visited_kid(arena, c)
                        };
                    assert forall|d: int| 0 <= d < kids.len() implies (
                    #[trigger] kids[d]).1 == first_kid(arena, 0) + d by {
                        assert(arena[0].children@[d].1 == first_kid(arena, 0) + d);
                    }
                    assert(moves_from(arena[0])[c] == leaf_moves(self.fen@)[c]);
                    assert(most_visited_move(self.tree.nodes(), c));
                    lemma_leaf_moves_legal(self.fen@);
                }
                Some(m.uci())
            },
            None => None,
        };
        SearchOutcome {
            best_move,
            collisions: self.tree.collisions,
            cache_hits: self.cache_hits,
            cache_misses: self.cache_misses,
        }
    }
}

/// The moves to expand are legal and on the board.
proof fn lemma_leaf_moves_legal(fen: Seq<char>)
    ensures
        leaf_moves(fen).len() > 0 ==> playable_fen(fen),
        forall|c: int|
            0 <= c < leaf_moves(fen).len() ==> legal_moves_of(fen).contains(
                #[trigger] leaf_moves(fen)[c],
            ),
{
    if over_spec(fen) is None {
        let moves = legal_moves_of(fen);
        let keep = |m: Move| !m.underpromotes();
        assert forall|c: int| 0 <= c < leaf_moves(fen).len() implies legal_moves_of(fen).contains(
            #[trigger] leaf_moves(fen)[c],
        ) by {
            assert(moves.filter(keep).contains(leaf_moves(fen)[c]));
            moves.lemma_filter_contains_rev(keep, leaf_moves(fen)[c]);
        }
    }
}

/// Every simulation is counted once: its leaf was one where the game is over, or was
/// evaluated before, or had to be evaluated. Once a search is done these are all of its
/// simulations, all of them are finished, and no stake is left.
pub proof fn every_simulation_is_counted(search: WaveSearch, i: int)
    requires
        search.wf(),
        search.remaining == 0,
        search.in_wave == 0,
        search.pending@.len() == 0,
        0 <= i < search.tree.arena@.len(),
    ensures
        search.cache_hits + search.cache_misses + search.terminals == search.simulations,
        search.tree.done@.len() == search.simulations,
        search.tree.arena@[0].n == search.simulations,
        search.tree.arena@[i].vln == 0,
{
    broadcast use vstd::seq_lib::group_to_multiset_ensures;

    assert(waiting_paths(search.pending@) =~= Seq::<Seq<usize>>::empty());
    assert(search.tree.walks@.len() == 0) by {
        assert(search.tree.walks@.to_multiset().len() == waiting_paths(
            search.pending@,
        ).to_multiset().len());
    }
    crate::mcts::root_counts_every_simulation(search.tree, i);
    crate::mcts::all_stakes_are_released(search.tree, i);
}

/// What a network says of a position: priors for its moves, and a value for the side to
/// move.
#[derive(Debug)]
pub struct Predicted {
    pub priors: Vec<Single>,
    pub value: Single,
}

/// What a prediction holds.
pub struct PredictedView {
    pub priors: Seq<Single>,
    pub value: Single,
}

impl View for Predicted {
    type V = PredictedView;

    open spec fn view(&self) -> PredictedView {
        PredictedView { priors: self.priors@, value: self.value }
    }
}

/// What predictions hold.
pub open spec fn predicted_views(predicted: Seq<Predicted>) -> Seq<PredictedView> {
    Seq::new(predicted.len(), |i: int| predicted[i]@)
}

/// What a search asks of a network and of the arithmetic around it.
///
/// An answer depends on the question and on the model before it. An implementation may say
/// that its answers are in full: then they have the lengths asked for.
pub trait WaveModel: Sized {
    /// Whether all answers have the lengths asked for, from now on. An implementation that
    /// does not say so promises nothing.
    open spec fn answers_in_full(&self) -> bool {
        false
    }

    /// A staked sum with one more stake.
    open spec fn stake_spec(&self, sum: Single) -> Single {
        arbitrary()
    }

    /// A staked sum with one stake less.
    open spec fn release_spec(&self, sum: Single) -> Single {
        arbitrary()
    }

    /// A sum of values with one more value.
    open spec fn plus_spec(&self, sum: Single, value: Single) -> Single {
        arbitrary()
    }

    /// The scores of the children of a node, and the model after them.
    open spec fn score_spec(&self, nodes: Seq<NodeView>, node: usize) -> (Seq<Single>, Self) {
        arbitrary()
    }

    /// What the network says of leaves, and the model after it.
    open spec fn evaluate_spec(&self, leaves: Seq<LeafView>) -> (Seq<PredictedView>, Self) {
        arbitrary()
    }

    /// A staked sum with one more stake.
    fn stake(&self, sum: Single) -> (staked: Single)
        ensures
            staked == self.stake_spec(sum),
    ;

    /// A staked sum with one stake less.
    fn release(&self, sum: Single) -> (released: Single)
        ensures
            released == self.release_spec(sum),
    ;

    /// A sum of values with one more value.
    fn plus(&self, sum: Single, value: Single) -> (total: Single)
        ensures
            total == self.plus_spec(sum, value),
    ;

    /// The scores of the children of a node.
    fn score(&mut self, tree: &McTree, node: usize) -> (scores: Vec<Single>)
        ensures
            (scores@, *final(self)) == old(self).score_spec(tree.nodes(), node),
            old(self).answers_in_full() ==> final(self).answers_in_full() && (node
                < tree.arena@.len() ==> scores@.len()
                == tree.arena@[node as int].children@.len()),
    ;

    /// What the network says of the leaves that wait.
    fn evaluate(&mut self, leaves: &Vec<Pending>) -> (predicted: Vec<Predicted>)
        ensures
            (predicted_views(predicted@), *final(self)) == old(self).evaluate_spec(
                leaf_views(leaves@),
            ),
            old(self).answers_in_full() ==> final(self).answers_in_full() && fits_leaves(
                leaves@,
                predicted@,
            ),
    ;
}

/// Whether there is a prediction for each leaf, with a prior for each of its moves.
pub open spec fn fits_leaves(leaves: Seq<Pending>, predicted: Seq<Predicted>) -> bool {
    &&& predicted.len() == leaves.len()
    &&& forall|k: int|
        0 <= k < leaves.len() ==> (#[trigger] predicted[k]).priors@.len()
            == leaves[k].moves@.len()
}

impl McTree {
    /// What the staked sums of a node's children would become with one more stake.
    fn stakes_below<M: WaveModel>(&self, node: usize, model: &M) -> (staked: Vec<Single>)
        requires
            self.wf(),
            node < self.arena@.len(),
        ensures
            staked@.len() == self.arena@[node as int].children@.len(),
            forall|c: int|
                0 <= c < staked@.len() ==> #[trigger] staked@[c] == model.stake_spec(
                    self.arena@[self.arena@[node as int].children@[c].1 as int].vlw,
                ),
    {
        let mut staked: Vec<Single> = Vec::new();
        let mut c: usize = 0;
        while c < self.arena[node].children.len()
            invariant
                self.wf(),
                node < self.arena@.len(),
                c <= self.arena@[node as int].children@.len(),
                staked@.len() == c,
                forall|d: int|
                    0 <= d < c ==> #[trigger] staked@[d] == model.stake_spec(
                        self.arena@[self.arena@[node as int].children@[d].1 as int].vlw,
                    ),
            decreases self.arena@[node as int].children@.len() - c,
        {
            let child: usize = self.arena[node].children[c].1;
            proof {
                let arena = self.arena@;
                assert(arena[node as int].children@[c as int].1 == first_kid(arena, node as int)
                    + c);
                assert(grown(arena, node as int));
            }
            staked.push(model.stake(self.arena[child].vlw));
            c = c + 1;
        }
        staked
    }

    /// Backs a value up along a walk: releases its stakes, and adds a visit and the value as
    /// each node sees it.
    pub fn back_up<M: WaveModel>(&mut self, path: &Vec<usize>, value: Single, model: &M)
        requires
            old(self).wf(),
            old(self).walks@.contains(path@),
            old(self).arena@[0].n < u32::MAX,
        ensures
            final(self).wf(),
            final(self).fens@ == old(self).fens@,
            final(self).collisions == old(self).collisions,
            final(self).done@ == old(self).done@.push(path@),
            exists|k: int|
                0 <= k < old(self).walks@.len() && old(self).walks@[k] == path@
                    && final(self).walks@ == #[trigger] old(self).walks@.remove(k),
            final(self).walks@.to_multiset() == old(self).walks@.to_multiset().remove(path@),
            same_shape(old(self).arena@, final(self).arena@),
            visited(
                old(self).arena@,
                final(self).arena@,
                path@,
                released_sums(*model, old(self).nodes(), path@),
                total_sums(*model, old(self).nodes(), path@, value),
            ),
            exists|x: Seq<Single>|
                {
                    &&& #[trigger] x.len() == path@.len()
                    &&& x[path@.len() - 1] == value
                    &&& forall|j: int|
                        0 <= j < path@.len() - 1 ==> #[trigger] x[j] == x[j + 1].neg_spec()
                    &&& forall|j: int|
                        0 <= j < path@.len() ==> {
                            let before = old(self).arena@[#[trigger] path@[j] as int];
                            let after = final(self).arena@[path@[j] as int];
                            &&& after.w == model.plus_spec(before.w, x[j])
                            &&& after.n == before.n + 1
                            &&& after.vln == before.vln - 1
                            &&& after.vlw == model.release_spec(before.vlw)
                            &&& after.prior == before.prior
                        }
                },
    {
        let ghost k = choose|k: int| 0 <= k < self.walks@.len() && self.walks@[k] == path@;
        proof {
            assert(walk_wf(self.arena@, self.walks@[k]));
        }
        let mut released: Vec<Single> = Vec::new();
        let mut totals: Vec<Single> = Vec::new();
        let len: usize = path.len();
        let mut j: usize = 0;
        while j < len
            invariant
                j <= len,
                len == path@.len(),
                *self == *old(self),
                walk_wf(self.arena@, path@),
                released@.len() == j,
                totals@.len() == j,
                forall|i: int|
                    0 <= i < j ==> #[trigger] released@[i] == model.release_spec(
                        self.arena@[path@[i] as int].vlw,
                    ),
                forall|i: int|
                    0 <= i < j ==> #[trigger] totals@[i] == model.plus_spec(
                        self.arena@[path@[i] as int].w,
                        turned(value, len - 1 - i),
                    ),
            decreases len - j,
        {
            let node: usize = path[j];
            let seen: Single = if (len - 1 - j) % 2 == 0 {
                value
            } else {
                value.negated()
            };
            released.push(model.release(self.arena[node].vlw));
            totals.push(model.plus(self.arena[node].w, seen));
            j = j + 1;
        }
        proof {
            assert(released@ =~= released_sums(*model, self.nodes(), path@));
            assert(totals@ =~= total_sums(*model, self.nodes(), path@, value));
        }
        self.unstake_and_backup(path, &released, &totals);
        proof {
            let x = Seq::new(path@.len(), |j: int| turned(value, path@.len() - 1 - j));
            crate::single::negation_reverses_order(value, value);
            assert forall|j: int| 0 <= j < path@.len() - 1 implies #[trigger] x[j] == x[j
                + 1].neg_spec() by {}
            let r = choose|r: int|
                0 <= r < old(self).walks@.len() && old(self).walks@[r] == path@ && self.walks@
                    == #[trigger] old(self).walks@.remove(r);
            assert forall|j: int| 0 <= j < path@.len() implies ({
                let before = old(self).arena@[#[trigger] path@[j] as int];
                let after = self.arena@[path@[j] as int];
                &&& after.w == model.plus_spec(before.w, x[j])
                &&& after.n == before.n + 1
                &&& after.vln == before.vln - 1
                &&& after.vlw == model.release_spec(before.vlw)
                &&& after.prior == before.prior
            }) by {
                let i = path@[j] as int;
                assert(path@.contains(i as usize));
                crate::mcts::lemma_passing_push(old(self).done@, path@, i);
                crate::mcts::lemma_passing_remove(old(self).walks@, r, i);
                assert(old(self).arena@[i].n == passing(old(self).done@, i));
                assert(old(self).arena@[i].vln == passing(old(self).walks@, i));
                assert(self.arena@[i].n == passing(self.done@, i));
                assert(self.arena@[i].vln == passing(self.walks@, i));
            }
            assert(x.len() == path@.len());
        }
    }

    /// Walks from the root to a leaf by the model's scores, and stakes its loss on the way;
    /// none where the model gave the wrong number of scores, or a clock would not fit 32 bits.
    pub fn walk_down<M: WaveModel>(&mut self, fen: &str, clock: u32, model: &mut M) -> (walk:
        Option<Walk>)
        requires
            old(self).wf(),
            fen@ == old(self).fens@[0],
            old(self).arena@[0].vln + 1 < u32::MAX,
        ensures
            final(self).fens@ == old(self).fens@,
            final(self).done@ == old(self).done@,
            final(self).collisions == old(self).collisions,
            walk matches Some(w) ==> {
                &&& final(self).wf()
                &&& final(self).walking(&w)
                &&& final(self).walks@ == old(self).walks@.push(w.path@)
                &&& same_shape(old(self).arena@, final(self).arena@)
                &&& !grown(final(self).arena@, w.path@.last() as int)
            },
            walked(begun(old(self).nodes(), old(self).fens@, clock, *old(model))) == (match walk {
                Some(w) => Some(
                    Stage {
                        nodes: final(self).nodes(),
                        fens: old(self).fens@,
                        path: w.path@,
                        clock: w.clock,
                        model: *final(model),
                    },
                ),
                None => None,
            }),
            old(model).answers_in_full() && clock + old(self).arena@.len() <= u32::MAX
                ==> walk is Some && final(model).answers_in_full(),
    {
        let ghost before = self.arena@;
        let ghost walks = self.walks@;
        let staked: Single = model.stake(self.arena[0].vlw);
        let mut walk: Walk = self.begin(fen, clock, staked);
        let ghost whole = walked(begun(nodes_of(before), self.fens@, clock, *old(model)));
        proof {
            lemma_staked_nodes(before, 0, staked);
            assert(begun(nodes_of(before), self.fens@, clock, *old(model)).path =~= walk.path@);
        }
        let mut at: Option<usize> = self.to_score(&walk);
        while at.is_some()
            invariant
                self.wf(),
                self.walking(&walk),
                self.walks@ == walks.push(walk.path@),
                walks == old(self).walks@,
                before == old(self).arena@,
                self.fens@ == old(self).fens@,
                self.done@ == old(self).done@,
                self.collisions == old(self).collisions,
                self.arena@[0].vln < u32::MAX,
                same_shape(before, self.arena@),
                walk.clock < clock + walk.path@.len(),
                at is Some <==> grown(self.arena@, walk.path@.last() as int),
                at matches Some(x) ==> x == walk.path@.last(),
                whole == walked(
                    begun(old(self).nodes(), old(self).fens@, clock, *old(model)),
                ),
                whole == walked(
                    Stage {
                        nodes: self.nodes(),
                        fens: self.fens@,
                        path: walk.path@,
                        clock: walk.clock,
                        model: *model,
                    },
                ),
                old(model).answers_in_full() ==> model.answers_in_full(),
            decreases self.arena@.len() - walk.path@.last(),
        {
            let node: usize = at.unwrap();
            let ghost arena = self.arena@;
            proof {
                let last = self.walks@[self.walks@.len() - 1];
                assert(walk_wf(arena, last));
                assert(walk.path@[walk.path@.len() - 1] < arena.len());
                assert(grown(arena, node as int));
                assert(has_kids(self.nodes(), node as int));
                crate::mcts::lemma_walk_length(arena, last);
            }
            if walk.clock == u32::MAX {
                return None;
            }
            let scores: Vec<Single> = model.score(self, node);
            if scores.len() != self.arena[node].children.len() {
                return None;
            }
            let staked: Vec<Single> = self.stakes_below(node, model);
            walk = self.descend(walk, &scores, &staked);
            at = self.to_score(&walk);
            proof {
                let x = walk.path@.last() as int;
                let k = x - first_kid(arena, node as int);
                lemma_one_kid(scores@, k);
                assert(arena[node as int].children@[k].1 == first_kid(arena, node as int) + k);
                assert(staked@[k] == model.stake_spec(arena[x].vlw));
                lemma_staked_nodes(arena, x, staked@[k]);
                assert(walk_wf(self.arena@, self.walks@[self.walks@.len() - 1]));
                assert(walk.path@[walk.path@.len() - 1] < self.arena@.len());
                assert(self.walks@ =~= walks.push(walk.path@));
            }
        }
        Some(walk)
    }
}

impl WaveSearch {
    /// What the search comes to beside a model, when the network has given some answers.
    pub open spec fn moment<M: WaveModel>(&self, answers: Seq<PredictedView>, model: M) -> Moment<
        M,
    > {
        Moment {
            nodes: self.tree.nodes(),
            fens: self.tree.fens@,
            clock: self.clock,
            kept: self.cache@,
            remaining: self.remaining as nat,
            in_wave: self.in_wave as nat,
            hits: self.cache_hits as nat,
            misses: self.cache_misses as nat,
            collisions: self.tree.collisions as nat,
            pending: all_waiting(self.pending@),
            answers,
            model,
        }
    }

    /// Walks from the root to a leaf; none where the model gave the wrong number of scores,
    /// or a clock would not fit 32 bits.
    fn walk_down<M: WaveModel>(&mut self, model: &mut M) -> (walk: Option<Walk>)
        requires
            old(self).wf(),
            old(self).in_wave > 0,
        ensures
            final(self).same_but_tree(old(self)),
            final(self).tree.collisions == old(self).tree.collisions,
            final(self).tree.fens@ == old(self).tree.fens@,
            walk matches Some(w) ==> {
                &&& final(self).walking(&w)
                &&& !grown(final(self).tree.arena@, w.path@.last() as int)
            },
            walked(
                begun(
                    old(self).tree.nodes(),
                    old(self).tree.fens@,
                    old(self).clock,
                    *old(model),
                ),
            ) == (match walk {
                Some(w) => Some(
                    Stage {
                        nodes: final(self).tree.nodes(),
                        fens: old(self).tree.fens@,
                        path: w.path@,
                        clock: w.clock,
                        model: *final(model),
                    },
                ),
                None => None,
            }),
            old(model).answers_in_full() && old(self).clock + most_nodes(
                old(self).simulations as int,
            ) <= u32::MAX ==> walk is Some && final(model).answers_in_full(),
    {
        proof {
            crate::mcts::root_counts_every_simulation(self.tree, 0);
        }
        let walk: Option<Walk> = self.tree.walk_down(self.fen.as_str(), self.clock, model);
        proof {
            if walk is Some {
                assert(self.tree.walks@.drop_last() =~= old(self).tree.walks@);
                crate::mcts::lemma_same_shape(
                    old(self).tree.arena@,
                    self.tree.arena@,
                    self.tree.fens@,
                );
                assert forall|i: int| 0 <= i < self.pending@.len() implies ends_in(
                    self.tree,
                    (#[trigger] self.pending@[i]).walk,
                    self.pending@[i].moves@,
                ) by {
                    assert(ends_in(
                        old(self).tree,
                        old(self).pending@[i].walk,
                        old(self).pending@[i].moves@,
                    ));
                }
                assert(grown(old(self).tree.arena@, 0));
                assert(self.tree.arena@[0].children@ == old(self).tree.arena@[0].children@);
            }
        }
        walk
    }

    /// Backs a settled walk up; false where the tree would have more nodes than can be counted.
    fn settle_with<M: WaveModel>(
        &mut self,
        walk: &Walk,
        moves: &Vec<Move>,
        priors: &Vec<Single>,
        value: Single,
        model: &M,
    ) -> (settled: bool)
        requires
            old(self).settling(walk.path@),
            ends_in(old(self).tree, *walk, moves@),
            priors@.len() == moves@.len(),
        ensures
            settled ==> {
                &&& final(self).wf()
                &&& final(self).same_but_tree(old(self))
                &&& final(self).tree.collisions == old(self).tree.collisions
                &&& final(self).tree.done@ == old(self).tree.done@.push(walk.path@)
                &&& final(self).tree.nodes() == settled_nodes(
                    *model,
                    old(self).tree.nodes(),
                    walk.path@,
                    moves@,
                    priors@,
                    value,
                )
                &&& final(self).tree.fens@ == settled_fens(
                    old(self).tree.nodes(),
                    old(self).tree.fens@,
                    walk.path@.last() as int,
                    moves@,
                )
            },
            !settled ==> *final(self) == *old(self),
            settled <==> old(self).tree.nodes().len() + moves@.len() <= usize::MAX,
    {
        let size: usize = self.tree.arena.len();
        if size > usize::MAX - moves.len() {
            return false;
        }
        self.settle(walk, moves, priors, value, model);
        true
    }

    /// Walks all walks of a wave, and backs up those whose leaves need no evaluation.
    #[verifier::rlimit(40)]
    fn walk_wave<M: WaveModel>(&mut self, model: &mut M) -> (done: bool)
        requires
            old(self).wf(),
            old(self).pending@.len() == 0,
            old(self).in_wave <= old(self).batch_size,
        ensures
            done ==> {
                &&& final(self).wf()
                &&& final(self).in_wave == 0
                &&& final(self).remaining == old(self).remaining
                &&& final(self).simulations == old(self).simulations
                &&& final(self).batch_size == old(self).batch_size
                &&& final(self).keep == old(self).keep
                &&& final(self).clock == old(self).clock
                &&& final(self).fen@ == old(self).fen@
                &&& old(self).batch_size == 1 ==> final(self).tree.collisions
                    == old(self).tree.collisions
                &&& leads_to(
                    old(self).keep,
                    old(self).batch_size as nat,
                    old(self).moment(Seq::empty(), *old(model)),
                    final(self).moment(Seq::empty(), *final(model)),
                )
                &&& final(self).tree.walks@.len() + final(self).tree.done@.len() == old(
                    self,
                ).tree.done@.len() + old(self).in_wave
            },
            !done ==> gives_up(
                old(self).keep,
                old(self).batch_size as nat,
                old(self).moment(Seq::empty(), *old(model)),
            ),
            old(model).answers_in_full() && old(self).clock + most_nodes(old(self).simulations as int) <= u32::MAX ==> done
                && final(model).answers_in_full(),
    {
        let ghost none = Seq::<PredictedView>::empty();
        let ghost first = self.moment(none, *model);
        let ghost keep = self.keep;
        let ghost batch = self.batch_size as nat;
        proof {
            lemma_waiting_walks(*self);
            lemma_stays(keep, batch, first);
        }
        while self.in_wave > 0
            invariant
                self.wf(),
                self.tree.walks@.len() + self.tree.done@.len() + self.in_wave
                    == old(self).tree.done@.len() + old(self).in_wave,
                old(model).answers_in_full() && old(self).clock + most_nodes(
                    old(self).simulations as int,
                ) <= u32::MAX ==> model.answers_in_full(),
                self.in_wave + self.pending@.len() <= self.batch_size,
                self.remaining == old(self).remaining,
                self.simulations == old(self).simulations,
                self.batch_size == old(self).batch_size,
                self.keep == keep,
                self.clock == old(self).clock,
                self.fen@ == old(self).fen@,
                self.batch_size == 1 ==> self.tree.collisions == old(self).tree.collisions,
                keep == old(self).keep,
                batch == old(self).batch_size,
                none == Seq::<PredictedView>::empty(),
                first == old(self).moment(none, *old(model)),
                leads_to(keep, batch, first, self.moment(none, *model)),
            decreases self.in_wave,
        {
            let ghost before = self.moment(none, *model);
            match self.walk_down(model) {
                None => {
                    proof {
                        lemma_stuck(keep, batch, first, before);
                    }
                    return false;
                },
                Some(walk) => {
                    let ghost path = walk.path@;
                    let leaf: Leaf = Leaf::read(walk.fen.as_str());
                    proof {
                        if self.batch_size == 1 {
                            lemma_alone(*self, walk);
                        }
                    }
                    match self.arrive(walk, leaf) {
                        Arrival::Settled { walk: arrived, moves, priors, value } => {
                            proof {
                                lemma_one_to_settle(*self, arrived.path@);
                            }
                            if !self.settle_with(&arrived, &moves, &priors, value, model) {
                                proof {
                                    lemma_stuck(keep, batch, first, before);
                                }
                                return false;
                            }
                            proof {
                                let after = self.moment(none, *model);
                                assert(moves@.len() == 0 ==> priors@ =~= Seq::<Single>::empty());
                                assert(walk_step(keep, before) == Some(after));
                                lemma_leads_on(keep, batch, first, before, after);
                            }
                        },
                        Arrival::Waiting => {
                            proof {
                                let after = self.moment(none, *model);
                                assert(after.pending =~= before.pending.push(
                                    Waiting { path, leaf: self.pending@.last()@ },
                                ));
                                assert(walk_step(keep, before) == Some(after));
                                lemma_leads_on(keep, batch, first, before, after);
                            }
                        },
                    }
                },
            }
        }
        true
    }

    /// Backs the first walk that waits up with what the network said of its leaf. `answers` is
    /// all that it said of the leaves that still wait.
    #[verifier::rlimit(40)]
    fn settle_first<M: WaveModel>(
        &mut self,
        predicted: &Predicted,
        model: &mut M,
        Ghost(answers): Ghost<Seq<PredictedView>>,
    ) -> (settled: bool)
        requires
            old(self).wf(),
            old(self).in_wave == 0,
            old(self).pending@.len() > 0,
            answers.len() == old(self).pending@.len(),
            answers[0] == predicted@,
        ensures
            settled ==> {
                &&& final(self).wf()
                &&& final(self).in_wave == 0
                &&& final(self).pending@ == old(self).pending@.skip(1)
                &&& final(self).remaining == old(self).remaining
                &&& final(self).simulations == old(self).simulations
                &&& final(self).batch_size == old(self).batch_size
                &&& final(self).keep == old(self).keep
                &&& final(self).clock == old(self).clock
                &&& final(self).fen@ == old(self).fen@
                &&& final(self).tree.collisions == old(self).tree.collisions
                &&& final(self).tree.walks@.len() + final(self).tree.done@.len() == old(
                    self,
                ).tree.walks@.len() + old(self).tree.done@.len()
            },
            settle_step(old(self).keep, old(self).moment(answers, *old(model))) == (if settled {
                Some(final(self).moment(answers.skip(1), *final(model)))
            } else {
                None
            }),
            old(model).answers_in_full() ==> final(model).answers_in_full(),
            old(model).answers_in_full() && most_nodes(old(self).simulations as int) <= usize::MAX
                && predicted.priors@.len() == old(self).pending@[0].moves@.len() ==> settled,
    {
        let ghost before = self.moment(answers, *model);
        if predicted.priors.len() != self.pending[0].moves.len() {
            return false;
        }
        match self.evaluated(&predicted.priors, predicted.value) {
            None => false,
            Some(p) => {
                proof {
                    lemma_one_to_settle(*self, p.walk.path@);
                    assert(p@ == before.pending[0].leaf);
                    assert(all_waiting(self.pending@) =~= before.pending.skip(1));
                }
                self.settle_with(&p.walk, &p.moves, &predicted.priors, predicted.value, model)
            },
        }
    }

    /// Asks the network of all leaves that wait, and backs their walks up.
    #[verifier::rlimit(40)]
    fn settle_wave<M: WaveModel>(&mut self, model: &mut M) -> (done: bool)
        requires
            old(self).wf(),
            old(self).pending@.len() > 0,
            old(self).in_wave == 0,
        ensures
            done ==> {
                &&& final(self).wf()
                &&& final(self).in_wave == 0
                &&& final(self).remaining == old(self).remaining
                &&& final(self).simulations == old(self).simulations
                &&& final(self).batch_size == old(self).batch_size
                &&& final(self).keep == old(self).keep
                &&& final(self).clock == old(self).clock
                &&& final(self).fen@ == old(self).fen@
                &&& old(self).batch_size == 1 ==> final(self).tree.collisions
                    == old(self).tree.collisions
                &&& leads_to(
                    old(self).keep,
                    old(self).batch_size as nat,
                    old(self).moment(Seq::empty(), *old(model)),
                    final(self).moment(Seq::empty(), *final(model)),
                )
                &&& final(self).pending@.len() == 0
                &&& final(self).tree.done@.len() == old(self).tree.walks@.len() + old(
                    self,
                ).tree.done@.len()
            },
            !done ==> gives_up(
                old(self).keep,
                old(self).batch_size as nat,
                old(self).moment(Seq::empty(), *old(model)),
            ),
            old(model).answers_in_full() && most_nodes(old(self).simulations as int) <= usize::MAX
                ==> done && final(model).answers_in_full(),
    {
        let ghost none = Seq::<PredictedView>::empty();
        let ghost first = self.moment(none, *model);
        let ghost keep = self.keep;
        let ghost batch = self.batch_size as nat;
        proof {
            lemma_stays(keep, batch, first);
        }
        let ghost before = self.moment(none, *model);
        let predicted: Vec<Predicted> = model.evaluate(&self.pending);
        if predicted.len() != self.pending.len() {
            proof {
                assert(leaves_of(before.pending) =~= leaf_views(self.pending@));
                lemma_stuck(keep, batch, first, before);
            }
            return false;
        }
        let ghost waiting = self.pending@;
        let ghost answers = predicted_views(predicted@);
        proof {
            assert(waiting.skip(0) =~= waiting);
            assert(answers.skip(0) =~= answers);
            let after = self.moment(answers, *model);
            assert(leaves_of(before.pending) =~= leaf_views(self.pending@));
            assert(step(keep, batch, before) == Some(after));
            lemma_leads_on(keep, batch, first, before, after);
        }
        let mut k: usize = 0;
        while k < predicted.len()
            invariant
                k <= predicted@.len(),
                self.wf(),
                self.in_wave == 0,
                waiting.len() == predicted@.len(),
                self.pending@ == waiting.skip(k as int),
                self.tree.walks@.len() + self.tree.done@.len() == old(self).tree.walks@.len()
                    + old(self).tree.done@.len(),
                old(model).answers_in_full() ==> model.answers_in_full() && fits_leaves(
                    waiting,
                    predicted@,
                ),
                self.remaining == old(self).remaining,
                self.simulations == old(self).simulations,
                self.batch_size == old(self).batch_size,
                self.keep == keep,
                self.clock == old(self).clock,
                self.fen@ == old(self).fen@,
                self.batch_size == 1 ==> self.tree.collisions == old(self).tree.collisions,
                keep == old(self).keep,
                batch == old(self).batch_size,
                first == old(self).moment(Seq::empty(), *old(model)),
                answers == predicted_views(predicted@),
                leads_to(
                    keep,
                    batch,
                    first,
                    self.moment(answers.skip(k as int), *model),
                ),
            decreases predicted@.len() - k,
        {
            let ghost before = self.moment(answers.skip(k as int), *model);
            assert(before.answers[0] == predicted@[k as int]@);
            if !self.settle_first(&predicted[k], model, Ghost(answers.skip(k as int))) {
                proof {
                    lemma_stuck(keep, batch, first, before);
                }
                return false;
            }
            proof {
                assert(answers.skip(k as int).skip(1) =~= answers.skip(k + 1));
                lemma_leads_on(
                    keep,
                    batch,
                    first,
                    before,
                    self.moment(answers.skip(k + 1), *model),
                );
            }
            k = k + 1;
            assert(self.pending@ =~= waiting.skip(k as int));
        }
        proof {
            lemma_waiting_walks(*self);
            assert(answers.skip(k as int) =~= none);
        }
        true
    }

    /// Runs one wave: all of its walks, then one evaluation of all leaves that wait.
    fn run_wave<M: WaveModel>(&mut self, model: &mut M) -> (done: bool)
        requires
            old(self).wf(),
            old(self).pending@.len() == 0,
            old(self).in_wave <= old(self).batch_size,
        ensures
            done ==> {
                &&& final(self).wf()
                &&& final(self).in_wave == 0
                &&& final(self).remaining == old(self).remaining
                &&& final(self).simulations == old(self).simulations
                &&& final(self).batch_size == old(self).batch_size
                &&& final(self).keep == old(self).keep
                &&& final(self).clock == old(self).clock
                &&& final(self).fen@ == old(self).fen@
                &&& old(self).batch_size == 1 ==> final(self).tree.collisions
                    == old(self).tree.collisions
                &&& leads_to(
                    old(self).keep,
                    old(self).batch_size as nat,
                    old(self).moment(Seq::empty(), *old(model)),
                    final(self).moment(Seq::empty(), *final(model)),
                )
                &&& final(self).pending@.len() == 0
                &&& final(self).tree.done@.len() == old(self).tree.done@.len() + old(self).in_wave
            },
            !done ==> gives_up(
                old(self).keep,
                old(self).batch_size as nat,
                old(self).moment(Seq::empty(), *old(model)),
            ),
            old(model).answers_in_full() && old(self).clock + most_nodes(old(self).simulations as int) <= u32::MAX ==> done
                && final(model).answers_in_full(),
    {
        let ghost first = self.moment(Seq::empty(), *model);
        if !self.walk_wave(model) {
            return false;
        }
        let ghost between = self.moment(Seq::empty(), *model);
        proof {
            lemma_waiting_walks(*self);
        }
        if self.pending.len() == 0 {
            return true;
        }
        if !self.settle_wave(model) {
            proof {
                lemma_gives_up(
                    old(self).keep,
                    old(self).batch_size as nat,
                    first,
                    between,
                );
            }
            return false;
        }
        proof {
            lemma_leads_through(
                old(self).keep,
                old(self).batch_size as nat,
                first,
                between,
                self.moment(Seq::empty(), *model),
            );
        }
        true
    }

    /// Runs all simulations; false where an answer of the model did not have the right
    /// length, the tree had more nodes than can be counted, or a clock would not fit 32 bits.
    pub fn run<M: WaveModel>(&mut self, model: &mut M) -> (done: bool)
        requires
            old(self).wf(),
            old(self).pending@.len() == 0,
            old(self).in_wave == 0,
            old(self).batch_size > 0,
        ensures
            done ==> {
                &&& final(self).wf()
                &&& final(self).remaining == 0
                &&& final(self).in_wave == 0
                &&& final(self).pending@.len() == 0
                &&& final(self).simulations == old(self).simulations
                &&& final(self).fen@ == old(self).fen@
                &&& old(self).batch_size == 1 ==> final(self).tree.collisions
                    == old(self).tree.collisions
                &&& leads_to(
                    old(self).keep,
                    old(self).batch_size as nat,
                    old(self).moment(Seq::empty(), *old(model)),
                    final(self).moment(Seq::empty(), *final(model)),
                )
            },
            old(self).remaining == 0 ==> done,
            !done ==> gives_up(
                old(self).keep,
                old(self).batch_size as nat,
                old(self).moment(Seq::empty(), *old(model)),
            ),
            old(model).answers_in_full() && old(self).clock + most_nodes(old(self).simulations as int) <= u32::MAX ==> done,
    {
        let ghost none = Seq::<PredictedView>::empty();
        let ghost first = self.moment(none, *model);
        let ghost keep = self.keep;
        let ghost batch = self.batch_size as nat;
        proof {
            lemma_stays(keep, batch, first);
        }
        while self.remaining > 0
            invariant
                self.wf(),
                self.pending@.len() == 0,
                self.in_wave == 0,
                self.batch_size > 0,
                self.batch_size == old(self).batch_size,
                self.keep == keep,
                self.clock == old(self).clock,
                self.simulations == old(self).simulations,
                self.fen@ == old(self).fen@,
                self.batch_size == 1 ==> self.tree.collisions == old(self).tree.collisions,
                old(self).remaining == 0 ==> self.remaining == 0,
                old(model).answers_in_full() && old(self).clock + most_nodes(
                    old(self).simulations as int,
                ) <= u32::MAX ==> model.answers_in_full(),
                keep == old(self).keep,
                batch == old(self).batch_size,
                none == Seq::<PredictedView>::empty(),
                first == old(self).moment(none, *old(model)),
                leads_to(keep, batch, first, self.moment(none, *model)),
            decreases self.remaining,
        {
            let ghost before = self.moment(none, *model);
            let _ = self.next_wave();
            let ghost between = self.moment(none, *model);
            proof {
                assert(wave_step(batch, before) == between);
                lemma_leads_on(keep, batch, first, before, between);
            }
            if !self.run_wave(model) {
                proof {
                    lemma_gives_up(keep, batch, first, between);
                }
                return false;
            }
            proof {
                lemma_leads_through(
                    keep,
                    batch,
                    first,
                    between,
                    self.moment(none, *model),
                );
            }
        }
        true
    }
}

/// Between two walks as many are in flight as wait.
proof fn lemma_waiting_walks(search: WaveSearch)
    requires
        search.wf(),
    ensures
        search.tree.walks@.len() == search.pending@.len(),
{
    broadcast use vstd::seq_lib::group_to_multiset_ensures;

    assert(search.tree.walks@.to_multiset().len() == waiting_paths(
        search.pending@,
    ).to_multiset().len());
}

/// While a walk can be backed up, not all simulations are finished.
proof fn lemma_one_to_settle(search: WaveSearch, path: Seq<usize>)
    requires
        search.settling(path),
    ensures
        search.tree.done@.len() < search.simulations,
{
    broadcast use vstd::seq_lib::group_to_multiset_ensures;

    assert(search.tree.walks@.to_multiset().len() == waiting_paths(
        search.pending@,
    ).to_multiset().len() + 1);
}

/// Where waves have one walk, that walk is alone.
proof fn lemma_alone(search: WaveSearch, walk: Walk)
    requires
        search.walking(&walk),
        search.in_wave + search.pending@.len() <= 1,
    ensures
        passing(search.tree.walks@, walk.path@.last() as int) <= 1,
{
    broadcast use vstd::seq_lib::group_to_multiset_ensures;

    assert(waiting_paths(search.pending@) =~= Seq::<Seq<usize>>::empty());
    assert(search.tree.walks@.drop_last().len() == 0) by {
        assert(search.tree.walks@.drop_last().to_multiset().len() == waiting_paths(
            search.pending@,
        ).to_multiset().len());
    }
    crate::mcts::lone_walks_do_not_collide(search.tree, walk.path@.last() as int);
}

/// Whether an outcome is that of a search from a FEN: without moves to play there is none,
/// and otherwise the best move is the most visited one of the tree that the model's answers
/// lead to, and the counts are those on the way there.
pub open spec fn outcome_of<M: WaveModel>(
    fen: Seq<char>,
    simulations: usize,
    batch_size: usize,
    keep: bool,
    model: M,
    outcome: SearchOutcome,
) -> bool {
    if leaf_moves(fen).len() == 0 {
        &&& outcome.best_move is None
        &&& outcome.collisions == 0
        &&& outcome.cache_hits == 0
        &&& outcome.cache_misses == 0
    } else {
        &&& outcome.best_move is Some
        &&& outcome.cache_hits + outcome.cache_misses <= simulations
        &&& outcome.collisions <= simulations
        &&& batch_size == 1 ==> outcome.collisions == 0
        &&& finished_with(fen, simulations, batch_size, keep, model, outcome)
    }
}

/// The clock that a FEN names.
pub open spec fn clock_in(fen: Seq<char>) -> u32 {
    number_or_zero(field(fen, 0, 4))
}

/// Whether an outcome is what a search says at its end: every simulation was counted, none is
/// in flight, and move `c` of the root is the most visited one.
pub open spec fn told_by<M: WaveModel>(
    fen: Seq<char>,
    simulations: usize,
    batch_size: usize,
    keep: bool,
    model: M,
    outcome: SearchOutcome,
    end: Moment<M>,
    c: int,
) -> bool {
    let moves = leaf_moves(fen);
    &&& opening(fen, simulations as nat, model) matches Some(start) && leads_to(
        keep,
        batch_size as nat,
        start,
        end,
    )
    &&& over(end)
    &&& end.nodes[0].n == simulations
    &&& forall|i: int| 0 <= i < end.nodes.len() ==> (#[trigger] end.nodes[i]).vln == 0
    &&& end.nodes[0].children.len() == moves.len()
    &&& forall|d: int|
        0 <= d < moves.len() ==> (#[trigger] end.nodes[0].children[d]).0 == moves[d]
    &&& most_visited_move(end.nodes, c)
    &&& outcome.best_move matches Some(uci) && uci@ == moves[c].uci_spec()
    &&& legal_moves_of(fen).contains(moves[c])
    &&& outcome.collisions == end.collisions
    &&& outcome.cache_hits == end.hits
    &&& outcome.cache_misses == end.misses
}

/// Whether an outcome is what the end of a search from a FEN says.
pub open spec fn finished_with<M: WaveModel>(
    fen: Seq<char>,
    simulations: usize,
    batch_size: usize,
    keep: bool,
    model: M,
    outcome: SearchOutcome,
) -> bool {
    exists|end: Moment<M>, c: int| #[trigger]
        told_by(fen, simulations, batch_size, keep, model, outcome, end, c)
}

/// Whether a search from a FEN cannot be finished: the network does not give one prior for
/// each move of the root, or the search gives up on the way.
pub open spec fn unfinished<M: WaveModel>(
    fen: Seq<char>,
    simulations: usize,
    batch_size: usize,
    keep: bool,
    model: M,
) -> bool {
    match opening(fen, simulations as nat, model) {
        None => true,
        Some(start) => gives_up(keep, batch_size as nat, start),
    }
}

/// Whether a notation is that of a legal move.
pub open spec fn names_legal_move(fen: Seq<char>, uci: Seq<char>) -> bool {
    exists|m: Move| #[trigger] legal_moves_of(fen).contains(m) && m.uci_spec() == uci
}

/// A search of a position that can be read says a move exactly where one is legal, and it is a
/// legal one. No walk meets another where waves have one walk.
pub proof fn search_has_a_move_where_one_is_legal<M: WaveModel>(
    position: Position,
    simulations: usize,
    batch_size: usize,
    keep: bool,
    model: M,
    outcome: SearchOutcome,
)
    requires
        position.wf(),
        outcome_of(position.fen@, simulations, batch_size, keep, model, outcome),
    ensures
        outcome.best_move is Some <==> position.moves@.len() > 0,
        outcome.best_move matches Some(uci) ==> names_legal_move(position.fen@, uci@),
        batch_size == 1 ==> outcome.collisions == 0,
{
    let fen = position.fen@;
    legal_moves_leave_one_to_expand(position);
    if outcome.best_move is Some {
        let (end, c) = choose|end: Moment<M>, c: int| #[trigger]
            told_by(fen, simulations, batch_size, keep, model, outcome, end, c);
        assert(legal_moves_of(fen).contains(leaf_moves(fen)[c]));
    }
}

/// Searches the position of a FEN, several leaves at a time, and counts what it does.
///
/// None comes back where an answer of the model did not have the right length, the tree grew
/// past what can be counted, or a clock would not fit 32 bits.
pub fn search_with_stats<M: WaveModel>(
    fen: &str,
    simulations: usize,
    batch_size: usize,
    keep: bool,
    model: &mut M,
) -> (outcome: Option<SearchOutcome>)
    requires
        simulations < u32::MAX,
        batch_size > 0,
    ensures
        leaf_moves(fen@).len() > 0 <==> has_moves(fen@),
        !has_moves(fen@) ==> outcome is Some,
        outcome matches Some(o) ==> (o.best_move is Some <==> has_moves(fen@)),
        old(model).answers_in_full() && clock_in(fen@) + most_nodes(simulations as int) <= u32::MAX
            ==> outcome is Some,
        outcome matches Some(o) ==> outcome_of(
            fen@,
            simulations,
            batch_size,
            keep,
            *old(model),
            o,
        ),
        outcome is None ==> unfinished(fen@, simulations, batch_size, keep, *old(model)),
{
    let nothing = SearchOutcome {
        best_move: None,
        collisions: 0,
        cache_hits: 0,
        cache_misses: 0,
    };
    let leaf: Leaf = Leaf::read(fen);
    if leaf.moves.len() == 0 {
        return Some(nothing);
    }
    let mut root_path: Vec<usize> = Vec::new();
    root_path.push(0);
    let mut roots: Vec<Pending> = Vec::new();
    roots.push(
        Pending {
            walk: Walk { path: root_path, fen: fen.to_owned(), clock: halfmove_clock(fen) },
            moves: leaf.moves,
            hash: leaf.hash,
        },
    );
    proof {
        assert(leaf_views(roots@) =~= seq![
            LeafView { fen: fen@, clock: clock_in(fen@), moves: leaf_moves(fen@) },
        ]);
    }
    let predicted: Vec<Predicted> = model.evaluate(&roots);
    assert(predicted@.len() == 1 ==> predicted_views(predicted@)[0] == predicted@[0]@);
    if predicted.len() != 1 {
        return None;
    }
    match WaveSearch::start(fen, &predicted[0].priors, simulations, batch_size, keep) {
        None => None,
        Some(mut search) => {
            let ghost start = search.moment(Seq::empty(), *model);
            proof {
                assert(predicted_views(predicted@)[0] == predicted@[0]@);
                assert(start.pending =~= Seq::<Waiting>::empty());
                assert(opening(fen@, simulations as nat, *old(model)) == Some(start));
            }
            if !search.run(model) {
                return None;
            }
            let outcome: SearchOutcome = search.outcome();
            proof {
                every_simulation_is_counted(search, 0);
                let end = search.moment(Seq::empty(), *model);
                let c = choose|c: int|
                    {
                        &&& #[trigger] most_visited_move(search.tree.nodes(), c)
                        &&& outcome.best_move->0@ == leaf_moves(fen@)[c].uci_spec()
                    };
                assert forall|i: int| 0 <= i < end.nodes.len() implies (
                #[trigger] end.nodes[i]).vln == 0 by {
                    every_simulation_is_counted(search, i);
                }
                assert forall|d: int| 0 <= d < leaf_moves(fen@).len() implies (
                #[trigger] end.nodes[0].children[d]).0 == leaf_moves(fen@)[d] by {
                    assert(moves_from(search.tree.arena@[0])[d] == leaf_moves(fen@)[d]);
                }
                assert(moves_from(search.tree.arena@[0]).len() == leaf_moves(fen@).len());
                lemma_leaf_moves_legal(fen@);
                assert(told_by(
                    fen@,
                    simulations,
                    batch_size,
                    keep,
                    *old(model),
                    outcome,
                    end,
                    c,
                ));
            }
            Some(outcome)
        },
    }
}

/// Whether a move is the best one of a search leaf by leaf that keeps nothing.
pub open spec fn best_one_by_one<M: WaveModel>(
    fen: Seq<char>,
    simulations: usize,
    model: M,
    uci: Seq<char>,
) -> bool {
    exists|outcome: SearchOutcome|
        {
            &&& #[trigger] outcome_of(fen, simulations, 1, false, model, outcome)
            &&& outcome.best_move matches Some(text) && text@ == uci
        }
}

/// The best move of the position of a FEN, one leaf at a time and with nothing kept; none
/// where there is no move, or the search was not finished.
pub fn search_sequential<M: WaveModel>(fen: &str, simulations: usize, model: &mut M) -> (best:
    Option<String>)
    requires
        simulations < u32::MAX,
    ensures
        leaf_moves(fen@).len() > 0 <==> has_moves(fen@),
        !has_moves(fen@) ==> best is None,
        best is None ==> !has_moves(fen@) || unfinished(
            fen@,
            simulations,
            1,
            false,
            *old(model),
        ),
        has_moves(fen@) && old(model).answers_in_full() && clock_in(fen@) + most_nodes(
            simulations as int,
        ) <= u32::MAX ==> best is Some,
        best matches Some(uci) ==> best_one_by_one(fen@, simulations, *old(model), uci@),
{
    match search_with_stats(fen, simulations, 1, false, model) {
        Some(outcome) => {
            let ghost whole = outcome;
            let best: Option<String> = outcome.best_move;
            proof {
                assert(outcome_of(fen@, simulations, 1, false, *old(model), whole));
            }
            best
        },
        None => None,
    }
}

/// What a watchdog does.
#[derive(Clone, Copy, Debug, PartialEq, Eq, Structural)]
pub struct WatchdogStep {
    /// There was no progress for too long.
    pub warn: bool,
    /// The search is to be cut off.
    pub abort: bool,
    /// The watchdog has nothing more to do.
    pub stop: bool,
}

/// What a watchdog does when it wakes up: nothing more once all simulations are done or
/// the search was cut off; a warning where there was no progress for longer than the limit;
/// and after the hard limit it cuts the search off.
pub fn watchdog(
    completed: u64,
    simulations: usize,
    aborted: bool,
    elapsed_millis: u64,
    last_progress_millis: u64,
    stall_limit_millis: u64,
    hard_limit_millis: u64,
) -> (step: WatchdogStep)
    requires
        last_progress_millis <= elapsed_millis,
    ensures
        step == (if completed >= simulations || aborted {
            WatchdogStep { warn: false, abort: false, stop: true }
        } else {
            WatchdogStep {
                warn: elapsed_millis - last_progress_millis > stall_limit_millis,
                abort: elapsed_millis > hard_limit_millis,
                stop: elapsed_millis > hard_limit_millis,
            }
        }),
{
    if completed >= simulations as u64 || aborted {
        return WatchdogStep { warn: false, abort: false, stop: true };
    }
    let late: bool = elapsed_millis > hard_limit_millis;
    WatchdogStep {
        warn: elapsed_millis - last_progress_millis > stall_limit_millis,
        abort: late,
        stop: late,
    }
}

/// What is left after a worker has claimed a simulation; none where none is left.
pub fn claim(remaining: u64) -> (left: Option<u64>)
    ensures
        left == (if remaining == 0 {
            None
        } else {
            Some((remaining - 1) as u64)
        }),
{
    remaining.checked_sub(1)
}

} // verus!
