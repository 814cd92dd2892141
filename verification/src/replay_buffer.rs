//! Where self-play leaves its positions, and what training draws from there.
use std::collections::VecDeque;
use vstd::prelude::*;
use crate::extract::SearchReturn;
use crate::rng::{Dice, drawn_below};
use crate::single::Single;

verus! {

/// One position of a game, and what became of it.
#[derive(Debug)]
pub struct BufferData {
    pub state: Vec<Single>,
    pub action: usize,
    pub value: Single,
    pub reward: Single,
    pub policy: Vec<Single>,
    /// The position ended the game.
    pub is_terminal: bool,
    /// The position is the last one of its game, ended or cut off.
    pub is_boundary: bool,
    /// The position stands for what comes after a game.
    pub is_absorbing: bool,
    /// The training step that its targets are from.
    pub created_step: usize,
    pub legal_mask: Vec<bool>,
}

/// What a position holds.
pub struct Entry {
    pub state: Seq<Single>,
    pub action: usize,
    pub value: Single,
    pub reward: Single,
    pub policy: Seq<Single>,
    pub is_terminal: bool,
    pub is_boundary: bool,
    pub is_absorbing: bool,
    pub created_step: usize,
    pub legal_mask: Seq<bool>,
}

impl View for BufferData {
    type V = Entry;

    open spec fn view(&self) -> Entry {
        Entry {
            state: self.state@,
            action: self.action,
            value: self.value,
            reward: self.reward,
            policy: self.policy@,
            is_terminal: self.is_terminal,
            is_boundary: self.is_boundary,
            is_absorbing: self.is_absorbing,
            created_step: self.created_step,
            legal_mask: self.legal_mask@,
        }
    }
}

/// What a row of positions holds.
pub open spec fn entries(data: Seq<BufferData>) -> Seq<Entry> {
    Seq::new(data.len(), |i: int| data[i]@)
}

proof fn lemma_entries_push(data: Seq<BufferData>, next: BufferData)
    ensures
        entries(data.push(next)) == entries(data).push(next@),
{
    assert(entries(data.push(next)) =~= entries(data).push(next@));
}

proof fn lemma_entries_skip(data: Seq<BufferData>)
    requires
        data.len() > 0,
    ensures
        entries(data.subrange(1, data.len() as int)) == entries(data).skip(1),
{
    assert(entries(data.subrange(1, data.len() as int)) =~= entries(data).skip(1));
}

pub(crate) fn copy_singles(v: &Vec<Single>) -> (copy: Vec<Single>)
    ensures
        copy@ == v@,
{
    let mut copy: Vec<Single> = Vec::new();
    let mut i: usize = 0;
    while i < v.len()
        invariant
            i <= v@.len(),
            copy@ == v@.take(i as int),
        decreases v@.len() - i,
    {
        copy.push(v[i]);
        i = i + 1;
        assert(copy@ =~= v@.take(i as int));
    }
    assert(copy@ =~= v@);
    copy
}

fn copy_flags(v: &Vec<bool>) -> (copy: Vec<bool>)
    ensures
        copy@ == v@,
{
    let mut copy: Vec<bool> = Vec::new();
    let mut i: usize = 0;
    while i < v.len()
        invariant
            i <= v@.len(),
            copy@ == v@.take(i as int),
        decreases v@.len() - i,
    {
        copy.push(v[i]);
        i = i + 1;
        assert(copy@ =~= v@.take(i as int));
    }
    assert(copy@ =~= v@);
    copy
}

impl BufferData {
    /// The same position once more.
    pub fn duplicate(&self) -> (copy: BufferData)
        ensures
            copy@ == self@,
    {
        BufferData {
            state: copy_singles(&self.state),
            action: self.action,
            value: self.value,
            reward: self.reward,
            policy: copy_singles(&self.policy),
            is_terminal: self.is_terminal,
            is_boundary: self.is_boundary,
            is_absorbing: self.is_absorbing,
            created_step: self.created_step,
            legal_mask: copy_flags(&self.legal_mask),
        }
    }
}

/// A reward, turned over once for every ply.
pub open spec fn alternating(reward: Single, plies: int) -> Single {
    if plies % 2 == 0 {
        reward
    } else {
        reward.neg_spec()
    }
}

/// A finished two-player game: every position is worth the last reward as its own side
/// to move sees it, and no position has a reward.
pub open spec fn relabeled(game: Seq<Entry>) -> Seq<Entry> {
    let n = game.len() as int;
    Seq::new(
        game.len(),
        |i: int|
            Entry {
                value: alternating(game[n - 1].reward, n - 1 - i),
                reward: Single::zero_spec(),
                ..game[i]
            },
    )
}

/// The last `max_len` entries.
pub open spec fn newest(s: Seq<Entry>, max_len: int) -> Seq<Entry> {
    if s.len() > max_len {
        s.skip(s.len() - max_len)
    } else {
        s
    }
}

/// The positions of the latest games, the oldest first, up to a limit.
#[derive(Debug)]
pub struct ReplayBuffer {
    pub states: VecDeque<BufferData>,
    pub max_len: usize,
}

impl Default for ReplayBuffer {
    fn default() -> (buffer: ReplayBuffer)
        ensures
            buffer@ == Seq::<Entry>::empty(),
            buffer.max_len == 100_000,
    {
        let buffer = ReplayBuffer { states: VecDeque::new(), max_len: 100_000 };
        assert(buffer@ =~= Seq::<Entry>::empty());
        buffer
    }
}

impl View for ReplayBuffer {
    type V = Seq<Entry>;

    open spec fn view(&self) -> Seq<Entry> {
        entries(self.states@)
    }
}

/// How many entries from `idx` on are real in an unroll of `steps`: up to the end of the
/// game or of the buffer.
pub open spec fn real_steps(s: Seq<Entry>, idx: int, steps: int) -> int
    decreases steps,
{
    if steps <= 0 || idx >= s.len() {
        0
    } else if s[idx].is_boundary {
        1
    } else {
        1 + real_steps(s, idx + 1, steps - 1)
    }
}

/// The entry that stands for all steps after the end of a game: nothing more is gained
/// and no action is better than another.
pub open spec fn absorbing_spec(last: Entry, uniform: Seq<Single>) -> Entry {
    Entry {
        value: Single::zero_spec(),
        reward: Single::zero_spec(),
        policy: uniform,
        is_absorbing: true,
        ..last
    }
}

/// An unroll of `steps` entries from `idx` on.
///
/// The real ones have their stored value in two-player games and the given one
/// otherwise; after the last real one come absorbing ones.
pub open spec fn unrolled(
    s: Seq<Entry>,
    idx: int,
    steps: int,
    two_player: bool,
    values: Seq<Single>,
    uniform: Seq<Single>,
) -> Seq<Entry> {
    let inside = real_steps(s, idx, steps);
    Seq::new(
        steps as nat,
        |k: int|
            if k < inside {
                Entry {
                    value: if two_player {
                        s[idx + k].value
                    } else {
                        values[k]
                    },
                    ..s[idx + k]
                }
            } else {
                absorbing_spec(s[idx + inside - 1], uniform)
            },
    )
}

proof fn lemma_real_steps(s: Seq<Entry>, idx: int, steps: int)
    requires
        0 <= idx <= s.len(),
        0 <= steps,
    ensures
        0 <= real_steps(s, idx, steps) <= steps,
        idx + real_steps(s, idx, steps) <= s.len(),
        steps > 0 && idx < s.len() ==> real_steps(s, idx, steps) >= 1,
        forall|k: int|
            0 <= k < real_steps(s, idx, steps) - 1 ==> !(#[trigger] s[idx + k]).is_boundary,
        real_steps(s, idx, steps) < steps && idx < s.len() ==> idx + real_steps(s, idx, steps)
            == s.len() || s[idx + real_steps(s, idx, steps) - 1].is_boundary,
    decreases steps,
{
    if steps > 0 && idx < s.len() && !s[idx].is_boundary {
        lemma_real_steps(s, idx + 1, steps - 1);
        let r = real_steps(s, idx + 1, steps - 1);
        assert forall|k: int| 0 <= k < r implies !(#[trigger] s[idx + k]).is_boundary by {
            if k > 0 {
                assert(!s[idx + 1 + (k - 1)].is_boundary);
            }
        }
    }
}

/// An unroll never crosses into another game: all real entries but the last are inside
/// one, and once an absorbing entry comes, none but absorbing ones follow.
pub proof fn unrolls_stay_in_one_game(
    s: Seq<Entry>,
    idx: int,
    steps: int,
    two_player: bool,
    values: Seq<Single>,
    uniform: Seq<Single>,
)
    requires
        0 <= idx < s.len(),
        0 <= steps,
        forall|i: int| 0 <= i < s.len() ==> !(#[trigger] s[i]).is_absorbing,
    ensures
        ({
            let u = unrolled(s, idx, steps, two_player, values, uniform);
            &&& u.len() == steps
            &&& forall|k: int|
                0 <= k < steps - 1 && !(#[trigger] u[k + 1]).is_absorbing ==> !u[k].is_absorbing
                    && !u[k].is_boundary
            &&& forall|k: int|
                0 <= k < steps && (#[trigger] u[k]).is_absorbing ==> u[k].value
                    == Single::zero_spec() && u[k].reward == Single::zero_spec()
            &&& steps > 0 ==> !u[0].is_absorbing
        }),
{
    lemma_real_steps(s, idx, steps);
    let inside = real_steps(s, idx, steps);
    let u = unrolled(s, idx, steps, two_player, values, uniform);
    assert forall|k: int| 0 <= k < steps - 1 && !(#[trigger] u[k + 1]).is_absorbing implies
        !u[k].is_absorbing && !u[k].is_boundary by {
        assert(k + 1 < inside);
        assert(!s[idx + k].is_absorbing);
        assert(!s[idx + k].is_boundary);
    }
    assert forall|k: int| 0 <= k < steps && (#[trigger] u[k]).is_absorbing implies u[k].value
        == Single::zero_spec() && u[k].reward == Single::zero_spec() by {
        if k < inside {
            assert(!s[idx + k].is_absorbing);
        }
    }
}

/// The terms of a value over `left` steps from `idx` on, of which the first has the
/// exponent `k`: the rewards up to the end of the game, the stored value where a game
/// was cut off, and the value of the position after the last step.
pub open spec fn value_terms(s: Seq<Entry>, idx: int, k: nat, left: nat) -> Seq<(usize, Single)>
    decreases left,
{
    if idx >= s.len() {
        Seq::empty()
    } else if left == 0 {
        if s[idx].is_terminal {
            Seq::empty()
        } else {
            seq![(k as usize, s[idx].value)]
        }
    } else if s[idx].is_terminal {
        seq![(k as usize, s[idx].reward)]
    } else if s[idx].is_boundary {
        seq![(k as usize, s[idx].value)]
    } else {
        seq![(k as usize, s[idx].reward)] + value_terms(s, idx + 1, k + 1, (left - 1) as nat)
    }
}

/// The numbers that so many draws below a bound give, and the state of the generator after
/// them.
pub open spec fn draws(seed: u64, bound: usize, count: nat) -> (Seq<usize>, u64)
    decreases count,
{
    if count == 0 {
        (Seq::empty(), seed)
    } else {
        let (first, between) = draws(seed, bound, (count - 1) as nat);
        let drawn = drawn_below(between, bound, usize::BITS);
        (first.push(drawn.0), drawn.1)
    }
}

impl ReplayBuffer {
    /// An empty buffer for `buffer_size` positions.
    pub fn new(buffer_size: usize) -> (buffer: ReplayBuffer)
        ensures
            buffer@ == Seq::<Entry>::empty(),
            buffer.max_len == buffer_size,
    {
        let buffer = ReplayBuffer {
            states: VecDeque::with_capacity(buffer_size),
            max_len: buffer_size,
        };
        assert(buffer@ =~= Seq::<Entry>::empty());
        buffer
    }

    /// Adds a game, and lets go of the oldest positions beyond the limit.
    ///
    /// In two-player games every position takes the last reward for its value, as its own
    /// side to move sees it.
    pub fn store_game(&mut self, game: Vec<BufferData>, is_twoplayer: bool)
        requires
            is_twoplayer ==> game@.len() > 0,
        ensures
            final(self)@ == newest(
                old(self)@ + if is_twoplayer {
                    relabeled(entries(game@))
                } else {
                    entries(game@)
                },
                old(self).max_len as int,
            ),
            final(self).max_len == old(self).max_len,
    {
        let ghost given = entries(game@);
        let ghost before = self@;
        let ghost n = game@.len() as int;
        let ghost stored = if is_twoplayer {
            relabeled(given)
        } else {
            given
        };
        let mut last_reward: Single = if is_twoplayer {
            game[game.len() - 1].reward
        } else {
            Single::zero()
        };
        let ghost final_reward = last_reward;
        // From the last position to the first, onto a pile that is then turned over.
        let mut rest: Vec<BufferData> = game;
        let mut pile: Vec<BufferData> = Vec::new();
        while rest.len() > 0
            invariant
                given.len() == n,
                n == rest@.len() + pile@.len(),
                is_twoplayer ==> n > 0 && final_reward == given[n - 1].reward && last_reward
                    == alternating(final_reward, pile@.len() as int),
                stored == if is_twoplayer {
                    relabeled(given)
                } else {
                    given
                },
                forall|i: int| 0 <= i < rest@.len() ==> (#[trigger] rest@[i])@ == given[i],
                forall|j: int|
                    0 <= j < pile@.len() ==> (#[trigger] pile@[j])@ == stored[n - 1 - j],
            decreases rest@.len(),
        {
            let ghost i = rest@.len() - 1;
            assert(rest@[i]@ == given[i]);
            match rest.pop() {
                Some(mut data) => {
                    if is_twoplayer {
                        data.value = last_reward;
                        data.reward = Single::zero();
                        last_reward = last_reward.negated();
                    }
                    proof {
                        assert(data@ == stored[i]);
                        crate::single::negation_reverses_order(final_reward, final_reward);
                    }
                    pile.push(data);
                },
                None => {},
            }
        }
        while pile.len() > 0
            invariant
                stored.len() == n,
                pile@.len() <= n,
                forall|j: int|
                    0 <= j < pile@.len() ==> (#[trigger] pile@[j])@ == stored[n - 1 - j],
                entries(self.states@) == before + stored.take(n - pile@.len()),
                self.max_len == old(self).max_len,
            decreases pile@.len(),
        {
            let ghost j = pile@.len() - 1;
            assert(pile@[j]@ == stored[n - 1 - j]);
            match pile.pop() {
                Some(data) => {
                    proof {
                        lemma_entries_push(self.states@, data);
                        assert(stored.take(n - j) =~= stored.take(n - j - 1).push(stored[n - 1 - j]));
                    }
                    self.states.push_back(data);
                },
                None => {},
            }
            assert(entries(self.states@) =~= before + stored.take(n - pile@.len()));
        }
        let ghost all = before + stored;
        assert(entries(self.states@) =~= all);
        while self.states.len() > self.max_len
            invariant
                self.max_len == old(self).max_len,
                self.states@.len() <= all.len(),
                self.states@.len() >= newest(all, self.max_len as int).len(),
                entries(self.states@) == all.skip(all.len() - self.states@.len()),
            decreases self.states@.len(),
        {
            proof {
                lemma_entries_skip(self.states@);
            }
            let _ = self.states.pop_front();
            assert(entries(self.states@) =~= all.skip(all.len() - self.states@.len()));
        }
        assert(entries(self.states@) =~= newest(all, self.max_len as int));
    }

    /// Draws positions to unroll from, by the `fastrand` generator; none from an empty
    /// buffer.
    pub fn sample_indices(&self, count: usize, rng: &mut Dice) -> (indices: Vec<usize>)
        ensures
            self@.len() > 0 ==> (indices@, final(rng).seed) == draws(
                old(rng).seed,
                self@.len() as usize,
                count as nat,
            ),
            self@.len() == 0 ==> *final(rng) == *old(rng),
            indices@.len() == (if self@.len() == 0 {
                0
            } else {
                count as nat
            }),
            forall|i: int| 0 <= i < indices@.len() ==> #[trigger] indices@[i] < self@.len(),
    {
        let mut indices: Vec<usize> = Vec::new();
        if self.states.len() == 0 {
            return indices;
        }
        while indices.len() < count
            invariant
                self@.len() > 0,
                self@.len() == self.states@.len(),
                indices@.len() <= count,
                (indices@, rng.seed) == draws(
                    old(rng).seed,
                    self@.len() as usize,
                    indices@.len(),
                ),
                forall|i: int| 0 <= i < indices@.len() ==> #[trigger] indices@[i] < self@.len(),
            decreases count - indices@.len(),
        {
            let ghost before = indices@;
            let idx: usize = rng.below(self.states.len());
            indices.push(idx);
            assert(indices@.drop_last() =~= before);
        }
        indices
    }

    /// Unrolls `unroll_steps` entries from a position on.
    ///
    /// `values` are the values of the entries in games for one player, `uniform` the policy
    /// of the absorbing entries.
    pub fn sample_single(
        &self,
        idx: usize,
        unroll_steps: usize,
        two_player: bool,
        values: &Vec<Single>,
        uniform: &Vec<Single>,
    ) -> (sequence: Vec<BufferData>)
        requires
            idx < self@.len(),
            two_player || values@.len() >= real_steps(self@, idx as int, unroll_steps as int),
        ensures
            entries(sequence@) == unrolled(
                self@,
                idx as int,
                unroll_steps as int,
                two_player,
                values@,
                uniform@,
            ),
    {
        let ghost s = self@;
        let ghost whole = unrolled(
            s,
            idx as int,
            unroll_steps as int,
            two_player,
            values@,
            uniform@,
        );
        let ghost inside = real_steps(s, idx as int, unroll_steps as int);
        proof {
            lemma_real_steps(s, idx as int, unroll_steps as int);
        }
        let mut sequence: Vec<BufferData> = Vec::new();
        let mut ended: bool = false;
        let mut k: usize = 0;
        let len: usize = self.states.len();
        while k < unroll_steps
            invariant
                k <= unroll_steps,
                s == self@,
                len == s.len(),
                len == self.states@.len(),
                idx < len,
                whole == unrolled(
                    s,
                    idx as int,
                    unroll_steps as int,
                    two_player,
                    values@,
                    uniform@,
                ),
                inside == real_steps(s, idx as int, unroll_steps as int),
                two_player || values@.len() >= inside,
                0 <= inside <= unroll_steps,
                idx + inside <= len,
                inside >= 1 || k == unroll_steps,
                forall|j: int| 0 <= j < inside - 1 ==> !(#[trigger] s[idx + j]).is_boundary,
                inside < unroll_steps ==> idx + inside == len || s[idx + inside - 1].is_boundary,
                sequence@.len() == k,
                ended ==> inside <= k,
                k > 0 && !ended ==> k <= inside && !s[idx + k - 1].is_boundary,
                forall|j: int| 0 <= j < k ==> (#[trigger] sequence@[j])@ == whole[j],
            decreases unroll_steps - k,
        {
            if !ended && k < len - idx {
                assert(k < inside) by {
                    if k > 0 {
                        assert(k <= inside);
                    }
                }
                let data: &BufferData = &self.states[idx + k];
                assert(data@ == s[idx + k]);
                let mut entry: BufferData = data.duplicate();
                if !two_player {
                    entry.value = values[k];
                }
                if data.is_boundary {
                    ended = true;
                    assert(k == inside - 1) by {
                        if k < inside - 1 {
                            assert(!s[idx + k].is_boundary);
                        }
                    }
                }
                assert(entry@ == whole[k as int]);
                sequence.push(entry);
            } else {
                assert(inside <= k);
                assert(sequence@[k - 1]@ == whole[k - 1]);
                let mut entry: BufferData = sequence[k - 1].duplicate();
                entry.value = Single::zero();
                entry.reward = Single::zero();
                entry.policy = copy_singles(uniform);
                entry.is_absorbing = true;
                ended = true;
                assert(entry@ == whole[k as int]);
                sequence.push(entry);
            }
            k = k + 1;
        }
        assert(entries(sequence@) =~= whole);
        sequence
    }

    /// Unrolls from each of the given positions, one game after the other.
    pub fn sample_games(
        &self,
        indices: &Vec<usize>,
        unroll_steps: usize,
        two_player: bool,
        values: &Vec<Vec<Single>>,
        uniform: &Vec<Single>,
    ) -> (games: Vec<Vec<BufferData>>)
        requires
            values@.len() == indices@.len(),
            forall|i: int|
                0 <= i < indices@.len() ==> #[trigger] indices@[i] < self@.len() && (two_player
                    || values@[i]@.len() >= real_steps(
                    self@,
                    indices@[i] as int,
                    unroll_steps as int,
                )),
        ensures
            games@.len() == indices@.len(),
            forall|i: int|
                0 <= i < indices@.len() ==> entries((#[trigger] games@[i])@) == unrolled(
                    self@,
                    indices@[i] as int,
                    unroll_steps as int,
                    two_player,
                    values@[i]@,
                    uniform@,
                ),
    {
        let mut games: Vec<Vec<BufferData>> = Vec::new();
        let mut i: usize = 0;
        while i < indices.len()
            invariant
                i <= indices@.len(),
                values@.len() == indices@.len(),
                forall|j: int|
                    0 <= j < indices@.len() ==> #[trigger] indices@[j] < self@.len() && (two_player
                        || values@[j]@.len() >= real_steps(
                        self@,
                        indices@[j] as int,
                        unroll_steps as int,
                    )),
                games@.len() == i,
                forall|j: int|
                    0 <= j < i ==> entries((#[trigger] games@[j])@) == unrolled(
                        self@,
                        indices@[j] as int,
                        unroll_steps as int,
                        two_player,
                        values@[j]@,
                        uniform@,
                    ),
            decreases indices@.len() - i,
        {
            let game: Vec<BufferData> = self.sample_single(
                indices[i],
                unroll_steps,
                two_player,
                &values[i],
                uniform,
            );
            games.push(game);
            i = i + 1;
        }
        games
    }

    /// The terms of the value over `n_steps` steps from a position on: each is to be
    /// multiplied by the discount to its power, and all are to be added up in order.
    pub fn n_step_value(&self, idx: usize, n_steps: usize) -> (terms: Vec<(usize, Single)>)
        ensures
            terms@ == value_terms(self@, idx as int, 0, n_steps as nat),
    {
        let ghost s = self@;
        let mut terms: Vec<(usize, Single)> = Vec::new();
        let len: usize = self.states.len();
        let mut k: usize = 0;
        assert(value_terms(s, idx as int, 0, n_steps as nat) =~= terms@ + value_terms(
            s,
            idx as int,
            0,
            n_steps as nat,
        ));
        while k < n_steps
            invariant
                k <= n_steps,
                s == self@,
                len == s.len(),
                len == self.states@.len(),
                value_terms(s, idx as int, 0, n_steps as nat) == terms@ + value_terms(
                    s,
                    idx + k,
                    k as nat,
                    (n_steps - k) as nat,
                ),
            decreases n_steps - k,
        {
            let ghost before = terms@;
            if idx >= len || k >= len - idx {
                assert(terms@ =~= terms@ + Seq::<(usize, Single)>::empty());
                return terms;
            }
            let data: &BufferData = &self.states[idx + k];
            assert(data@ == s[idx + k]);
            if data.is_terminal {
                terms.push((k, data.reward));
                assert(terms@ =~= before + seq![(k, data.reward)]);
                return terms;
            }
            if data.is_boundary {
                terms.push((k, data.value));
                assert(terms@ =~= before + seq![(k, data.value)]);
                return terms;
            }
            terms.push((k, data.reward));
            proof {
                let tail = value_terms(s, idx + k + 1, k as nat + 1, (n_steps - k - 1) as nat);
                assert(before + (seq![(k, data.reward)] + tail) =~= terms@ + tail);
            }
            k = k + 1;
        }
        let ghost before = terms@;
        if idx < len && n_steps < len - idx {
            let data: &BufferData = &self.states[idx + n_steps];
            assert(data@ == s[idx + n_steps]);
            if !data.is_terminal {
                terms.push((n_steps, data.value));
                assert(terms@ =~= before + seq![(n_steps, data.value)]);
            } else {
                assert(terms@ =~= before + Seq::<(usize, Single)>::empty());
            }
        } else {
            assert(terms@ =~= before + Seq::<(usize, Single)>::empty());
        }
        terms
    }

    /// Takes over fresh targets for a position: the policy, the step that it is from, and
    /// in games for one player the value.
    pub fn refresh(
        &mut self,
        idx: usize,
        policy: &Vec<Single>,
        value: Single,
        two_player: bool,
        training_step: usize,
    )
        requires
            idx < old(self)@.len(),
        ensures
            final(self)@ == old(self)@.update(
                idx as int,
                Entry {
                    policy: policy@,
                    value: if two_player {
                        old(self)@[idx as int].value
                    } else {
                        value
                    },
                    created_step: training_step,
                    ..old(self)@[idx as int]
                },
            ),
            final(self).max_len == old(self).max_len,
    {
        let ghost before = self.states@;
        match self.states.remove(idx) {
            Some(mut data) => {
                data.policy = copy_singles(policy);
                if !two_player {
                    data.value = value;
                }
                data.created_step = training_step;
                self.states.insert(idx, data);
                assert(self@ =~= old(self)@.update(idx as int, data@));
            },
            None => {},
        }
    }
}

/// The arithmetic of values: a sum over discounted terms.
pub trait Returns {
    /// The sum of terms, each a power of the discount and what it weighs.
    open spec fn value_spec(&self, terms: Seq<(usize, Single)>) -> Single {
        arbitrary()
    }

    /// The sum of terms, each a power of the discount and what it weighs.
    fn n_step_value(&self, terms: &Vec<(usize, Single)>) -> (value: Single)
        ensures
            value == self.value_spec(terms@),
    ;
}

/// The values of the entries that an unroll from a position comes to.
pub open spec fn unrolled_values<M: Returns>(
    s: Seq<Entry>,
    idx: int,
    steps: int,
    n_steps: nat,
    model: M,
) -> Seq<Single> {
    Seq::new(
        real_steps(s, idx, steps) as nat,
        |k: int| model.value_spec(value_terms(s, idx + k, 0, n_steps)),
    )
}

/// The unroll from a position. In games for one player the values of its entries are those of
/// the model's arithmetic, in games for two the stored ones.
pub open spec fn sampled<M: Returns>(
    s: Seq<Entry>,
    idx: int,
    steps: int,
    two_player: bool,
    n_steps: nat,
    uniform: Seq<Single>,
    model: M,
) -> Seq<Entry> {
    unrolled(
        s,
        idx,
        steps,
        two_player,
        if two_player {
            Seq::empty()
        } else {
            unrolled_values(s, idx, steps, n_steps, model)
        },
        uniform,
    )
}

impl ReplayBuffer {
    /// The values of the entries that an unroll comes to, by the model's arithmetic.
    fn unroll_values<M: Returns>(
        &self,
        idx: usize,
        unroll_steps: usize,
        n_steps: usize,
        model: &M,
    ) -> (values: Vec<Single>)
        requires
            idx < self@.len(),
        ensures
            values@ == unrolled_values(
                self@,
                idx as int,
                unroll_steps as int,
                n_steps as nat,
                *model,
            ),
    {
        let mut values: Vec<Single> = Vec::new();
        let mut ended: bool = false;
        let len: usize = self.states.len();
        let ghost s = self@;
        let ghost inside = real_steps(s, idx as int, unroll_steps as int);
        proof {
            lemma_real_steps(s, idx as int, unroll_steps as int);
        }
        while !ended && values.len() < unroll_steps && values.len() < len - idx
            invariant
                s == self@,
                len == s.len(),
                len == self.states@.len(),
                idx < len,
                values@.len() <= inside,
                0 <= inside <= unroll_steps,
                idx + inside <= len,
                forall|j: int| 0 <= j < inside - 1 ==> !(#[trigger] s[idx + j]).is_boundary,
                inside < unroll_steps ==> idx + inside == len || s[idx + inside - 1].is_boundary,
                !ended && values@.len() > 0 ==> !s[idx + values@.len() - 1].is_boundary,
                ended ==> values@.len() == inside,
                unroll_steps > 0 ==> inside >= 1,
                forall|j: int|
                    0 <= j < values@.len() ==> #[trigger] values@[j] == model.value_spec(
                        value_terms(s, idx + j, 0, n_steps as nat),
                    ),
            decreases len - idx - values@.len(),
        {
            let k: usize = values.len();
            assert(k < inside);
            let terms: Vec<(usize, Single)> = self.n_step_value(idx + k, n_steps);
            values.push(model.n_step_value(&terms));
            assert(self.states@[idx + k]@ == s[idx + k]);
            if self.states[idx + k].is_boundary {
                ended = true;
                assert(k == inside - 1) by {
                    if k < inside - 1 {
                        assert(!s[idx + k].is_boundary);
                    }
                }
            }
        }
        assert(values@ =~= unrolled_values(
            s,
            idx as int,
            unroll_steps as int,
            n_steps as nat,
            *model,
        ));
        values
    }

    /// Unrolls from positions that the `fastrand` generator draws. In games for one player
    /// the values of the entries come from the model's arithmetic. An empty buffer gives
    /// empty sequences.
    pub fn sample<M: Returns>(
        &self,
        count: usize,
        unroll_steps: usize,
        two_player: bool,
        n_steps: usize,
        uniform: &Vec<Single>,
        rng: &mut Dice,
        model: &M,
    ) -> (games: Vec<Vec<BufferData>>)
        ensures
            games@.len() == count,
            self@.len() == 0 ==> *final(rng) == *old(rng),
            self@.len() > 0 ==> final(rng).seed == draws(
                old(rng).seed,
                self@.len() as usize,
                count as nat,
            ).1,
            forall|i: int|
                0 <= i < count ==> if self@.len() == 0 {
                    (#[trigger] games@[i])@.len() == 0
                } else {
                    entries(games@[i]@) == sampled(
                        self@,
                        draws(old(rng).seed, self@.len() as usize, count as nat).0[i] as int,
                        unroll_steps as int,
                        two_player,
                        n_steps as nat,
                        uniform@,
                        *model,
                    )
                },
    {
        let mut games: Vec<Vec<BufferData>> = Vec::new();
        let indices: Vec<usize> = self.sample_indices(count, rng);
        let ghost drawn = draws(old(rng).seed, self@.len() as usize, count as nat).0;
        while games.len() < count
            invariant
                games@.len() <= count,
                self@.len() > 0 ==> indices@ == drawn && indices@.len() == count,
                self@.len() == 0 ==> indices@.len() == 0,
                forall|i: int| 0 <= i < indices@.len() ==> #[trigger] indices@[i] < self@.len(),
                forall|i: int|
                    0 <= i < games@.len() ==> if self@.len() == 0 {
                        (#[trigger] games@[i])@.len() == 0
                    } else {
                        entries(games@[i]@) == sampled(
                            self@,
                            drawn[i] as int,
                            unroll_steps as int,
                            two_player,
                            n_steps as nat,
                            uniform@,
                            *model,
                        )
                    },
            decreases count - games@.len(),
        {
            if indices.len() == 0 {
                games.push(Vec::new());
            } else {
                let idx: usize = indices[games.len()];
                let values: Vec<Single> = if two_player {
                    Vec::new()
                } else {
                    self.unroll_values(idx, unroll_steps, n_steps, model)
                };
                let game: Vec<BufferData> = self.sample_single(
                    idx,
                    unroll_steps,
                    two_player,
                    &values,
                    uniform,
                );
                assert(two_player ==> values@ =~= Seq::empty());
                games.push(game);
            }
        }
        games
    }

    /// The states and legal actions of positions, to search them again.
    pub fn rows(&self, indices: &Vec<usize>) -> (rows: (Vec<Vec<Single>>, Vec<Vec<bool>>))
        requires
            forall|i: int| 0 <= i < indices@.len() ==> #[trigger] indices@[i] < self@.len(),
        ensures
            rows.0@.len() == indices@.len(),
            rows.1@.len() == indices@.len(),
            forall|i: int|
                0 <= i < indices@.len() ==> {
                    let entry = self@[#[trigger] indices@[i] as int];
                    rows.0@[i]@ == entry.state && rows.1@[i]@ == entry.legal_mask
                },
    {
        let mut states: Vec<Vec<Single>> = Vec::new();
        let mut masks: Vec<Vec<bool>> = Vec::new();
        let mut i: usize = 0;
        while i < indices.len()
            invariant
                i <= indices@.len(),
                forall|j: int| 0 <= j < indices@.len() ==> #[trigger] indices@[j] < self@.len(),
                states@.len() == i,
                masks@.len() == i,
                forall|j: int|
                    0 <= j < i ==> {
                        let entry = self@[#[trigger] indices@[j] as int];
                        states@[j]@ == entry.state && masks@[j]@ == entry.legal_mask
                    },
            decreases indices@.len() - i,
        {
            let idx: usize = indices[i];
            assert(self.states@[idx as int]@ == self@[idx as int]);
            states.push(copy_singles(&self.states[idx].state));
            masks.push(copy_flags(&self.states[idx].legal_mask));
            i = i + 1;
        }
        (states, masks)
    }

    /// Takes over the results of searching positions again, one after the other.
    pub fn reanalyze(
        &mut self,
        indices: &Vec<usize>,
        results: &Vec<SearchReturn>,
        two_player: bool,
        training_step: usize,
    )
        requires
            results@.len() == indices@.len(),
            forall|i: int| 0 <= i < indices@.len() ==> #[trigger] indices@[i] < old(self)@.len(),
        ensures
            final(self)@ == reanalyzed(
                old(self)@,
                indices@,
                results@,
                two_player,
                training_step,
                indices@.len() as int,
            ),
            final(self).max_len == old(self).max_len,
    {
        let mut i: usize = 0;
        while i < indices.len()
            invariant
                i <= indices@.len(),
                results@.len() == indices@.len(),
                self@.len() == old(self)@.len(),
                forall|j: int|
                    0 <= j < indices@.len() ==> #[trigger] indices@[j] < old(self)@.len(),
                self@ == reanalyzed(
                    old(self)@,
                    indices@,
                    results@,
                    two_player,
                    training_step,
                    i as int,
                ),
                self.max_len == old(self).max_len,
            decreases indices@.len() - i,
        {
            self.refresh(
                indices[i],
                &results[i].policy_target,
                results[i].value,
                two_player,
                training_step,
            );
            i = i + 1;
        }
    }
}

/// The entries once the first `end` results are taken over.
pub open spec fn reanalyzed(
    s: Seq<Entry>,
    indices: Seq<usize>,
    results: Seq<SearchReturn>,
    two_player: bool,
    training_step: usize,
    end: int,
) -> Seq<Entry>
    decreases end,
{
    if end <= 0 {
        s
    } else {
        let before = reanalyzed(s, indices, results, two_player, training_step, end - 1);
        let idx = indices[end - 1] as int;
        before.update(
            idx,
            Entry {
                policy: results[end - 1].policy_target@,
                value: if two_player {
                    before[idx].value
                } else {
                    results[end - 1].value
                },
                created_step: training_step,
                ..before[idx]
            },
        )
    }
}

/// Searching positions again changes their targets alone: what was played and seen stays, as
/// do all other positions, and in two-player games the values.
pub proof fn reanalysis_keeps_the_games(
    s: Seq<Entry>,
    indices: Seq<usize>,
    results: Seq<SearchReturn>,
    two_player: bool,
    training_step: usize,
    end: int,
    i: usize,
)
    requires
        0 <= end <= indices.len(),
        forall|k: int| 0 <= k < indices.len() ==> #[trigger] indices[k] < s.len(),
        i < s.len(),
    ensures
        reanalyzed(s, indices, results, two_player, training_step, end).len() == s.len(),
        ({
            let after = reanalyzed(s, indices, results, two_player, training_step, end)[i as int];
            &&& after.state == s[i as int].state
            &&& after.action == s[i as int].action
            &&& after.reward == s[i as int].reward
            &&& after.legal_mask == s[i as int].legal_mask
            &&& after.is_terminal == s[i as int].is_terminal
            &&& after.is_boundary == s[i as int].is_boundary
            &&& two_player ==> after.value == s[i as int].value
            &&& !indices.take(end).contains(i) ==> after == s[i as int]
        }),
    decreases end,
{
    if end > 0 {
        reanalysis_keeps_the_games(
            s,
            indices,
            results,
            two_player,
            training_step,
            end - 1,
            i,
        );
        let shorter = indices.take(end - 1);
        let longer = indices.take(end);
        if shorter.contains(i) {
            let k = choose|k: int| 0 <= k < shorter.len() && shorter[k] == i;
            assert(longer[k] == i);
        }
        assert(longer[end - 1] == indices[end - 1]);
        if indices[end - 1] == i {
            assert(longer.contains(i));
        }
    }
}

/// A buffer never outgrows its limit, and what it keeps are the newest positions: the
/// game just stored is there in full if it fits.
pub proof fn newest_positions_are_kept(before: Seq<Entry>, game: Seq<Entry>, max_len: int)
    requires
        0 <= max_len,
    ensures
        newest(before + game, max_len).len() <= max_len,
        game.len() <= max_len ==> ({
            let after = newest(before + game, max_len);
            after.skip(after.len() - game.len()) == game
        }),
{
    if game.len() <= max_len {
        let after = newest(before + game, max_len);
        assert(after.skip(after.len() - game.len()) =~= game);
    }
}

/// In a relabeled game two positions in a row are worth the opposite of each other, the
/// last one is worth the last reward, and nothing else of a position changes.
pub proof fn two_player_values_alternate(game: Seq<Entry>, i: int)
    requires
        0 <= i < game.len(),
    ensures
        i + 1 < game.len() ==> relabeled(game)[i].value == relabeled(game)[i + 1].value.neg_spec(),
        relabeled(game)[game.len() - 1].value == game[game.len() - 1].reward,
        relabeled(game)[i].state == game[i].state,
        relabeled(game)[i].action == game[i].action,
        relabeled(game)[i].policy == game[i].policy,
{
    crate::single::negation_reverses_order(game[game.len() - 1].reward, game[i].reward);
}

/// What a sampled sequence holds, entry by entry. Up to the end of the game an entry is the
/// stored position in everything but its value, which is the given one in games for one player
/// and the stored one in games for two. From the end of the game on, an entry shows the last
/// position of the game once more, without value and reward, and with the uniform policy.
pub proof fn unrolls_show_the_stored_positions(
    s: Seq<Entry>,
    idx: int,
    steps: int,
    two_player: bool,
    values: Seq<Single>,
    uniform: Seq<Single>,
    k: int,
)
    requires
        0 <= idx < s.len(),
        0 <= k < steps,
        forall|i: int| 0 <= i < s.len() ==> !(#[trigger] s[i]).is_absorbing,
    ensures
        ({
            let u = unrolled(s, idx, steps, two_player, values, uniform);
            let ended = idx + k >= s.len() || exists|j: int|
                idx <= j < idx + k && (#[trigger] s[j]).is_boundary;
            &&& u.len() == steps
            &&& u[k].is_absorbing <==> ended
            &&& !ended ==> {
                &&& u[k].state == s[idx + k].state
                &&& u[k].action == s[idx + k].action
                &&& u[k].reward == s[idx + k].reward
                &&& u[k].policy == s[idx + k].policy
                &&& u[k].is_terminal == s[idx + k].is_terminal
                &&& u[k].is_boundary == s[idx + k].is_boundary
                &&& u[k].created_step == s[idx + k].created_step
                &&& u[k].legal_mask == s[idx + k].legal_mask
                &&& two_player ==> u[k].value == s[idx + k].value
                &&& !two_player ==> u[k].value == values[k]
            }
            &&& ended ==> {
                &&& u[k].value == Single::zero_spec()
                &&& u[k].reward == Single::zero_spec()
                &&& u[k].policy == uniform
                &&& exists|last: int|
                    {
                        &&& idx <= last < idx + k
                        &&& last + 1 == s.len() || s[last].is_boundary
                        &&& forall|j: int| idx <= j < last ==> !(#[trigger] s[j]).is_boundary
                        &&& u[k].state == (#[trigger] s[last]).state
                        &&& u[k].action == s[last].action
                        &&& u[k].is_terminal == s[last].is_terminal
                        &&& u[k].is_boundary == s[last].is_boundary
                        &&& u[k].created_step == s[last].created_step
                        &&& u[k].legal_mask == s[last].legal_mask
                    }
            }
        }),
{
    lemma_real_steps(s, idx, steps);
    let inside = real_steps(s, idx, steps);
    let last = idx + inside - 1;
    assert forall|j: int| idx <= j < last implies !(#[trigger] s[j]).is_boundary by {
        assert(!s[idx + (j - idx)].is_boundary);
    }
    if k < inside {
        assert(!s[idx + k].is_absorbing);
        assert forall|j: int| idx <= j < idx + k implies !(#[trigger] s[j]).is_boundary by {}
    } else {
        assert(last + 1 == s.len() || s[last].is_boundary);
        assert(!s[last].is_absorbing);
    }
}

/// What a value over some steps is made of. Term `j` has the exponent `j`. Before the last one,
/// a term is the reward of the position so many steps on, and no game ends there. The last one
/// is the value of the position after all steps, unless the game has ended before: then it is
/// the reward of the position that ended it, or the value of the one at which it was cut off.
/// Where the position after all steps ended a game, nothing is added for it.
pub proof fn values_add_rewards_and_look_ahead(s: Seq<Entry>, idx: int, n_steps: nat)
    requires
        0 <= idx < s.len() <= usize::MAX,
    ensures
        ({
            let terms = value_terms(s, idx, 0, n_steps);
            &&& terms.len() <= n_steps + 1
            &&& idx + terms.len() <= s.len()
            &&& forall|j: int| 0 <= j < terms.len() ==> (#[trigger] terms[j]).0 == j
            &&& forall|j: int|
                0 <= j < terms.len() - 1 ==> {
                    &&& (#[trigger] terms[j]).1 == s[idx + j].reward
                    &&& !s[idx + j].is_terminal
                    &&& !s[idx + j].is_boundary
                }
            &&& terms.len() == n_steps + 1 ==> {
                &&& terms[n_steps as int].1 == s[idx + n_steps].value
                &&& !s[idx + n_steps].is_terminal
            }
            &&& 0 < terms.len() <= n_steps ==> {
                let end = idx + terms.len() - 1;
                &&& s[end].is_terminal ==> terms.last().1 == s[end].reward
                &&& !s[end].is_terminal && s[end].is_boundary ==> terms.last().1 == s[end].value
                &&& !s[end].is_terminal && !s[end].is_boundary ==> {
                    &&& terms.last().1 == s[end].reward
                    &&& end + 1 == s.len() || end + 1 == idx + n_steps && s[end + 1].is_terminal
                }
            }
            &&& terms.len() == 0 ==> n_steps == 0 && s[idx].is_terminal
        }),
{
    lemma_terms(s, idx, 0, n_steps);
}

proof fn lemma_terms(s: Seq<Entry>, idx: int, k: nat, left: nat)
    requires
        0 <= idx <= s.len() <= usize::MAX,
        k <= idx,
    ensures
        ({
            let terms = value_terms(s, idx, k, left);
            &&& terms.len() <= left + 1
            &&& idx + terms.len() <= s.len()
            &&& forall|j: int| 0 <= j < terms.len() ==> (#[trigger] terms[j]).0 == k + j
            &&& forall|j: int|
                0 <= j < terms.len() - 1 ==> {
                    &&& (#[trigger] terms[j]).1 == s[idx + j].reward
                    &&& !s[idx + j].is_terminal
                    &&& !s[idx + j].is_boundary
                }
            &&& terms.len() == left + 1 ==> {
                &&& terms[left as int].1 == s[idx + left].value
                &&& !s[idx + left].is_terminal
            }
            &&& 0 < terms.len() <= left ==> {
                let end = idx + terms.len() - 1;
                &&& s[end].is_terminal ==> terms.last().1 == s[end].reward
                &&& !s[end].is_terminal && s[end].is_boundary ==> terms.last().1 == s[end].value
                &&& !s[end].is_terminal && !s[end].is_boundary ==> {
                    &&& terms.last().1 == s[end].reward
                    &&& end + 1 == s.len() || end + 1 == idx + left && s[end + 1].is_terminal
                }
            }
            &&& terms.len() == 0 ==> idx == s.len() || left == 0 && s[idx].is_terminal
        }),
    decreases left,
{
    if idx < s.len() && left > 0 && !s[idx].is_terminal && !s[idx].is_boundary {
        lemma_terms(s, idx + 1, k + 1, (left - 1) as nat);
        let rest = value_terms(s, idx + 1, k + 1, (left - 1) as nat);
        let terms = value_terms(s, idx, k, left);
        assert(terms == seq![(k as usize, s[idx].reward)] + rest);
        assert forall|j: int| 0 <= j < terms.len() implies (#[trigger] terms[j]).0 == k + j && (j
            < terms.len() - 1 ==> terms[j].1 == s[idx + j].reward && !s[idx + j].is_terminal
            && !s[idx + j].is_boundary) by {
            if j > 0 {
                assert(terms[j] == rest[j - 1]);
            }
        }
        if rest.len() > 0 {
            assert(terms.last() == rest.last());
        }
    }
}

/// A search of a position again leaves its policy and, in games for one player, its value there,
/// with the step at which it was made. The latest search of a position is the one that counts.
pub proof fn latest_reanalysis_counts(
    s: Seq<Entry>,
    indices: Seq<usize>,
    results: Seq<SearchReturn>,
    two_player: bool,
    training_step: usize,
    end: int,
    k: int,
)
    requires
        0 <= k < end <= indices.len(),
        forall|j: int| 0 <= j < indices.len() ==> #[trigger] indices[j] < s.len(),
        forall|j: int| k < j < end ==> #[trigger] indices[j] != indices[k],
    ensures
        ({
            let after = reanalyzed(s, indices, results, two_player, training_step, end)[
                indices[k] as int
            ];
            &&& after.policy == results[k].policy_target@
            &&& !two_player ==> after.value == results[k].value
            &&& after.created_step == training_step
            &&& after.is_absorbing == s[indices[k] as int].is_absorbing
        }),
    decreases end,
{
    reanalysis_keeps_the_games(
        s,
        indices,
        results,
        two_player,
        training_step,
        end - 1,
        indices[end - 1],
    );
    lemma_absorbing_kept(s, indices, results, two_player, training_step, end - 1, indices[k]);
    if k < end - 1 {
        latest_reanalysis_counts(s, indices, results, two_player, training_step, end - 1, k);
    }
}

proof fn lemma_absorbing_kept(
    s: Seq<Entry>,
    indices: Seq<usize>,
    results: Seq<SearchReturn>,
    two_player: bool,
    training_step: usize,
    end: int,
    i: usize,
)
    requires
        0 <= end <= indices.len(),
        forall|j: int| 0 <= j < indices.len() ==> #[trigger] indices[j] < s.len(),
        i < s.len(),
    ensures
        reanalyzed(s, indices, results, two_player, training_step, end).len() == s.len(),
        reanalyzed(s, indices, results, two_player, training_step, end)[i as int].is_absorbing
            == s[i as int].is_absorbing,
    decreases end,
{
    if end > 0 {
        lemma_absorbing_kept(s, indices, results, two_player, training_step, end - 1, i);
    }
}

/// What a game for two becomes when it is stored: no position has a reward any more, every value
/// is the last reward or its opposite, and nothing else changes.
pub proof fn relabeling_changes_value_and_reward_alone(game: Seq<Entry>, i: int)
    requires
        0 <= i < game.len(),
    ensures
        relabeled(game).len() == game.len(),
        relabeled(game)[i] == (Entry {
            value: relabeled(game)[i].value,
            reward: Single::zero_spec(),
            ..game[i]
        }),
        relabeled(game)[i].value == game[game.len() - 1].reward || relabeled(game)[i].value
            == game[game.len() - 1].reward.neg_spec(),
{
}

/// What stays in a buffer, place by place: as many positions as fit, the newest ones, in their
/// order.
pub proof fn buffer_drops_the_oldest(all: Seq<Entry>, max_len: int, i: int)
    requires
        0 <= max_len,
    ensures
        newest(all, max_len).len() == if all.len() < max_len {
            all.len() as int
        } else {
            max_len
        },
        0 <= i < newest(all, max_len).len() ==> newest(all, max_len)[i] == all[all.len()
            - newest(all, max_len).len() + i],
{
}

/// In games for one player the value of a sampled entry is made of the terms of its own position.
pub proof fn sampled_values_are_of_their_positions<M: Returns>(
    s: Seq<Entry>,
    idx: int,
    steps: int,
    n_steps: nat,
    uniform: Seq<Single>,
    model: M,
    k: int,
)
    requires
        0 <= idx < s.len(),
        0 <= k < steps,
        idx + k < s.len(),
        forall|j: int| idx <= j < idx + k ==> !(#[trigger] s[j]).is_boundary,
    ensures
        sampled(s, idx, steps, false, n_steps, uniform, model)[k].value == model.value_spec(
            value_terms(s, idx + k, 0, n_steps),
        ),
        sampled(s, idx, steps, true, n_steps, uniform, model)[k].value == s[idx + k].value,
        sampled(s, idx, steps, false, n_steps, uniform, model)[k].policy == s[idx + k].policy,
        sampled(s, idx, steps, true, n_steps, uniform, model)[k].policy == s[idx + k].policy,
{
    lemma_real_steps(s, idx, steps);
    let inside = real_steps(s, idx, steps);
    if k >= inside {
        assert(s[idx + inside - 1].is_boundary);
    }
}

/// Draws go on where the one before has stopped: some draws and then one more are the same as
/// that many and one at once, and each is one draw below the bound.
pub proof fn draws_go_on(seed: u64, bound: usize, count: nat)
    ensures
        draws(seed, bound, 0).0.len() == 0,
        draws(seed, bound, 0).1 == seed,
        draws(seed, bound, count).0.len() == count,
        draws(seed, bound, count + 1).0.drop_last() == draws(seed, bound, count).0,
        draws(seed, bound, count + 1).0.last() == drawn_below(
            draws(seed, bound, count).1,
            bound,
            usize::BITS,
        ).0,
        draws(seed, bound, count + 1).1 == drawn_below(
            draws(seed, bound, count).1,
            bound,
            usize::BITS,
        ).1,
    decreases count,
{
    if count > 0 {
        draws_go_on(seed, bound, (count - 1) as nat);
    }
    assert(draws(seed, bound, count + 1).0.drop_last() =~= draws(seed, bound, count).0);
}

} // verus!
