//! A buffer of whole games, from which every position is drawn alike.
use vstd::prelude::*;
use crate::replay_buffer::{BufferData, Entry, Returns, draws, entries};
use crate::rng::{Dice, drawn_below};
use crate::single::Single;

verus! {

/// Whole games, and how many positions there are up to and with each.
#[derive(Debug)]
pub struct GameBuffer {
    pub games: Vec<Vec<BufferData>>,
    pub cumulative_lengths: Vec<usize>,
    pub total_positions: usize,
}

/// How many positions the first `end` games hold.
pub open spec fn positions_in(games: Seq<Vec<BufferData>>, end: int) -> int
    decreases end,
{
    if end <= 0 {
        0
    } else {
        positions_in(games, end - 1) + games[end - 1]@.len()
    }
}

proof fn lemma_positions_monotone(games: Seq<Vec<BufferData>>, fewer: int, more: int)
    requires
        fewer <= more,
    ensures
        0 <= positions_in(games, fewer) <= positions_in(games, more),
    decreases more,
{
    if more > 0 {
        lemma_positions_monotone(
            games,
            if fewer < more {
                fewer
            } else {
                fewer - 1
            },
            more - 1,
        );
    }
}

/// Whether position `flat` of all is position `pos` of game `game`.
pub open spec fn located(games: Seq<Vec<BufferData>>, flat: int, game: int, pos: int) -> bool {
    &&& 0 <= game < games.len()
    &&& 0 <= pos < games[game]@.len()
    &&& flat == positions_in(games, game) + pos
}

/// Every position stands in one place only.
pub proof fn positions_have_one_place(
    games: Seq<Vec<BufferData>>,
    flat: int,
    game: int,
    pos: int,
    other_game: int,
    other_pos: int,
)
    requires
        located(games, flat, game, pos),
        located(games, flat, other_game, other_pos),
    ensures
        game == other_game,
        pos == other_pos,
{
    if game < other_game {
        lemma_positions_monotone(games, game + 1, other_game);
    } else if other_game < game {
        lemma_positions_monotone(games, other_game + 1, game);
    }
}

/// The terms of the value over `left` steps from `idx` on, of which the first has the
/// exponent `k`: the rewards that the game has left, and the value of the position after
/// the last step.
pub open spec fn game_value_terms(game: Seq<Entry>, idx: int, k: nat, left: nat) -> Seq<
    (usize, Single),
>
    decreases left,
{
    if idx >= game.len() {
        Seq::empty()
    } else if left == 0 {
        seq![(k as usize, game[idx].value)]
    } else {
        seq![(k as usize, game[idx].reward)] + game_value_terms(
            game,
            idx + 1,
            k + 1,
            (left - 1) as nat,
        )
    }
}

/// An unroll of `steps` entries of a game from `pos` on: the real ones with the given
/// values, and after the end of the game the last one without value and reward.
pub open spec fn game_unrolled(
    game: Seq<Entry>,
    pos: int,
    steps: int,
    values: Seq<Single>,
) -> Seq<Entry> {
    Seq::new(
        steps as nat,
        |k: int|
            if pos + k < game.len() {
                Entry { value: values[k], ..game[pos + k] }
            } else {
                Entry {
                    value: Single::zero_spec(),
                    reward: Single::zero_spec(),
                    is_absorbing: true,
                    ..game[game.len() - 1]
                }
            },
    )
}

/// The values of the entries that an unroll of `steps` entries of a game comes to.
pub open spec fn game_values<M: Returns>(
    game: Seq<Entry>,
    pos: int,
    steps: int,
    n_steps: nat,
    model: M,
) -> Seq<Single> {
    let in_game = if steps <= game.len() - pos {
        steps
    } else {
        game.len() - pos
    };
    Seq::new(
        in_game as nat,
        |k: int| model.value_spec(game_value_terms(game, pos + k, 0, n_steps)),
    )
}

/// Whether a sequence is the unroll from position `flat` of all, with its values from the
/// model's arithmetic.
pub open spec fn unrolled_from<M: Returns>(
    games: Seq<Vec<BufferData>>,
    flat: int,
    steps: int,
    n_steps: nat,
    model: M,
    sequence: Seq<Entry>,
) -> bool {
    exists|game: int, pos: int|
        {
            &&& #[trigger] located(games, flat, game, pos)
            &&& sequence == game_unrolled(
                entries(games[game]@),
                pos,
                steps,
                game_values(entries(games[game]@), pos, steps, n_steps, model),
            )
        }
}

/// The same position unrolls to one sequence only.
pub proof fn positions_unroll_one_way<M: Returns>(
    games: Seq<Vec<BufferData>>,
    flat: int,
    steps: int,
    n_steps: nat,
    model: M,
    a: Seq<Entry>,
    b: Seq<Entry>,
)
    requires
        unrolled_from(games, flat, steps, n_steps, model, a),
        unrolled_from(games, flat, steps, n_steps, model, b),
    ensures
        a == b,
{
    let (game, pos) = choose|game: int, pos: int|
        {
            &&& #[trigger] located(games, flat, game, pos)
            &&& a == game_unrolled(
                entries(games[game]@),
                pos,
                steps,
                game_values(entries(games[game]@), pos, steps, n_steps, model),
            )
        };
    let (other_game, other_pos) = choose|game: int, pos: int|
        {
            &&& #[trigger] located(games, flat, game, pos)
            &&& b == game_unrolled(
                entries(games[game]@),
                pos,
                steps,
                game_values(entries(games[game]@), pos, steps, n_steps, model),
            )
        };
    positions_have_one_place(games, flat, game, pos, other_game, other_pos);
}

/// The terms of the value over `n_steps` steps from a position of a game on: each is to
/// be multiplied by the discount to its power, and all are to be added up in order.
pub fn game_n_step_value(game: &Vec<BufferData>, idx: usize, n_steps: usize) -> (terms: Vec<
    (usize, Single),
>)
    ensures
        terms@ == game_value_terms(entries(game@), idx as int, 0, n_steps as nat),
{
    let ghost s = entries(game@);
    let mut terms: Vec<(usize, Single)> = Vec::new();
    let len: usize = game.len();
    let mut k: usize = 0;
    assert(terms@ + game_value_terms(s, idx as int, 0, n_steps as nat) =~= game_value_terms(
        s,
        idx as int,
        0,
        n_steps as nat,
    ));
    while k < n_steps && idx < len && k < len - idx
        invariant
            k <= n_steps,
            s == entries(game@),
            len == game@.len(),
            game_value_terms(s, idx as int, 0, n_steps as nat) == terms@ + game_value_terms(
                s,
                idx + k,
                k as nat,
                (n_steps - k) as nat,
            ),
        decreases n_steps - k,
    {
        let ghost before = terms@;
        let reward: Single = game[idx + k].reward;
        terms.push((k, reward));
        proof {
            assert(game@[idx + k]@ == s[idx + k]);
            let tail = game_value_terms(s, idx + k + 1, k as nat + 1, (n_steps - k - 1) as nat);
            assert(before + (seq![(k, reward)] + tail) =~= terms@ + tail);
        }
        k = k + 1;
    }
    let ghost before = terms@;
    if idx < len && n_steps < len - idx {
        let value: Single = game[idx + n_steps].value;
        assert(game@[idx + n_steps]@ == s[idx + n_steps]);
        terms.push((n_steps, value));
        assert(terms@ =~= before + seq![(n_steps, value)]);
    } else {
        assert(terms@ =~= before + Seq::<(usize, Single)>::empty());
    }
    terms
}

impl Default for GameBuffer {
    fn default() -> (buffer: GameBuffer)
        ensures
            buffer.wf(),
            buffer.games@.len() == 0,
            buffer.total_positions == 0,
    {
        GameBuffer { games: Vec::new(), cumulative_lengths: Vec::new(), total_positions: 0 }
    }
}

impl GameBuffer {
    pub open spec fn wf(&self) -> bool {
        &&& self.cumulative_lengths@.len() == self.games@.len()
        &&& self.total_positions == positions_in(self.games@, self.games@.len() as int)
        &&& forall|g: int|
            0 <= g < self.games@.len() ==> #[trigger] self.cumulative_lengths@[g] == positions_in(
                self.games@,
                g + 1,
            )
    }

    /// Adds a game.
    pub fn store_game(&mut self, game: Vec<BufferData>)
        requires
            old(self).wf(),
            old(self).total_positions + game@.len() <= usize::MAX,
        ensures
            final(self).wf(),
            final(self).games@ == old(self).games@.push(game),
            final(self).total_positions == old(self).total_positions + game@.len(),
    {
        let ghost before = self.games@;
        self.total_positions = self.total_positions + game.len();
        self.cumulative_lengths.push(self.total_positions);
        self.games.push(game);
        proof {
            lemma_positions_prefix(before, self.games@, before.len() as int);
            assert forall|g: int| 0 <= g < self.games@.len() implies
                #[trigger] self.cumulative_lengths@[g] == positions_in(self.games@, g + 1) by {
                if g < before.len() {
                    assert(old(self).cumulative_lengths@[g] == positions_in(before, g + 1));
                    lemma_positions_prefix(before, self.games@, g + 1);
                }
            }
        }
    }

    /// The game and the place in it of one position of all, by bisection.
    pub fn locate(&self, flat_idx: usize) -> (place: (usize, usize))
        requires
            self.wf(),
            flat_idx < self.total_positions,
        ensures
            located(self.games@, flat_idx as int, place.0 as int, place.1 as int),
    {
        let mut low: usize = 0;
        let mut high: usize = self.cumulative_lengths.len();
        proof {
            assert(high > 0);
            assert(self.cumulative_lengths@[high - 1] == self.total_positions);
        }
        while low < high
            invariant
                self.wf(),
                low <= high <= self.games@.len(),
                flat_idx < self.total_positions,
                low > 0 ==> positions_in(self.games@, low as int) <= flat_idx,
                high < self.games@.len() ==> flat_idx < positions_in(self.games@, high + 1),
            decreases high - low,
        {
            let middle: usize = low + (high - low) / 2;
            let cumulative: usize = self.cumulative_lengths[middle];
            if cumulative <= flat_idx {
                low = middle + 1;
            } else {
                high = middle;
            }
        }
        proof {
            assert(low < self.games@.len());
            assert(positions_in(self.games@, low + 1) == positions_in(self.games@, low as int)
                + self.games@[low as int]@.len());
            if low > 0 {
                assert(self.cumulative_lengths@[low - 1] == positions_in(self.games@, low as int));
            } else {
                assert(positions_in(self.games@, 0) == 0);
            }
        }
        let start: usize = if low == 0 {
            0
        } else {
            self.cumulative_lengths[low - 1]
        };
        (low, flat_idx - start)
    }

    /// Draws one position of all, by the `fastrand` generator.
    pub fn draw(&self, rng: &mut Dice) -> (place: (usize, usize))
        requires
            self.wf(),
            self.total_positions > 0,
        ensures
            ({
                let drawn = drawn_below(old(rng).seed, self.total_positions, usize::BITS);
                &&& located(self.games@, drawn.0 as int, place.0 as int, place.1 as int)
                &&& final(rng).seed == drawn.1
            }),
    {
        let flat_idx: usize = rng.below(self.total_positions);
        self.locate(flat_idx)
    }

    /// Unrolls `unroll_steps` entries of a game from a position on, with the given values.
    pub fn sample_single(
        &self,
        game_idx: usize,
        pos: usize,
        unroll_steps: usize,
        values: &Vec<Single>,
    ) -> (sequence: Vec<BufferData>)
        requires
            game_idx < self.games@.len(),
            pos < self.games@[game_idx as int]@.len(),
            values@.len() >= unroll_steps || values@.len() >= self.games@[game_idx as int]@.len()
                - pos,
        ensures
            entries(sequence@) == game_unrolled(
                entries(self.games@[game_idx as int]@),
                pos as int,
                unroll_steps as int,
                values@,
            ),
    {
        let game: &Vec<BufferData> = &self.games[game_idx];
        let ghost s = entries(game@);
        let ghost whole = game_unrolled(s, pos as int, unroll_steps as int, values@);
        let mut sequence: Vec<BufferData> = Vec::new();
        let mut k: usize = 0;
        while k < unroll_steps
            invariant
                k <= unroll_steps,
                s == entries(game@),
                pos < game@.len(),
                values@.len() >= unroll_steps || values@.len() >= game@.len() - pos,
                whole == game_unrolled(s, pos as int, unroll_steps as int, values@),
                sequence@.len() == k,
                forall|j: int| 0 <= j < k ==> (#[trigger] sequence@[j])@ == whole[j],
            decreases unroll_steps - k,
        {
            let mut entry: BufferData = if k < game.len() - pos {
                assert(game@[pos + k]@ == s[pos + k]);
                let mut real_entry: BufferData = game[pos + k].duplicate();
                real_entry.value = values[k];
                real_entry
            } else {
                assert(sequence@[k - 1]@ == whole[k - 1]);
                let mut absorbing: BufferData = sequence[k - 1].duplicate();
                absorbing.value = Single::zero();
                absorbing.reward = Single::zero();
                absorbing.is_absorbing = true;
                absorbing
            };
            assert(entry@ == whole[k as int]);
            sequence.push(entry);
            k = k + 1;
        }
        assert(entries(sequence@) =~= whole);
        sequence
    }

    /// The values of the entries that an unroll from a position of a game comes to, by the
    /// model's arithmetic.
    fn unroll_values<M: Returns>(
        &self,
        game_idx: usize,
        pos: usize,
        unroll_steps: usize,
        n_steps: usize,
        model: &M,
    ) -> (values: Vec<Single>)
        requires
            game_idx < self.games@.len(),
            pos < self.games@[game_idx as int]@.len(),
        ensures
            values@ == game_values(
                entries(self.games@[game_idx as int]@),
                pos as int,
                unroll_steps as int,
                n_steps as nat,
                *model,
            ),
    {
        let game: &Vec<BufferData> = &self.games[game_idx];
        let ghost s = entries(game@);
        let len: usize = game.len();
        let in_game: usize = if unroll_steps <= len - pos {
            unroll_steps
        } else {
            len - pos
        };
        let mut values: Vec<Single> = Vec::new();
        while values.len() < in_game
            invariant
                len == game@.len(),
                values@.len() <= in_game <= len - pos,
                s == entries(game@),
                forall|k: int|
                    0 <= k < values@.len() ==> #[trigger] values@[k] == model.value_spec(
                        game_value_terms(s, pos + k, 0, n_steps as nat),
                    ),
            decreases in_game - values@.len(),
        {
            let terms: Vec<(usize, Single)> = game_n_step_value(game, pos + values.len(), n_steps);
            values.push(model.n_step_value(&terms));
        }
        assert(values@ =~= game_values(
            s,
            pos as int,
            unroll_steps as int,
            n_steps as nat,
            *model,
        ));
        values
    }

    /// Unrolls from positions that the `fastrand` generator draws, with values over `n_steps`
    /// steps from the model's arithmetic.
    pub fn sample_games<M: Returns>(
        &self,
        count: usize,
        unroll_steps: usize,
        n_steps: usize,
        rng: &mut Dice,
        model: &M,
    ) -> (sequences: Vec<Vec<BufferData>>)
        requires
            self.wf(),
            count > 0 ==> self.total_positions > 0,
        ensures
            sequences@.len() == count,
            final(rng).seed == draws(old(rng).seed, self.total_positions, count as nat).1,
            forall|i: int|
                0 <= i < count ==> unrolled_from(
                    self.games@,
                    draws(old(rng).seed, self.total_positions, count as nat).0[i] as int,
                    unroll_steps as int,
                    n_steps as nat,
                    *model,
                    entries((#[trigger] sequences@[i])@),
                ),
    {
        let mut sequences: Vec<Vec<BufferData>> = Vec::new();
        while sequences.len() < count
            invariant
                self.wf(),
                count > 0 ==> self.total_positions > 0,
                sequences@.len() <= count,
                ({
                    let drawn = draws(
                        old(rng).seed,
                        self.total_positions,
                        sequences@.len() as nat,
                    );
                    &&& rng.seed == drawn.1
                    &&& drawn.0.len() == sequences@.len()
                }),
                forall|i: int|
                    0 <= i < sequences@.len() ==> unrolled_from(
                        self.games@,
                        draws(
                            old(rng).seed,
                            self.total_positions,
                            sequences@.len() as nat,
                        ).0[i] as int,
                        unroll_steps as int,
                        n_steps as nat,
                        *model,
                        entries((#[trigger] sequences@[i])@),
                    ),
            decreases count - sequences@.len(),
        {
            let ghost drawn = draws(
                old(rng).seed,
                self.total_positions,
                (sequences@.len() + 1) as nat,
            ).0;
            let place: (usize, usize) = self.draw(rng);
            let values: Vec<Single> = self.unroll_values(
                place.0,
                place.1,
                unroll_steps,
                n_steps,
                model,
            );
            let sequence: Vec<BufferData> = self.sample_single(
                place.0,
                place.1,
                unroll_steps,
                &values,
            );
            proof {
                assert(located(
                    self.games@,
                    drawn.last() as int,
                    place.0 as int,
                    place.1 as int,
                ));
            }
            sequences.push(sequence);
        }
        sequences
    }
}

proof fn lemma_positions_prefix(
    games: Seq<Vec<BufferData>>,
    longer: Seq<Vec<BufferData>>,
    end: int,
)
    requires
        0 <= end <= games.len() <= longer.len(),
        forall|g: int| 0 <= g < games.len() ==> games[g] == longer[g],
    ensures
        positions_in(games, end) == positions_in(longer, end),
    decreases end,
{
    if end > 0 {
        lemma_positions_prefix(games, longer, end - 1);
    }
}

/// What an unroll of a game holds, entry by entry. Up to the end of the game an entry is the
/// stored position in everything but its value, which is the given one. Behind the end it is the
/// last position of the game once more, without value and reward.
pub proof fn unrolls_show_the_game(
    game: Seq<Entry>,
    pos: int,
    steps: int,
    values: Seq<Single>,
    k: int,
)
    requires
        0 <= pos < game.len(),
        0 <= k < steps,
    ensures
        ({
            let u = game_unrolled(game, pos, steps, values);
            let shown = if pos + k < game.len() {
                game[pos + k]
            } else {
                game.last()
            };
            &&& u.len() == steps
            &&& u[k].state == shown.state
            &&& u[k].action == shown.action
            &&& u[k].policy == shown.policy
            &&& u[k].is_terminal == shown.is_terminal
            &&& u[k].is_boundary == shown.is_boundary
            &&& u[k].created_step == shown.created_step
            &&& u[k].legal_mask == shown.legal_mask
            &&& pos + k < game.len() ==> {
                &&& u[k].value == values[k]
                &&& u[k].reward == shown.reward
                &&& u[k].is_absorbing == shown.is_absorbing
            }
            &&& pos + k >= game.len() ==> {
                &&& u[k].value == Single::zero_spec()
                &&& u[k].reward == Single::zero_spec()
                &&& u[k].is_absorbing
            }
        }),
{
}

proof fn lemma_game_terms(game: Seq<Entry>, idx: int, k: nat, left: nat)
    requires
        0 <= idx <= game.len() <= usize::MAX,
        k <= idx,
    ensures
        ({
            let terms = game_value_terms(game, idx, k, left);
            let in_game = game.len() - idx;
            &&& terms.len() == if in_game <= left {
                in_game
            } else {
                left as int + 1
            }
            &&& forall|j: int| 0 <= j < terms.len() ==> (#[trigger] terms[j]).0 == k + j
            &&& forall|j: int|
                0 <= j < terms.len() && j < left ==> (#[trigger] terms[j]).1 == game[idx
                    + j].reward
            &&& in_game > left ==> terms[left as int].1 == game[idx + left].value
        }),
    decreases left,
{
    if idx < game.len() && left > 0 {
        lemma_game_terms(game, idx + 1, k + 1, (left - 1) as nat);
        let terms = game_value_terms(game, idx, k, left);
        let rest = game_value_terms(game, idx + 1, k + 1, (left - 1) as nat);
        assert forall|j: int| 0 <= j < terms.len() implies (#[trigger] terms[j]).0 == k + j && (j
            < left ==> terms[j].1 == game[idx + j].reward) by {
            if j > 0 {
                assert(terms[j] == rest[j - 1]);
            }
        }
        if game.len() - idx > left {
            assert(terms[left as int] == rest[left - 1]);
        }
    }
}

/// What a value over some steps of a game is made of: the reward of each of the steps, as far as
/// the game goes, and behind them the value of the position that they lead to, where the game
/// has one. Each has the number of steps to it as its exponent.
pub proof fn game_values_add_rewards_and_look_ahead(game: Seq<Entry>, idx: int, n_steps: nat)
    requires
        0 <= idx <= game.len() <= usize::MAX,
    ensures
        ({
            let terms = game_value_terms(game, idx, 0, n_steps);
            let in_game = game.len() - idx;
            &&& terms.len() == if in_game <= n_steps {
                in_game
            } else {
                n_steps as int + 1
            }
            &&& forall|j: int| 0 <= j < terms.len() ==> (#[trigger] terms[j]).0 == j
            &&& forall|j: int|
                0 <= j < terms.len() && j < n_steps ==> (#[trigger] terms[j]).1 == game[idx
                    + j].reward
            &&& in_game > n_steps ==> terms[n_steps as int].1 == game[idx + n_steps].value
        }),
{
    lemma_game_terms(game, idx, 0, n_steps);
}

/// A value of an unroll is that of the position that it stands beside: the model's sum of the
/// terms from there on.
pub proof fn game_values_are_of_their_positions<M: Returns>(
    game: Seq<Entry>,
    pos: int,
    steps: int,
    n_steps: nat,
    model: M,
    k: int,
)
    requires
        0 <= pos < game.len(),
        0 <= k < steps,
        pos + k < game.len(),
    ensures
        game_unrolled(
            game,
            pos,
            steps,
            game_values(game, pos, steps, n_steps, model),
        )[k].value == model.value_spec(game_value_terms(game, pos + k, 0, n_steps)),
{
}

/// Positions are numbered through all games, in the order of the games and of the moves in each:
/// the first position of a game follows the last one of the game before, and behind the last game
/// there are no more.
pub proof fn positions_are_numbered_in_order(games: Seq<Vec<BufferData>>, game: int, pos: int)
    requires
        0 <= game < games.len(),
        0 <= pos < games[game]@.len(),
    ensures
        game == 0 ==> located(games, pos, game, pos),
        located(games, positions_in(games, game) + pos, game, pos),
        game + 1 < games.len() && games[game + 1]@.len() > 0 ==> located(
            games,
            positions_in(games, game) + games[game]@.len(),
            game + 1,
            0,
        ),
        forall|flat: int|
            located(games, flat, game, pos) ==> 0 <= flat < positions_in(
                games,
                games.len() as int,
            ),
{
    lemma_positions_monotone(games, 0, game);
    lemma_positions_monotone(games, game + 1, games.len() as int);
}

} // verus!
