//! Sequential halving: how many visits a root action must have to be considered
//! in each simulation.
//!
//! The simulations come in rounds. In round `r` each of the actions still considered
//! is visited once, so that the round asks for `r` visits as often as actions are
//! considered. After a number of rounds the number of considered actions is halved,
//! down to two.
use vstd::arithmetic::power2::pow2;
use vstd::prelude::*;

verus! {

/// The number of binary digits of `n`.
pub open spec fn bit_width(n: nat) -> nat
    decreases n,
{
    if n == 0 {
        0
    } else {
        1 + bit_width(n / 2)
    }
}

/// How many rounds are spent on `considered` actions.
pub open spec fn rounds_for(considered: nat, num_simulations: nat, width: nat) -> nat {
    let rounds = num_simulations / (width * considered);
    if rounds < 1 {
        1
    } else {
        rounds
    }
}

/// How many actions are considered after `considered` of them.
pub open spec fn halved(considered: nat) -> nat {
    if considered / 2 < 2 {
        2
    } else {
        considered / 2
    }
}

/// The required visits from `round` on, with `left` rounds to go on `considered`
/// actions, until at least `missing` entries are there.
pub open spec fn schedule(
    considered: nat,
    left: nat,
    round: nat,
    num_simulations: nat,
    width: nat,
    missing: int,
) -> Seq<usize>
    decreases
        if missing < 0 {
            0
        } else {
            missing
        },
{
    if missing <= 0 || considered == 0 {
        Seq::empty()
    } else if left > 1 {
        Seq::new(considered, |i: int| round as usize) + schedule(
            considered,
            (left - 1) as nat,
            round + 1,
            num_simulations,
            width,
            missing - considered,
        )
    } else {
        Seq::new(considered, |i: int| round as usize) + schedule(
            halved(considered),
            rounds_for(halved(considered), num_simulations, width),
            round + 1,
            num_simulations,
            width,
            missing - considered,
        )
    }
}

/// The required visits of every simulation, with `num_considered` actions at first.
pub open spec fn considered_visits(num_considered: nat, num_simulations: nat) -> Seq<usize> {
    if num_considered <= 1 {
        Seq::new(num_simulations, |i: int| i as usize)
    } else {
        let width = bit_width((num_considered - 1) as nat);
        schedule(
            num_considered,
            rounds_for(num_considered, num_simulations, width),
            0,
            num_simulations,
            width,
            num_simulations as int,
        ).take(num_simulations as int)
    }
}

/// How often `value` occurs among the first `end` entries.
pub open spec fn occurrences(s: Seq<usize>, value: int, end: int) -> nat
    decreases end,
{
    if end <= 0 {
        0
    } else {
        occurrences(s, value, end - 1) + if s[end - 1] == value {
            1nat
        } else {
            0nat
        }
    }
}

proof fn lemma_schedule_long_enough(
    considered: nat,
    left: nat,
    round: nat,
    num_simulations: nat,
    width: nat,
    missing: int,
)
    requires
        considered >= 1,
    ensures
        schedule(considered, left, round, num_simulations, width, missing).len() >= missing,
    decreases
        if missing < 0 {
            0
        } else {
            missing
        },
{
    if missing > 0 {
        if left > 1 {
            lemma_schedule_long_enough(
                considered,
                (left - 1) as nat,
                round + 1,
                num_simulations,
                width,
                missing - considered,
            );
        } else {
            lemma_schedule_long_enough(
                halved(considered),
                rounds_for(halved(considered), num_simulations, width),
                round + 1,
                num_simulations,
                width,
                missing - considered,
            );
        }
    }
}

fn bit_width_of(n: usize) -> (width: usize)
    ensures
        width == bit_width(n as nat),
        n > 0 ==> width >= 1,
    decreases n,
{
    if n == 0 {
        0
    } else {
        proof {
            lemma_bit_width_bound((n / 2) as nat);
        }
        1 + bit_width_of(n / 2)
    }
}

proof fn lemma_bit_width_bound(n: nat)
    ensures
        bit_width(n) <= n,
    decreases n,
{
    if n > 0 {
        lemma_bit_width_bound(n / 2);
    }
}

fn rounds_of(considered: usize, num_simulations: usize, width: usize) -> (rounds: usize)
    requires
        considered >= 1,
        width >= 1,
    ensures
        rounds == rounds_for(considered as nat, num_simulations as nat, width as nat),
        rounds >= 1,
{
    proof {
        vstd::arithmetic::div_mod::lemma_div_denominator(
            num_simulations as int,
            width as int,
            considered as int,
        );
    }
    let rounds: usize = num_simulations / width / considered;
    if rounds < 1 {
        1
    } else {
        rounds
    }
}

/// The visits that a root action must have to be considered, for each simulation.
pub fn sequence_of_considered_visits(num_considered: usize, num_simulations: usize) -> (sequence:
    Vec<usize>)
    ensures
        sequence@ == considered_visits(num_considered as nat, num_simulations as nat),
        sequence@.len() == num_simulations,
{
    let mut sequence: Vec<usize> = Vec::new();
    if num_considered <= 1 {
        let mut i: usize = 0;
        while i < num_simulations
            invariant
                i <= num_simulations,
                sequence@ == Seq::new(i as nat, |j: int| j as usize),
            decreases num_simulations - i,
        {
            sequence.push(i);
            i = i + 1;
            assert(sequence@ =~= Seq::new(i as nat, |j: int| j as usize));
        }
        return sequence;
    }
    let width: usize = bit_width_of(num_considered - 1);
    let mut considered: usize = num_considered;
    let mut left: usize = rounds_of(considered, num_simulations, width);
    let mut round: usize = 0;
    let ghost whole = schedule(
        considered as nat,
        left as nat,
        0,
        num_simulations as nat,
        width as nat,
        num_simulations as int,
    );
    proof {
        lemma_schedule_long_enough(
            considered as nat,
            left as nat,
            0,
            num_simulations as nat,
            width as nat,
            num_simulations as int,
        );
        assert(sequence@ + whole =~= whole);
    }
    while sequence.len() < num_simulations
        invariant
            considered >= 1,
            left >= 1,
            width >= 1,
            round <= sequence@.len() <= num_simulations,
            whole.len() >= num_simulations,
            sequence@.len() < num_simulations ==> whole == sequence@ + schedule(
                considered as nat,
                left as nat,
                round as nat,
                num_simulations as nat,
                width as nat,
                num_simulations - sequence@.len(),
            ),
            sequence@ == whole.take(sequence@.len() as int),
        decreases num_simulations - sequence@.len(),
    {
        let ghost before = sequence@;
        let ghost rest = whole.subrange(before.len() as int, whole.len() as int);
        assert(rest =~= schedule(
            considered as nat,
            left as nat,
            round as nat,
            num_simulations as nat,
            width as nat,
            num_simulations - before.len(),
        ));
        let mut i: usize = 0;
        while i < considered && sequence.len() < num_simulations
            invariant
                i <= considered,
                before.len() + i == sequence@.len(),
                sequence@.len() <= num_simulations,
                sequence@ == before + Seq::new(i as nat, |j: int| round as usize),
            decreases considered - i,
        {
            sequence.push(round);
            i = i + 1;
            assert(sequence@ =~= before + Seq::new(i as nat, |j: int| round as usize));
        }
        let ghost block = Seq::new(considered as nat, |j: int| round as usize);
        assert(rest.take(i as int) =~= block.take(i as int));
        assert(sequence@ =~= whole.take(sequence@.len() as int)) by {
            assert forall|k: int| 0 <= k < sequence@.len() implies sequence@[k] == whole[k] by {
                if k < before.len() {
                    assert(before[k] == whole.take(before.len() as int)[k]);
                } else {
                    assert(whole[k] == rest[k - before.len()]);
                    assert(rest[k - before.len()] == rest.take(i as int)[k - before.len()]);
                }
            }
        }
        let ghost old_left = left;
        let ghost old_considered = considered;
        if left > 1 {
            left = left - 1;
        } else {
            considered = if considered / 2 < 2 {
                2
            } else {
                considered / 2
            };
            left = rounds_of(considered, num_simulations, width);
        }
        proof {
            if sequence@.len() < num_simulations {
                assert(i == old_considered);
                let tail = schedule(
                    considered as nat,
                    left as nat,
                    round as nat + 1,
                    num_simulations as nat,
                    width as nat,
                    num_simulations - sequence@.len(),
                );
                assert(rest =~= block + tail);
                assert(whole =~= sequence@ + tail);
            }
        }
        round = round + 1;
    }
    assert(sequence@ =~= whole.take(num_simulations as int));
    sequence
}

/// The sequences for every number of considered actions up to `max_considered`.
pub fn table_of_considered_visits(max_considered: usize, num_simulations: usize) -> (table: Vec<
    Vec<usize>,
>)
    requires
        max_considered < usize::MAX,
    ensures
        table@.len() == max_considered + 1,
        forall|m: int|
            0 <= m <= max_considered ==> (#[trigger] table@[m])@ == considered_visits(
                m as nat,
                num_simulations as nat,
            ) && table@[m]@.len() == num_simulations,
{
    let mut table: Vec<Vec<usize>> = Vec::new();
    let mut m: usize = 0;
    while m <= max_considered
        invariant
            m <= max_considered + 1,
            max_considered < usize::MAX,
            table@.len() == m,
            forall|k: int|
                0 <= k < m ==> (#[trigger] table@[k])@ == considered_visits(
                    k as nat,
                    num_simulations as nat,
                ) && table@[k]@.len() == num_simulations,
        decreases max_considered + 1 - m,
    {
        table.push(sequence_of_considered_visits(m, num_simulations));
        m = m + 1;
    }
    table
}

proof fn lemma_occurrences_prefix(s: Seq<usize>, t: Seq<usize>, value: int, end: int)
    requires
        end <= s.len(),
        end <= t.len(),
        forall|i: int| 0 <= i < end ==> s[i] == t[i],
    ensures
        occurrences(s, value, end) == occurrences(t, value, end),
    decreases end,
{
    if end > 0 {
        lemma_occurrences_prefix(s, t, value, end - 1);
    }
}

/// A stretch of equal entries counts in full for its value and not at all for others.
proof fn lemma_occurrences_stretch(s: Seq<usize>, value: int, from: int, to: int, entry: usize)
    requires
        0 <= from <= to <= s.len(),
        forall|i: int| from <= i < to ==> s[i] == entry,
    ensures
        occurrences(s, value, to) == occurrences(s, value, from) + if entry == value {
            to - from
        } else {
            0
        },
    decreases to - from,
{
    if from < to {
        lemma_occurrences_stretch(s, value, from, to - 1, entry);
    }
}

/// Whether entry `t` finds an action at the visits that it asks for: more actions came
/// up to that number before it than left it.
pub open spec fn finds_candidate(s: Seq<usize>, num_considered: nat, t: int) -> bool {
    occurrences(s, s[t] as int, t) < if s[t] == 0 {
        num_considered
    } else {
        occurrences(s, s[t] - 1, t)
    }
}

proof fn lemma_rounds_find_candidates(
    s: Seq<usize>,
    start: int,
    num_considered: nat,
    considered: nat,
    left: nat,
    round: nat,
    num_simulations: nat,
    width: nat,
    missing: int,
)
    requires
        2 <= considered <= num_considered,
        0 <= start <= s.len(),
        round <= start,
        s.len() <= usize::MAX,
        s.subrange(start, s.len() as int) == schedule(
            considered,
            left,
            round,
            num_simulations,
            width,
            missing,
        ).take(s.len() - start),
        schedule(considered, left, round, num_simulations, width, missing).len() >= s.len() - start,
        occurrences(s, round as int, start) == 0,
        forall|v: int| v > round ==> occurrences(s, v, start) == 0,
        round == 0 || occurrences(s, round - 1, start) >= considered,
        missing == s.len() - start,
    ensures
        forall|t: int| start <= t < s.len() ==> #[trigger] finds_candidate(s, num_considered, t),
        forall|t: int| start <= t < s.len() ==> #[trigger] s[t] >= round,
        forall|t: int, u: int| start <= t <= u < s.len() ==> #[trigger] s[t] <= #[trigger] s[u],
        forall|t: int| start <= t < start + considered && t < s.len() ==> #[trigger] s[t] == round,
        start + considered < s.len() ==> s[start + considered] == round + 1,
    decreases
        if missing < 0 {
            0
        } else {
            missing
        },
{
    let rest = schedule(considered, left, round, num_simulations, width, missing);
    if missing > 0 {
        let block = Seq::new(considered, |i: int| round as usize);
        let next_considered = if left > 1 {
            considered
        } else {
            halved(considered)
        };
        let next_left = if left > 1 {
            (left - 1) as nat
        } else {
            rounds_for(halved(considered), num_simulations, width)
        };
        let tail = schedule(
            next_considered,
            next_left,
            round + 1,
            num_simulations,
            width,
            missing - considered,
        );
        assert(rest == block + tail);
        let end = if start + considered <= s.len() {
            start + considered
        } else {
            s.len() as int
        };
        assert forall|t: int| start <= t < end implies #[trigger] s[t] == round by {
            assert(s[t] == s.subrange(start, s.len() as int)[t - start]);
            assert(rest[t - start] == block[t - start]);
        }
        assert forall|t: int| start <= t < end implies #[trigger] finds_candidate(
            s,
            num_considered,
            t,
        ) by {
            lemma_occurrences_stretch(s, round as int, start, t, round as usize);
            lemma_occurrences_stretch(s, round - 1, start, t, round as usize);
        }
        if start + considered < s.len() {
            assert(s.subrange(end, s.len() as int) =~= tail.take(s.len() - end)) by {
                assert forall|k: int| 0 <= k < s.len() - end implies s.subrange(
                    end,
                    s.len() as int,
                )[k] == tail.take(s.len() - end)[k] by {
                    assert(s[end + k] == s.subrange(start, s.len() as int)[considered + k]);
                    assert(rest[considered + k] == tail[k]);
                }
            }
            assert forall|v: int| v >= round + 1 implies #[trigger] occurrences(s, v, end) == 0 by {
                lemma_occurrences_stretch(s, v, start, end, round as usize);
            }
            lemma_occurrences_stretch(s, round as int, start, end, round as usize);
            lemma_rounds_find_candidates(
                s,
                end,
                num_considered,
                next_considered,
                next_left,
                round + 1,
                num_simulations,
                width,
                missing - considered,
            );
            assert(s[end] == round + 1);
            assert forall|t: int, u: int| start <= t <= u < s.len() implies #[trigger] s[t]
                <= #[trigger] s[u] by {
                if t < end && u >= end {
                    assert(s[t] == round);
                    assert(s[u] >= round + 1);
                }
            }
        }
    }
}

/// Sequential halving never runs dry: with as many actions as it considers at first,
/// every simulation finds an action that has just the visits it asks for. The
/// required visits never fall, the first ones are zero, once for each considered
/// action, and then comes a one.
pub proof fn every_simulation_finds_a_candidate(num_considered: nat, num_simulations: nat)
    requires
        1 <= num_considered,
        num_simulations <= usize::MAX,
    ensures
        ({
            let s = considered_visits(num_considered, num_simulations);
            &&& s.len() == num_simulations
            &&& forall|t: int|
                0 <= t < num_simulations ==> #[trigger] finds_candidate(s, num_considered, t)
            &&& forall|t: int, u: int|
                0 <= t <= u < num_simulations ==> #[trigger] s[t] <= #[trigger] s[u]
            &&& forall|t: int|
                0 <= t < num_considered && t < num_simulations ==> #[trigger] s[t] == 0
            &&& num_considered < num_simulations ==> s[num_considered as int] == 1
        }),
{
    let s = considered_visits(num_considered, num_simulations);
    if num_considered == 1 {
        assert forall|t: int| 0 <= t < num_simulations implies #[trigger] finds_candidate(
            s,
            num_considered,
            t,
        ) by {
            lemma_counting_up(s, t, t);
            if t > 0 {
                lemma_counting_up(s, t - 1, t);
            }
        }
    } else {
        let width = bit_width((num_considered - 1) as nat);
        let left = rounds_for(num_considered, num_simulations, width);
        let whole = schedule(
            num_considered,
            left,
            0,
            num_simulations,
            width,
            num_simulations as int,
        );
        lemma_schedule_long_enough(
            num_considered,
            left,
            0,
            num_simulations,
            width,
            num_simulations as int,
        );
        assert(s.subrange(0, s.len() as int) =~= whole.take(s.len() as int));
        lemma_rounds_find_candidates(
            s,
            0,
            num_considered,
            num_considered,
            left,
            0,
            num_simulations,
            width,
            num_simulations as int,
        );
    }
}

proof fn lemma_counting_up(s: Seq<usize>, value: int, end: int)
    requires
        0 <= end <= s.len(),
        forall|i: int| 0 <= i < s.len() ==> s[i] == i,
    ensures
        occurrences(s, value, end) == if 0 <= value < end {
            1nat
        } else {
            0nat
        },
    decreases end,
{
    if end > 0 {
        lemma_counting_up(s, value, end - 1);
    }
}

/// A number has as many binary digits as the least power of two above it has zeros.
proof fn lemma_bit_width_is_logarithm(n: nat, width: nat)
    requires
        n > 0,
        width > 0,
        pow2((width - 1) as nat) <= n < pow2(width),
    ensures
        bit_width(n) == width,
    decreases n,
{
    vstd::arithmetic::power2::lemma_pow2_unfold(width);
    vstd::arithmetic::power2::lemma2_to64();
    if n > 1 {
        assert(width > 1) by {
            if width == 1 {
                assert(pow2(1) == 2);
            }
        }
        vstd::arithmetic::power2::lemma_pow2_unfold((width - 1) as nat);
        lemma_bit_width_is_logarithm(n / 2, (width - 1) as nat);
    } else {
        assert(bit_width(0) == 0);
        assert(bit_width(1) == 1 + bit_width(0));
        if width > 1 {
            vstd::arithmetic::power2::lemma_pow2_unfold((width - 1) as nat);
            vstd::arithmetic::power2::lemma_pow2_pos((width - 2) as nat);
        }
    }
}

/// The actions considered in a round, and the rounds that are left for as many.
spec fn stand(num_considered: nat, num_simulations: nat, width: nat, round: nat) -> (nat, nat)
    decreases round,
{
    if round == 0 {
        (num_considered, rounds_for(num_considered, num_simulations, width))
    } else {
        let (considered, left) = stand(
            num_considered,
            num_simulations,
            width,
            (round - 1) as nat,
        );
        if left > 1 {
            (considered, (left - 1) as nat)
        } else {
            (halved(considered), rounds_for(halved(considered), num_simulations, width))
        }
    }
}

/// Every round that is not the last asks for its visits once for each action considered in it.
proof fn lemma_rounds_are_counted(
    s: Seq<usize>,
    start: int,
    num_considered: nat,
    round: nat,
    num_simulations: nat,
    width: nat,
)
    requires
        num_considered >= 2,
        0 <= start < s.len(),
        round <= start,
        s.len() <= usize::MAX,
        ({
            let (considered, left) = stand(num_considered, num_simulations, width, round);
            let rest = schedule(
                considered,
                left,
                round,
                num_simulations,
                width,
                s.len() - start,
            );
            &&& considered >= 2
            &&& s.subrange(start, s.len() as int) == rest.take(s.len() - start)
            &&& rest.len() >= s.len() - start
        }),
        forall|v: int| v >= round ==> #[trigger] occurrences(s, v, start) == 0,
    ensures
        s.last() >= round,
        forall|v: nat|
            round <= v < s.last() ==> #[trigger] occurrences(s, v as int, s.len() as int) == stand(
                num_considered,
                num_simulations,
                width,
                v,
            ).0,
        0 < occurrences(s, s.last() as int, s.len() as int) <= stand(
            num_considered,
            num_simulations,
            width,
            s.last() as nat,
        ).0,
        forall|v: int| v > s.last() ==> #[trigger] occurrences(s, v, s.len() as int) == 0,
        forall|v: int|
            0 <= v < round ==> #[trigger] occurrences(s, v, s.len() as int) == occurrences(
                s,
                v,
                start,
            ),
    decreases s.len() - start,
{
    let (considered, left) = stand(num_considered, num_simulations, width, round);
    let missing = s.len() - start;
    let rest = schedule(considered, left, round, num_simulations, width, missing);
    let block = Seq::new(considered, |i: int| round as usize);
    let (next_considered, next_left) = stand(num_considered, num_simulations, width, round + 1);
    let tail = schedule(
        next_considered,
        next_left,
        round + 1,
        num_simulations,
        width,
        missing - considered,
    );
    assert(rest == block + tail);
    let end = if start + considered < s.len() {
        start + considered
    } else {
        s.len() as int
    };
    assert forall|t: int| start <= t < end implies #[trigger] s[t] == round by {
        assert(s[t] == s.subrange(start, s.len() as int)[t - start]);
        assert(rest[t - start] == block[t - start]);
    }
    assert forall|v: int| #[trigger] occurrences(s, v, end) == occurrences(s, v, start) + if v
        == round {
        end - start
    } else {
        0
    } by {
        lemma_occurrences_stretch(s, v, start, end, round as usize);
    }
    if end < s.len() {
        assert(s.subrange(end, s.len() as int) =~= tail.take(s.len() - end)) by {
            assert forall|k: int| 0 <= k < s.len() - end implies s.subrange(
                end,
                s.len() as int,
            )[k] == tail.take(s.len() - end)[k] by {
                assert(s[end + k] == s.subrange(start, s.len() as int)[considered + k]);
                assert(rest[considered + k] == tail[k]);
            }
        }
        lemma_rounds_are_counted(s, end, num_considered, round + 1, num_simulations, width);
        assert(occurrences(s, round as int, s.len() as int) == occurrences(s, round as int, end));
        assert forall|v: int| 0 <= v < round implies #[trigger] occurrences(s, v, s.len() as int)
            == occurrences(s, v, start) by {
            assert(occurrences(s, v, end) == occurrences(s, v, start));
        }
    } else {
        assert(s.last() == s[end - 1]);
        assert(s.last() == round);
    }
}

/// A number of actions is held for its rounds, and then halved.
proof fn lemma_stand_is_held(
    num_considered: nat,
    num_simulations: nat,
    width: nat,
    round: nat,
    k: nat,
)
    requires
        ({
            let (considered, left) = stand(num_considered, num_simulations, width, round);
            left == rounds_for(considered, num_simulations, width) && k <= left
        }),
    ensures
        ({
            let (considered, left) = stand(num_considered, num_simulations, width, round);
            stand(num_considered, num_simulations, width, round + k) == if k < left {
                (considered, (left - k) as nat)
            } else {
                (halved(considered), rounds_for(halved(considered), num_simulations, width))
            }
        }),
    decreases k,
{
    if k > 0 {
        lemma_stand_is_held(num_considered, num_simulations, width, round, (k - 1) as nat);
    }
}

/// Sequential halving. Of `num_considered` actions, all are visited once in the first round.
/// A number of actions is held for as many rounds as are its share of the simulations, which
/// are shared alike by all numbers on the way down: `width` of them, the logarithm of
/// `num_considered` to the base two, rounded up. Then it is halved, but never to less than two.
/// Only the last round may be cut short. With one action, or none, every simulation asks for
/// one visit more than the one before.
pub proof fn rounds_are_halved(num_considered: nat, num_simulations: nat, width: nat)
    requires
        0 < num_simulations <= usize::MAX,
        num_considered >= 2 ==> width > 0 && pow2((width - 1) as nat) < num_considered <= pow2(
            width,
        ),
    ensures
        ({
            let s = considered_visits(num_considered, num_simulations);
            let last = s[num_simulations - 1];
            let size = |v: int| occurrences(s, v, num_simulations as int);
            let rounds = |w: int|
                if num_simulations as int / (width * w) < 1 {
                    1
                } else {
                    num_simulations as int / (width * w)
                };
            let half = |w: int|
                if w / 2 < 2 {
                    2
                } else {
                    w / 2
                };
            if num_considered < 2 {
                forall|t: int| 0 <= t < num_simulations ==> #[trigger] s[t] == t
            } else {
                &&& last > 0 ==> size(0) == num_considered
                &&& last == 0 ==> size(0) == num_simulations <= num_considered
                &&& forall|v: int|
                    0 < v < last ==> #[trigger] occurrences(s, v, num_simulations as int) == size(
                        v - 1,
                    ) || size(v) == half(size(v - 1) as int)
                &&& forall|v: int, u: int|
                    0 <= v < last && (v == 0 || size(v) != size(v - 1)) && v <= u < v + rounds(
                        size(v) as int,
                    ) && u <= last ==> if u < last {
                        #[trigger] occurrences(s, u, num_simulations as int)
                            == #[trigger] occurrences(s, v, num_simulations as int)
                    } else {
                        0 < size(u) <= size(v)
                    }
                &&& forall|v: int|
                    0 <= v < last && (v == 0 || #[trigger] occurrences(
                        s,
                        v,
                        num_simulations as int,
                    ) != size(v - 1)) ==> {
                        let next = v + rounds(size(v) as int);
                        &&& next < last ==> size(next) == half(size(v) as int)
                        &&& next == last ==> 0 < size(next) <= half(size(v) as int)
                    }
                &&& last > 0 ==> size(last as int) <= size(last - 1)
            }
        }),
{
    let s = considered_visits(num_considered, num_simulations);
    if num_considered >= 2 {
        let n = num_considered;
        let last = s[num_simulations - 1];
        vstd::arithmetic::power2::lemma_pow2_pos(width);
        vstd::arithmetic::power2::lemma_pow2_pos((width - 1) as nat);
        lemma_bit_width_is_logarithm((n - 1) as nat, width);
        let left = rounds_for(n, num_simulations, width);
        let whole = schedule(n, left, 0, num_simulations, width, num_simulations as int);
        lemma_schedule_long_enough(n, left, 0, num_simulations, width, num_simulations as int);
        assert(s.subrange(0, s.len() as int) =~= whole.take(s.len() as int));
        assert(stand(n, num_simulations, width, 0) == (n, left));
        lemma_rounds_are_counted(s, 0, n, 0, num_simulations, width);
        assert(s.last() == last);
        let size = |v: int| occurrences(s, v, num_simulations as int);
        let rounds = |w: int|
            if num_simulations as int / (width * w) < 1 {
                1
            } else {
                num_simulations as int / (width * w)
            };
        let half = |w: int|
            if w / 2 < 2 {
                2
            } else {
                w / 2
            };
        if last == 0 {
            every_simulation_finds_a_candidate(n, num_simulations);
            assert forall|t: int| 0 <= t < s.len() implies #[trigger] s[t] == 0 by {
                assert(s[t] <= s[num_simulations - 1]);
            }
            lemma_occurrences_stretch(s, 0, 0, s.len() as int, 0);
        }
        assert forall|v: int| 0 <= v < last implies #[trigger] occurrences(
            s,
            v,
            num_simulations as int,
        ) == stand(n, num_simulations, width, v as nat).0 by {
            assert(occurrences(s, (v as nat) as int, s.len() as int) == stand(
                n,
                num_simulations,
                width,
                v as nat,
            ).0);
        }
        assert forall|v: int|
            0 <= v < last && (v == 0 || size(v) != size(v - 1)) implies stand(
            n,
            num_simulations,
            width,
            v as nat,
        ).1 == #[trigger] rounds(size(v) as int) by {
            let (considered, rest) = stand(n, num_simulations, width, v as nat);
            assert(occurrences(s, v, num_simulations as int) == considered);
            if v > 0 {
                assert(occurrences(s, v - 1, num_simulations as int) == stand(
                    n,
                    num_simulations,
                    width,
                    (v - 1) as nat,
                ).0);
            }
            assert(rest == rounds_for(considered, num_simulations, width));
            assert(width * considered == width * size(v));
        }
        assert forall|v: int| 0 < v < last implies #[trigger] occurrences(
            s,
            v,
            num_simulations as int,
        ) == size(v - 1) || size(v) == half(size(v - 1) as int) by {
            assert(occurrences(s, v - 1, num_simulations as int) == stand(
                n,
                num_simulations,
                width,
                (v - 1) as nat,
            ).0);
        }
        assert forall|v: int, u: int|
            0 <= v < last && (v == 0 || size(v) != size(v - 1)) && v <= u < v + rounds(
                size(v) as int,
            ) && u <= last implies if u < last {
            #[trigger] occurrences(s, u, num_simulations as int) == #[trigger] occurrences(
                s,
                v,
                num_simulations as int,
            )
        } else {
            0 < size(u) <= size(v)
        } by {
            assert(stand(n, num_simulations, width, v as nat).1 == rounds(size(v) as int));
            assert(stand(n, num_simulations, width, v as nat).0 == size(v));
            assert(width * stand(n, num_simulations, width, v as nat).0 == width * size(v));
            lemma_stand_is_held(n, num_simulations, width, v as nat, (u - v) as nat);
            assert((v as nat + (u - v) as nat) as nat == u as nat);
        }
        assert forall|v: int|
            0 <= v < last && (v == 0 || #[trigger] occurrences(s, v, num_simulations as int)
                != size(v - 1)) implies ({
            let next = v + rounds(size(v) as int);
            &&& next < last ==> size(next) == half(size(v) as int)
            &&& next == last ==> 0 < size(next) <= half(size(v) as int)
        }) by {
            let next = v + rounds(size(v) as int);
            assert(stand(n, num_simulations, width, v as nat).1 == rounds(size(v) as int));
            assert(stand(n, num_simulations, width, v as nat).0 == size(v));
            assert(width * stand(n, num_simulations, width, v as nat).0 == width * size(v));
            lemma_stand_is_held(
                n,
                num_simulations,
                width,
                v as nat,
                rounds(size(v) as int) as nat,
            );
            assert((v as nat + rounds(size(v) as int) as nat) as nat == next as nat);
            if next < last {
                assert(occurrences(s, next, num_simulations as int) == stand(
                    n,
                    num_simulations,
                    width,
                    next as nat,
                ).0);
            }
        }
        if last > 0 {
            assert(occurrences(s, last - 1, num_simulations as int) == stand(
                n,
                num_simulations,
                width,
                (last - 1) as nat,
            ).0);
            lemma_stand_stays_above_one(n, num_simulations, width, (last - 1) as nat);
        }
    }
}

/// At least two actions are considered in every round.
proof fn lemma_stand_stays_above_one(n: nat, num_simulations: nat, width: nat, round: nat)
    requires
        n >= 2,
    ensures
        stand(n, num_simulations, width, round).0 >= 2,
    decreases round,
{
    if round > 0 {
        lemma_stand_stays_above_one(n, num_simulations, width, (round - 1) as nat);
    }
}

} // verus!
