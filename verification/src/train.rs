//! What a training step works on: the masks, targets and actions of every unroll step,
//! and when there is a step to take at all.
use vstd::prelude::*;
use crate::replay_buffer::{BufferData, copy_singles};
use crate::single::Single;

verus! {

/// Whether there is enough to train on: more positions than a batch takes.
pub fn ready_to_train(stored: usize, batch_size: usize) -> (ready: bool)
    ensures
        ready == (stored > batch_size),
{
    !(stored <= batch_size)
}

/// Whether the consistency loss has a part: it has a weight, and there is a step to
/// compare.
pub open spec fn uses_consistency_spec(consistency_coef: Single, unroll_steps: usize) -> bool {
    Single::zero_spec().lt_spec(consistency_coef) && unroll_steps > 1
}

/// Whether the consistency loss has a part.
pub fn uses_consistency(consistency_coef: Single, unroll_steps: usize) -> (uses: bool)
    ensures
        uses == uses_consistency_spec(consistency_coef, unroll_steps),
{
    Single::zero().less(consistency_coef) && unroll_steps > 1
}

/// What one unroll step works on, with one entry for each game of the batch.
#[derive(Debug)]
pub struct TrainStep {
    /// One for a position of a game, zero for what comes after its end.
    pub mask: Vec<Single>,
    pub target_value: Vec<Single>,
    pub target_policy: Vec<Vec<Single>>,
    /// The actions that lead to the step, from the second one on.
    pub actions: Vec<i32>,
    /// The rewards on the way to the step, and their mask, from the second one on.
    pub target_reward: Vec<Single>,
    pub reward_mask: Vec<Single>,
    /// The denominator of the weight of the step.
    pub scale_denominator: usize,
    /// The first row of the projected targets, where the consistency loss has a part.
    pub target_start: Option<usize>,
}

/// The mask of one position.
pub open spec fn mask_of(absorbing: bool) -> Single {
    if absorbing {
        Single::zero_spec()
    } else {
        Single::one_spec()
    }
}

/// Whether the sequences of a batch all have `unroll_steps` entries.
pub open spec fn rectangular(sequence: Seq<Vec<BufferData>>, unroll_steps: int) -> bool {
    forall|g: int| 0 <= g < sequence.len() ==> (#[trigger] sequence[g])@.len() == unroll_steps
}

/// Whether the actions of a batch fit 32 bits.
pub open spec fn actions_fit(sequence: Seq<Vec<BufferData>>) -> bool {
    forall|g: int, k: int|
        0 <= g < sequence.len() && 0 <= k < sequence[g]@.len() ==> (
        #[trigger] sequence[g]@[k]).action <= i32::MAX
}

fn mask(data: &BufferData) -> (m: Single)
    ensures
        m == mask_of(data.is_absorbing),
{
    if data.is_absorbing {
        Single::zero()
    } else {
        Single::one()
    }
}

/// The weight of an unroll step, as the denominator of a fraction with numerator one: the
/// first step counts in full, the others share one weight between them.
pub open spec fn scale_denominator_spec(step: int, unroll_steps: int) -> int {
    if step == 0 || unroll_steps <= 2 {
        1
    } else {
        unroll_steps - 1
    }
}

/// Whether `t` is what unroll step `step` works on.
pub open spec fn works_on(
    t: TrainStep,
    sequence: Seq<Vec<BufferData>>,
    step: int,
    unroll_steps: int,
    with_consistency: bool,
) -> bool {
    &&& t.mask@.len() == sequence.len()
    &&& t.target_value@.len() == sequence.len()
    &&& t.target_policy@.len() == sequence.len()
    &&& forall|g: int|
        0 <= g < sequence.len() ==> {
            let data = (#[trigger] sequence[g])@[step];
            &&& t.mask@[g] == mask_of(data.is_absorbing)
            &&& t.target_value@[g] == data.value
            &&& t.target_policy@[g]@ == data.policy@
        }
    &&& t.actions@.len() == (if step == 0 {
        0
    } else {
        sequence.len()
    })
    &&& t.target_reward@.len() == t.actions@.len()
    &&& t.reward_mask@.len() == t.actions@.len()
    &&& step > 0 ==> forall|g: int|
        0 <= g < sequence.len() ==> {
            let previous = (#[trigger] sequence[g])@[step - 1];
            &&& t.actions@[g] == previous.action
            &&& t.target_reward@[g] == previous.reward
            &&& t.reward_mask@[g] == mask_of(previous.is_absorbing)
        }
    &&& t.scale_denominator == scale_denominator_spec(step, unroll_steps)
    &&& t.target_start == (if with_consistency && step > 0 {
        Some(((step - 1) * sequence.len()) as usize)
    } else {
        None
    })
}

/// What unroll step `step` works on.
pub fn train_step(
    sequence: &Vec<Vec<BufferData>>,
    step: usize,
    unroll_steps: usize,
    with_consistency: bool,
) -> (t: TrainStep)
    requires
        step < unroll_steps,
        rectangular(sequence@, unroll_steps as int),
        actions_fit(sequence@),
        step * sequence@.len() <= usize::MAX,
    ensures
        works_on(t, sequence@, step as int, unroll_steps as int, with_consistency),
{
    let mut masks: Vec<Single> = Vec::new();
    let mut target_value: Vec<Single> = Vec::new();
    let mut target_policy: Vec<Vec<Single>> = Vec::new();
    let mut actions: Vec<i32> = Vec::new();
    let mut target_reward: Vec<Single> = Vec::new();
    let mut reward_mask: Vec<Single> = Vec::new();
    let mut g: usize = 0;
    while g < sequence.len()
        invariant
            g <= sequence@.len(),
            step < unroll_steps,
            rectangular(sequence@, unroll_steps as int),
            actions_fit(sequence@),
            masks@.len() == g,
            target_value@.len() == g,
            target_policy@.len() == g,
            actions@.len() == (if step == 0 {
                0
            } else {
                g as nat
            }),
            target_reward@.len() == actions@.len(),
            reward_mask@.len() == actions@.len(),
            forall|h: int|
                0 <= h < g ==> {
                    let data = (#[trigger] sequence@[h])@[step as int];
                    &&& masks@[h] == mask_of(data.is_absorbing)
                    &&& target_value@[h] == data.value
                    &&& target_policy@[h]@ == data.policy@
                },
            step > 0 ==> forall|h: int|
                0 <= h < g ==> {
                    let previous = (#[trigger] sequence@[h])@[step - 1];
                    &&& actions@[h] == previous.action
                    &&& target_reward@[h] == previous.reward
                    &&& reward_mask@[h] == mask_of(previous.is_absorbing)
                },
        decreases sequence@.len() - g,
    {
        let game: &Vec<BufferData> = &sequence[g];
        assert(sequence@[g as int]@.len() == unroll_steps);
        masks.push(mask(&game[step]));
        target_value.push(game[step].value);
        target_policy.push(copy_singles(&game[step].policy));
        if step > 0 {
            let previous: &BufferData = &game[step - 1];
            assert(sequence@[g as int]@[step - 1].action <= i32::MAX);
            actions.push(previous.action as i32);
            target_reward.push(previous.reward);
            reward_mask.push(mask(previous));
        }
        g = g + 1;
    }
    let scale_denominator: usize = if step == 0 || unroll_steps <= 2 {
        1
    } else {
        unroll_steps - 1
    };
    let target_start: Option<usize> = if with_consistency && step > 0 {
        proof {
            assert((step - 1) * sequence@.len() <= step * sequence@.len()) by (nonlinear_arith)
                requires
                    sequence@.len() >= 0,
                    step > 0,
            ;
            assert((step - 1) * sequence@.len() >= 0) by (nonlinear_arith)
                requires
                    sequence@.len() >= 0,
                    step > 0,
            ;
        }
        Some((step - 1) * sequence.len())
    } else {
        None
    };
    TrainStep {
        mask: masks,
        target_value,
        target_policy,
        actions,
        target_reward,
        reward_mask,
        scale_denominator,
        target_start,
    }
}

/// All that one training step works on.
#[derive(Debug)]
pub struct TrainBatch {
    /// The states that the unrolls start from.
    pub observations: Vec<Vec<Single>>,
    /// The states of all later steps, one step after the other: what the projections of the
    /// consistency loss are compared with. There are none where that loss has no part.
    pub targets: Vec<Vec<Single>>,
    pub steps: Vec<TrainStep>,
}

/// The states of unroll step `step`, one for each game, behind those that are there already.
fn push_states(states: &mut Vec<Vec<Single>>, sequence: &Vec<Vec<BufferData>>, step: usize)
    requires
        forall|g: int| 0 <= g < sequence@.len() ==> step < (#[trigger] sequence@[g])@.len(),
    ensures
        final(states)@.len() == old(states)@.len() + sequence@.len(),
        forall|r: int| 0 <= r < old(states)@.len() ==> final(states)@[r] == old(states)@[r],
        forall|g: int|
            0 <= g < sequence@.len() ==> final(states)@[old(states)@.len() + g]@ == (
            #[trigger] sequence@[g])@[step as int].state@,
{
    let mut g: usize = 0;
    while g < sequence.len()
        invariant
            g <= sequence@.len(),
            forall|h: int| 0 <= h < sequence@.len() ==> step < (#[trigger] sequence@[h])@.len(),
            states@.len() == old(states)@.len() + g,
            forall|r: int| 0 <= r < old(states)@.len() ==> states@[r] == old(states)@[r],
            forall|h: int|
                0 <= h < g ==> states@[old(states)@.len() + h]@ == (
                #[trigger] sequence@[h])@[step as int].state@,
        decreases sequence@.len() - g,
    {
        let game: &Vec<BufferData> = &sequence[g];
        assert(step < sequence@[g as int]@.len());
        states.push(copy_singles(&game[step].state));
        g = g + 1;
    }
}

/// Whether row `(step - 1) * batch + g` of the targets is the state of game `g` at `step`,
/// for all steps before `end`.
pub open spec fn targets_in_rows(
    targets: Seq<Vec<Single>>,
    sequence: Seq<Vec<BufferData>>,
    end: int,
) -> bool {
    &&& targets.len() == (end - 1) * sequence.len()
    &&& forall|step: int, g: int|
        0 < step < end && 0 <= g < sequence.len() ==> target_in_row(targets, sequence, step, g)
}

/// Whether the row of game `g` at `step` holds its state.
pub open spec fn target_in_row(
    targets: Seq<Vec<Single>>,
    sequence: Seq<Vec<BufferData>>,
    step: int,
    g: int,
) -> bool {
    targets[(step - 1) * sequence.len() + g]@ == sequence[g]@[step].state@
}

/// One step more fills the next rows.
proof fn lemma_targets_grow(
    before: Seq<Vec<Single>>,
    after: Seq<Vec<Single>>,
    sequence: Seq<Vec<BufferData>>,
    end: int,
)
    requires
        1 <= end,
        targets_in_rows(before, sequence, end),
        after.len() == before.len() + sequence.len(),
        forall|r: int| 0 <= r < before.len() ==> after[r] == before[r],
        forall|g: int|
            0 <= g < sequence.len() ==> after[before.len() + g]@ == (
            #[trigger] sequence[g])@[end].state@,
    ensures
        targets_in_rows(after, sequence, end + 1),
{
    let n = sequence.len() as int;
    assert(end * n == (end - 1) * n + n) by (nonlinear_arith);
    assert forall|step: int, g: int| 0 < step < end + 1 && 0 <= g < n implies target_in_row(
        after,
        sequence,
        step,
        g,
    ) by {
        if step < end {
            assert(target_in_row(before, sequence, step, g));
            assert((step - 1) * n + g < (end - 1) * n) by (nonlinear_arith)
                requires
                    0 < step < end,
                    0 <= g < n,
            ;
            assert(0 <= (step - 1) * n) by (nonlinear_arith)
                requires
                    0 < step,
                    0 <= n,
            ;
        } else {
            assert(after[before.len() + g]@ == sequence[g]@[end].state@);
        }
    }
}

/// What a training step works on, from unrolled games; none where there is too little to
/// train on.
pub fn train_batch(
    stored: usize,
    batch_size: usize,
    sequence: &Vec<Vec<BufferData>>,
    unroll_steps: usize,
    consistency_coef: Single,
) -> (batch: Option<TrainBatch>)
    requires
        unroll_steps > 0,
        rectangular(sequence@, unroll_steps as int),
        actions_fit(sequence@),
        unroll_steps * sequence@.len() <= usize::MAX,
    ensures
        batch is None <==> stored <= batch_size,
        batch matches Some(b) ==> {
            let with_consistency = uses_consistency_spec(consistency_coef, unroll_steps);
            &&& b.observations@.len() == sequence@.len()
            &&& forall|g: int|
                0 <= g < sequence@.len() ==> b.observations@[g]@ == (
                #[trigger] sequence@[g])@[0].state@
            &&& b.steps@.len() == unroll_steps
            &&& forall|step: int|
                0 <= step < unroll_steps ==> works_on(
                    #[trigger] b.steps@[step],
                    sequence@,
                    step,
                    unroll_steps as int,
                    with_consistency,
                )
            &&& with_consistency ==> targets_in_rows(
                b.targets@,
                sequence@,
                unroll_steps as int,
            )
            &&& !with_consistency ==> b.targets@.len() == 0
        },
{
    if !ready_to_train(stored, batch_size) {
        return None;
    }
    let with_consistency: bool = uses_consistency(consistency_coef, unroll_steps);
    let mut observations: Vec<Vec<Single>> = Vec::new();
    push_states(&mut observations, sequence, 0);
    assert(forall|g: int|
        0 <= g < sequence@.len() ==> observations@[0 + g]@ == (
        #[trigger] sequence@[g])@[0].state@);
    let mut targets: Vec<Vec<Single>> = Vec::new();
    let mut steps: Vec<TrainStep> = Vec::new();
    let mut step: usize = 0;
    while step < unroll_steps
        invariant
            step <= unroll_steps,
            rectangular(sequence@, unroll_steps as int),
            actions_fit(sequence@),
            unroll_steps * sequence@.len() <= usize::MAX,
            steps@.len() == step,
            forall|k: int|
                0 <= k < step ==> works_on(
                    #[trigger] steps@[k],
                    sequence@,
                    k,
                    unroll_steps as int,
                    with_consistency,
                ),
            with_consistency && step > 0 ==> targets_in_rows(targets@, sequence@, step as int),
            !with_consistency || step == 0 ==> targets@.len() == 0,
        decreases unroll_steps - step,
    {
        proof {
            assert(step * sequence@.len() <= unroll_steps * sequence@.len()) by (nonlinear_arith)
                requires
                    step <= unroll_steps,
                    sequence@.len() >= 0,
            ;
        }
        if with_consistency && step > 0 {
            let ghost before = targets@;
            push_states(&mut targets, sequence, step);
            proof {
                lemma_targets_grow(before, targets@, sequence@, step as int);
            }
        }
        steps.push(train_step(sequence, step, unroll_steps, with_consistency));
        step = step + 1;
    }
    Some(TrainBatch { observations, targets, steps })
}

/// The weights of all unroll steps after the first add up to one, if there are any:
/// their number times the weight of each.
pub proof fn later_steps_share_one_weight(unroll_steps: int, step: int)
    requires
        2 <= unroll_steps,
        0 < step < unroll_steps,
    ensures
        scale_denominator_spec(step, unroll_steps) == unroll_steps - 1,
        scale_denominator_spec(0, unroll_steps) == 1,
{
}

/// Whether stored targets are to be refreshed, when `draw` was drawn from the unit
/// interval.
pub fn reanalyze_due(draw: Single, reanalyze_fraction: Single) -> (due: bool)
    ensures
        due == draw.lt_spec(reanalyze_fraction),
{
    draw.less(reanalyze_fraction)
}

/// Where the walk over a temperature schedule stands: on to the next stretch once the
/// step is past the end of the current one.
pub fn advance_schedule(current: usize, end: Option<usize>, training_step: usize) -> (next: usize)
    requires
        current < usize::MAX,
    ensures
        next == (if end is Some && training_step > end->0 {
            current + 1
        } else {
            current as int
        }),
{
    match end {
        Some(n) => {
            if training_step > n {
                current + 1
            } else {
                current
            }
        },
        None => current,
    }
}

/// What an unroll step trains on, game by game: the value and the policy of its own position, and the
/// action and the reward of the one before, which led to it. A position after the end of a game has
/// the weight zero and any other the weight one; so has the reward on the way to a step, by the
/// position that it was gained in.
pub proof fn steps_train_on_their_own_positions(
    t: TrainStep,
    sequence: Seq<Vec<BufferData>>,
    step: int,
    unroll_steps: int,
    with_consistency: bool,
    g: int,
)
    requires
        works_on(t, sequence, step, unroll_steps, with_consistency),
        0 <= g < sequence.len(),
        0 <= step < unroll_steps,
    ensures
        t.target_value@[g] == sequence[g]@[step].value,
        t.target_policy@[g]@ == sequence[g]@[step].policy@,
        sequence[g]@[step].is_absorbing ==> t.mask@[g] == Single::zero_spec(),
        !sequence[g]@[step].is_absorbing ==> t.mask@[g] == Single::one_spec(),
        t.mask@.len() == sequence.len(),
        t.target_value@.len() == sequence.len(),
        t.target_policy@.len() == sequence.len(),
        step == 0 ==> t.actions@.len() == 0 && t.target_reward@.len() == 0 && t.reward_mask@.len()
            == 0 && t.target_start is None,
        step > 0 ==> {
            let before = sequence[g]@[step - 1];
            &&& t.actions@[g] == before.action
            &&& t.target_reward@[g] == before.reward
            &&& before.is_absorbing ==> t.reward_mask@[g] == Single::zero_spec()
            &&& !before.is_absorbing ==> t.reward_mask@[g] == Single::one_spec()
            &&& t.actions@.len() == sequence.len()
            &&& t.target_reward@.len() == sequence.len()
            &&& t.reward_mask@.len() == sequence.len()
            &&& with_consistency == t.target_start is Some
        },
        step == 0 ==> t.scale_denominator == 1,
        0 < step && 2 < unroll_steps ==> t.scale_denominator == unroll_steps - 1,
        unroll_steps <= 2 ==> t.scale_denominator == 1,
{
    assert(sequence[g]@[step] == sequence[g]@[step]);
}

/// The rows that a step compares its projections with hold the states of that step, one for each game
/// of the batch.
pub proof fn projections_are_compared_with_their_states(
    t: TrainStep,
    targets: Seq<Vec<Single>>,
    sequence: Seq<Vec<BufferData>>,
    step: int,
    unroll_steps: int,
    g: int,
)
    requires
        works_on(t, sequence, step, unroll_steps, true),
        targets_in_rows(targets, sequence, unroll_steps),
        0 < step < unroll_steps,
        0 <= g < sequence.len(),
        unroll_steps * sequence.len() <= usize::MAX,
    ensures
        t.target_start is Some,
        t.target_start->0 + sequence.len() <= targets.len(),
        targets[t.target_start->0 + g]@ == sequence[g]@[step].state@,
{
    let n = sequence.len() as int;
    assert(target_in_row(targets, sequence, step, g));
    assert(0 <= (step - 1) * n && (step - 1) * n + n <= (unroll_steps - 1) * n
        && (unroll_steps - 1) * n <= unroll_steps * n) by (nonlinear_arith)
        requires
            0 < step < unroll_steps,
            0 <= n,
    ;
}

/// The consistency loss has a part where its weight is above zero and there is a second step.
pub proof fn consistency_needs_a_weight_and_two_steps(coef: Single, unroll_steps: usize)
    ensures
        uses_consistency_spec(coef, unroll_steps) <==> !coef.nan() && coef.rank() > 0
            && unroll_steps >= 2,
{
}

} // verus!
