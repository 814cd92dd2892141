//! Schedules over the training steps, and the bounds by which values are rescaled.
use vstd::prelude::*;
use crate::single::Single;

verus! {

/// One stretch of a temperature schedule: `tau` holds up to and with `step`, or for
/// good where there is no step.
#[derive(Clone, Copy, Debug, PartialEq, Eq, Structural)]
pub struct TemperatureSchedule {
    pub step: Option<usize>,
    pub tau: Single,
}

/// Whether a stretch of the schedule holds at `step`.
pub open spec fn covers(entry: TemperatureSchedule, step: usize) -> bool {
    entry.step is None || step <= entry.step->0
}

/// The temperature at `step`: that of the first stretch that holds, the last one where
/// none does, and one without a schedule.
pub open spec fn tau_spec(schedule: Seq<TemperatureSchedule>, step: usize) -> Single
    decreases schedule.len(),
{
    if schedule.len() == 0 {
        Single::one_spec()
    } else if covers(schedule[0], step) || schedule.len() == 1 {
        schedule[0].tau
    } else {
        tau_spec(schedule.skip(1), step)
    }
}

/// The temperature at `step`.
pub fn tau_for_step(schedule: &Vec<TemperatureSchedule>, step: usize) -> (tau: Single)
    ensures
        tau == tau_spec(schedule@, step),
{
    if schedule.len() == 0 {
        return Single::one();
    }
    let mut i: usize = 0;
    assert(schedule@.skip(0) =~= schedule@);
    while i < schedule.len() - 1
        invariant
            i < schedule@.len(),
            tau_spec(schedule@, step) == tau_spec(schedule@.skip(i as int), step),
        decreases schedule@.len() - i,
    {
        let holds: bool = match schedule[i].step {
            Some(threshold) => step <= threshold,
            None => true,
        };
        if holds {
            return schedule[i].tau;
        }
        assert(schedule@.skip(i as int).skip(1) =~= schedule@.skip(i + 1));
        i = i + 1;
    }
    schedule[i].tau
}

/// A later step never goes back to an earlier stretch: where the first stretch has run
/// out, it has run out at every later step.
pub proof fn schedule_only_moves_on(
    schedule: Seq<TemperatureSchedule>,
    earlier: usize,
    later: usize,
)
    requires
        earlier <= later,
    ensures
        exists|i: int, j: int|
            {
                &&& 0 <= i <= j <= schedule.len()
                &&& #[trigger] in_force(schedule, earlier, i)
                &&& #[trigger] in_force(schedule, later, j)
            },
    decreases schedule.len(),
{
    if schedule.len() == 0 {
        assert(in_force(schedule, earlier, 0));
        assert(in_force(schedule, later, 0));
    } else if covers(schedule[0], earlier) || schedule.len() == 1 {
        assert(in_force(schedule, earlier, 0));
        let j = lemma_some_in_force(schedule, later);
        assert(in_force(schedule, later, j));
    } else {
        let rest = schedule.skip(1);
        schedule_only_moves_on(rest, earlier, later);
        let (i, j) = choose|i: int, j: int|
            {
                &&& 0 <= i <= j <= rest.len()
                &&& #[trigger] in_force(rest, earlier, i)
                &&& #[trigger] in_force(rest, later, j)
            };
        lemma_in_force_shifts(schedule, earlier, i);
        lemma_in_force_shifts(schedule, later, j);
        assert(in_force(schedule, earlier, i + 1));
        assert(in_force(schedule, later, j + 1));
    }
}

/// Whether stretch `i` gives the temperature at `step`; 0 stands for the default where
/// there is no schedule.
pub open spec fn in_force(schedule: Seq<TemperatureSchedule>, step: usize, i: int) -> bool {
    if schedule.len() == 0 {
        i == 0 && tau_spec(schedule, step) == Single::one_spec()
    } else {
        &&& 0 <= i < schedule.len()
        &&& tau_spec(schedule, step) == schedule[i].tau
        &&& covers(schedule[i], step) || i == schedule.len() - 1
        &&& forall|k: int| 0 <= k < i ==> !covers(#[trigger] schedule[k], step)
    }
}

proof fn lemma_in_force_shifts(schedule: Seq<TemperatureSchedule>, step: usize, i: int)
    requires
        schedule.len() > 1,
        !covers(schedule[0], step),
        in_force(schedule.skip(1), step, i),
    ensures
        in_force(schedule, step, i + 1),
{
    let rest = schedule.skip(1);
    assert(schedule[i + 1] == rest[i]);
    assert forall|k: int| 0 <= k < i + 1 implies !covers(#[trigger] schedule[k], step) by {
        if k > 0 {
            assert(schedule[k] == rest[k - 1]);
        }
    }
}

proof fn lemma_some_in_force(schedule: Seq<TemperatureSchedule>, step: usize) -> (i: int)
    requires
        schedule.len() > 0,
    ensures
        in_force(schedule, step, i),
    decreases schedule.len(),
{
    if covers(schedule[0], step) || schedule.len() == 1 {
        0
    } else {
        let i = lemma_some_in_force(schedule.skip(1), step);
        lemma_in_force_shifts(schedule, step, i);
        i + 1
    }
}

/// By what the base learning rate is multiplied at a step.
#[derive(Clone, Copy, Debug, PartialEq, Eq)]
pub struct LrPlan {
    /// The fraction of a linear warmup, while it lasts.
    pub warmup: Option<(usize, usize)>,
    /// The exponent of the decay rate as a fraction, unless decay is off.
    pub decay: Option<(usize, usize)>,
}

/// The plan of the learning rate at `step`: a linear warmup over `warmup_steps`, and
/// exponential decay over `decay_steps` unless that is zero.
pub fn lr_for_step(warmup_steps: usize, decay_steps: usize, step: usize) -> (plan: LrPlan)
    ensures
        plan.warmup == (if step < warmup_steps {
            Some(((step + 1) as usize, warmup_steps))
        } else {
            None
        }),
        plan.decay == (if decay_steps == 0 {
            None
        } else {
            Some((step, decay_steps))
        }),
{
    let warmup: Option<(usize, usize)> = if warmup_steps == 0 || step >= warmup_steps {
        None
    } else {
        Some((step + 1, warmup_steps))
    };
    let decay: Option<(usize, usize)> = if decay_steps == 0 {
        None
    } else {
        Some((step, decay_steps))
    };
    LrPlan { warmup, decay }
}

/// The smallest and the largest value seen so far.
#[derive(Clone, Copy, Debug, PartialEq, Eq, Structural)]
pub struct QNormalization {
    pub q_max: Single,
    pub q_min: Single,
}

impl QNormalization {
    /// Bounds that are known beforehand.
    pub fn from_known_bounds(lower: Single, upper: Single) -> (norm: QNormalization)
        ensures
            norm.q_max == upper,
            norm.q_min == lower,
    {
        QNormalization { q_max: upper, q_min: lower }
    }

    /// Widens the bounds to hold `value`.
    pub fn update(&mut self, value: Single)
        ensures
            final(self).q_max == old(self).q_max.max_spec(value),
            final(self).q_min == old(self).q_min.min_spec(value),
    {
        self.q_max = self.q_max.larger(value);
        self.q_min = self.q_min.smaller(value);
    }

    /// Whether the bounds are apart, so that values are rescaled between them.
    pub open spec fn apart(self) -> bool {
        self.q_min.lt_spec(self.q_max)
    }

    /// The value to use for `value`: `rescaled`, its place between the bounds, where the
    /// bounds are apart, and the value itself otherwise.
    pub fn normalize(&self, value: Single, rescaled: Single) -> (q: Single)
        ensures
            q == (if self.apart() {
                rescaled
            } else {
                value
            }),
    {
        if self.q_min.less(self.q_max) {
            rescaled
        } else {
            value
        }
    }
}

impl Default for QNormalization {
    fn default() -> (norm: QNormalization)
        ensures
            norm.q_max == Single::neg_infinity_spec(),
            norm.q_min == Single::infinity_spec(),
    {
        QNormalization { q_max: Single::neg_infinity(), q_min: Single::infinity() }
    }
}

/// The bounds once `values` were taken in, in order.
pub open spec fn bounds_after(norm: QNormalization, values: Seq<Single>) -> QNormalization
    decreases values.len(),
{
    if values.len() == 0 {
        norm
    } else {
        let before = bounds_after(norm, values.drop_last());
        QNormalization {
            q_max: before.q_max.max_spec(values.last()),
            q_min: before.q_min.min_spec(values.last()),
        }
    }
}

/// The bounds hold every number that they were updated with.
pub proof fn bounds_hold_every_value(norm: QNormalization, values: Seq<Single>, i: int)
    requires
        0 <= i < values.len(),
        !values[i].nan(),
        !norm.q_max.nan(),
        !norm.q_min.nan(),
    ensures
        !bounds_after(norm, values).q_max.lt_spec(values[i]),
        !values[i].lt_spec(bounds_after(norm, values).q_min),
{
    lemma_bounds_hold(norm, values, i);
}

proof fn lemma_bounds_hold(norm: QNormalization, values: Seq<Single>, i: int)
    requires
        values.len() > 0 ==> 0 <= i < values.len(),
        !norm.q_max.nan(),
        !norm.q_min.nan(),
    ensures
        !bounds_after(norm, values).q_max.nan(),
        !bounds_after(norm, values).q_min.nan(),
        values.len() > 0 ==> !bounds_after(norm, values).q_max.lt_spec(values[i])
            && !values[i].lt_spec(bounds_after(norm, values).q_min),
    decreases values.len(),
{
    if values.len() > 0 {
        let rest = values.drop_last();
        if i < rest.len() {
            lemma_bounds_hold(norm, rest, i);
        } else {
            lemma_bounds_hold(norm, rest, 0);
        }
    }
}

/// The temperature at a step is that of stretch `i` of a schedule where `i` is the first one whose
/// end is not behind the step, or that has no end. Past all ends it is that of the last stretch, and
/// without a schedule it is one.
pub proof fn temperatures_hold_to_the_end_of_their_stretch(
    schedule: Seq<TemperatureSchedule>,
    step: usize,
    i: int,
)
    requires
        0 <= i < schedule.len(),
        forall|k: int|
            0 <= k < i ==> (#[trigger] schedule[k]).step is Some && schedule[k].step->0 < step,
        schedule[i].step is None || step <= schedule[i].step->0 || i == schedule.len() - 1,
    ensures
        tau_spec(schedule, step) == schedule[i].tau,
        tau_spec(Seq::empty(), step) == Single::one_spec(),
    decreases i,
{
    if i > 0 {
        let rest = schedule.skip(1);
        assert(!covers(schedule[0], step));
        assert forall|k: int| 0 <= k < i - 1 implies (#[trigger] rest[k]).step is Some
            && rest[k].step->0 < step by {
            assert(rest[k] == schedule[k + 1]);
        }
        temperatures_hold_to_the_end_of_their_stretch(rest, step, i - 1);
    }
}

/// The bounds are the largest and the smallest of what they started with and of the numbers that
/// they were updated with: each of them is one of those.
pub proof fn bounds_are_values(norm: QNormalization, values: Seq<Single>)
    requires
        !norm.q_max.nan(),
        !norm.q_min.nan(),
    ensures
        ({
            let after = bounds_after(norm, values);
            &&& after.q_max == norm.q_max || values.contains(after.q_max)
            &&& after.q_min == norm.q_min || values.contains(after.q_min)
            &&& !after.q_max.lt_spec(norm.q_max)
            &&& !norm.q_min.lt_spec(after.q_min)
        }),
    decreases values.len(),
{
    if values.len() > 0 {
        let rest = values.drop_last();
        bounds_are_values(norm, rest);
        lemma_bounds_hold(norm, rest, 0);
        let before = bounds_after(norm, rest);
        assert(values[values.len() - 1] == values.last());
        if rest.contains(before.q_max) {
            let k = choose|k: int| 0 <= k < rest.len() && rest[k] == before.q_max;
            assert(values[k] == before.q_max);
        }
        if rest.contains(before.q_min) {
            let k = choose|k: int| 0 <= k < rest.len() && rest[k] == before.q_min;
            assert(values[k] == before.q_min);
        }
    }
}

/// Values are rescaled once two different ones were seen, and kept as they are before that.
pub proof fn different_values_are_rescaled(norm: QNormalization, a: Single, b: Single)
    requires
        !norm.q_max.nan(),
        !norm.q_min.nan(),
        a.lt_spec(b),
    ensures
        bounds_after(norm, seq![a, b]).apart(),
        bounds_after(norm, seq![b, a]).apart(),
        norm.q_max == norm.q_min ==> !norm.apart(),
        norm == (QNormalization {
            q_max: Single::neg_infinity_spec(),
            q_min: Single::infinity_spec(),
        }) ==> !norm.apart() && !bounds_after(norm, seq![a]).apart(),
{
    reveal_with_fuel(bounds_after, 3);
    assert(seq![a, b].drop_last() =~= seq![a]);
    assert(seq![b, a].drop_last() =~= seq![b]);
    assert(seq![a].drop_last() =~= Seq::<Single>::empty());
    assert(seq![b].drop_last() =~= Seq::<Single>::empty());
}

} // verus!
