//! A small seeded generator, and draws from the `fastrand` crate's generator.
use vstd::prelude::*;

verus! {

/// The increment of the generator's state.
pub const GOLDEN_GAMMA: u64 = 0x9E37_79B9_7F4A_7C15;

/// The splitmix64 generator: all of its state is one counter.
#[derive(Clone, Copy, Debug, PartialEq, Eq, Structural)]
pub struct Rng {
    pub state: u64,
}

/// The state after one draw.
pub open spec fn advanced(state: u64) -> u64 {
    state.wrapping_add(GOLDEN_GAMMA)
}

/// The number that a state stands for, once its bits are mixed.
pub open spec fn mixed(state: u64) -> u64 {
    let a = (state ^ (state >> 30)).wrapping_mul(0xBF58_476D_1CE4_E5B9);
    let b = (a ^ (a >> 27)).wrapping_mul(0x94D0_49BB_1331_11EB);
    b ^ (b >> 31)
}

/// A product with an odd number can be undone: its inverse gives the other factor back.
proof fn lemma_product_undone(x: u64, y: u64, c: u64, inverse: u64, q: int)
    requires
        c * inverse == 1 + 0x1_0000_0000_0000_0000 * q,
        x.wrapping_mul(c) == y.wrapping_mul(c),
    ensures
        x == y,
{
    lemma_product_undoes(x, c, inverse, q);
    lemma_product_undoes(y, c, inverse, q);
}

proof fn lemma_product_undoes(x: u64, c: u64, inverse: u64, q: int)
    requires
        c * inverse == 1 + 0x1_0000_0000_0000_0000 * q,
    ensures
        (x.wrapping_mul(c) * inverse) % 0x1_0000_0000_0000_0000 == x,
{
    let m: int = 0x1_0000_0000_0000_0000;
    assert(x.wrapping_mul(c) == (x * c) % m);
    vstd::arithmetic::div_mod::lemma_mul_mod_noop_left(x * c, inverse as int, m);
    assert((x * c) * inverse == m * (q * x) + x) by (nonlinear_arith)
        requires
            c * inverse == 1 + m * q,
    ;
    vstd::arithmetic::div_mod::lemma_mod_multiples_vanish(q * x, x as int, m);
}

/// The mixing of bits is one to one: different states stand for different numbers.
pub proof fn mixing_is_one_to_one(x: u64, y: u64)
    requires
        mixed(x) == mixed(y),
    ensures
        x == y,
{
    let s = x ^ (x >> 30);
    let t = y ^ (y >> 30);
    let a = s.wrapping_mul(0xBF58_476D_1CE4_E5B9);
    let b = t.wrapping_mul(0xBF58_476D_1CE4_E5B9);
    let c = a ^ (a >> 27);
    let d = b ^ (b >> 27);
    let e = c.wrapping_mul(0x94D0_49BB_1331_11EB);
    let f = d.wrapping_mul(0x94D0_49BB_1331_11EB);
    assert(e ^ (e >> 31) == f ^ (f >> 31) ==> e == f) by (bit_vector);
    lemma_product_undone(
        c,
        d,
        0x94D0_49BB_1331_11EB,
        0x3196_42B2_D24D_8EC3,
        2077064247507883091,
    );
    assert(a ^ (a >> 27) == b ^ (b >> 27) ==> a == b) by (bit_vector);
    lemma_product_undone(
        s,
        t,
        0xBF58_476D_1CE4_E5B9,
        0x96DE_1B17_3F11_9089,
        8125545580553827436,
    );
    assert(x ^ (x >> 30) == y ^ (y >> 30) ==> x == y) by (bit_vector);
}

/// The state after `n` draws.
pub open spec fn state_after(state: u64, n: nat) -> u64
    decreases n,
{
    if n == 0 {
        state
    } else {
        advanced(state_after(state, (n - 1) as nat))
    }
}

/// `s` with the entries `i` and `j` exchanged.
pub open spec fn swapped<T>(s: Seq<T>, i: int, j: int) -> Seq<T> {
    s.update(i, s[j]).update(j, s[i])
}

/// The shuffle of the first `n` entries, from the last of them down: each is exchanged
/// with one at or before it.
pub open spec fn fisher_yates<T>(s: Seq<T>, n: nat, state: u64) -> Seq<T>
    decreases n,
{
    if n <= 1 {
        s
    } else {
        let drawn = mixed(advanced(state)) as int % n as int;
        fisher_yates(swapped(s, n - 1, drawn), (n - 1) as nat, advanced(state))
    }
}

/// Exchanges two entries of a slice, by the standard library's `slice::swap`, which
/// panics where one of them is out of bounds and touches no other entry.
#[verifier::external_body]
fn swap_entries<T>(slice: &mut [T], a: usize, b: usize)
    requires
        a < old(slice)@.len(),
        b < old(slice)@.len(),
    ensures
        final(slice)@ == swapped(old(slice)@, a as int, b as int),
{
    slice.swap(a, b)
}

impl Rng {
    pub fn new(seed: u64) -> (rng: Rng)
        ensures
            rng.state == seed,
    {
        Rng { state: seed }
    }

    /// The next 64 random bits.
    pub fn next_u64(&mut self) -> (x: u64)
        ensures
            final(self).state == advanced(old(self).state),
            x == mixed(final(self).state),
    {
        self.state = self.state.wrapping_add(0x9E37_79B9_7F4A_7C15);
        let mut z: u64 = self.state;
        z = (z ^ (z >> 30)).wrapping_mul(0xBF58_476D_1CE4_E5B9);
        z = (z ^ (z >> 27)).wrapping_mul(0x94D0_49BB_1331_11EB);
        z ^ (z >> 31)
    }

    /// The next 24 random bits: the upper ones of a draw.
    pub fn next_u24(&mut self) -> (x: u32)
        ensures
            final(self).state == advanced(old(self).state),
            x == mixed(final(self).state) >> 40,
            x < 0x100_0000,
    {
        let z: u64 = self.next_u64();
        assert(z >> 40 < 0x100_0000) by (bit_vector);
        (z >> 40) as u32
    }

    /// A number below `bound`.
    pub fn below(&mut self, bound: usize) -> (k: usize)
        requires
            bound > 0,
        ensures
            k < bound,
            k as int == mixed(advanced(old(self).state)) as int % bound as int,
            final(self).state == advanced(old(self).state),
    {
        let z: u64 = self.next_u64();
        (z % bound as u64) as usize
    }

    /// Shuffles a slice, with one draw for each entry but the first.
    pub fn shuffle<T>(&mut self, slice: &mut [T])
        ensures
            final(slice)@ == fisher_yates(
                old(slice)@,
                old(slice)@.len(),
                old(self).state,
            ),
            final(slice)@.len() == old(slice)@.len(),
            final(slice)@.to_multiset() == old(slice)@.to_multiset(),
            final(self).state == state_after(
                old(self).state,
                (if old(slice)@.len() == 0 {
                    0
                } else {
                    old(slice)@.len() - 1
                }) as nat,
            ),
    {
        let mut n: usize = slice.len();
        let ghost drawn: nat = 0;
        while n > 1
            invariant
                n <= old(slice)@.len(),
                slice@.len() == old(slice)@.len(),
                old(slice)@.len() == 0 ==> n == 0 && drawn == 0,
                old(slice)@.len() > 0 ==> n >= 1 && drawn == old(slice)@.len() - n,
                self.state == state_after(old(self).state, drawn),
                fisher_yates(slice@, n as nat, self.state) == fisher_yates(
                    old(slice)@,
                    old(slice)@.len(),
                    old(self).state,
                ),
                slice@.to_multiset() == old(slice)@.to_multiset(),
            decreases n,
        {
            let ghost before = slice@;
            let j: usize = self.below(n);
            swap_entries(slice, n - 1, j);
            proof {
                lemma_swap_keeps_multiset(before, n - 1, j as int);
                drawn = drawn + 1;
            }
            n = n - 1;
        }
    }
}

/// Exchanging two entries loses none and adds none.
pub proof fn lemma_swap_keeps_multiset<T>(s: Seq<T>, i: int, j: int)
    requires
        0 <= i < s.len(),
        0 <= j < s.len(),
    ensures
        swapped(s, i, j).to_multiset() == s.to_multiset(),
{
    broadcast use vstd::seq_lib::group_to_multiset_ensures;

    let t = s.update(i, s[j]);
    assert(t.to_multiset() =~= s.to_multiset().remove(s[i]).insert(s[j]));
    assert(swapped(s, i, j).to_multiset() =~= t.to_multiset().remove(t[j]).insert(s[i]));
    if i == j {
        assert(swapped(s, i, j) =~= s);
    } else {
        assert(t[j] == s[j]);
        assert(swapped(s, i, j).to_multiset() =~= s.to_multiset());
    }
}

/// The generator of the `fastrand` crate, by its state, which is one number.
#[derive(Clone, Copy, Debug, PartialEq, Eq, Structural)]
pub struct Dice {
    pub seed: u64,
}

/// What `fastrand::Rng::usize` draws below `bound` in a state, and the state after it.
///
/// The generator works on machine words, so their width counts too.
pub uninterp spec fn drawn_below(seed: u64, bound: usize, word_bits: u32) -> (usize, u64);

/// The order in which `fastrand::Rng::shuffle` leaves numbers in a state, and the state
/// after it.
///
/// The generator works on machine words, so their width counts too.
pub uninterp spec fn drawn_order(seed: u64, numbers: Seq<usize>, word_bits: u32) -> (
    Seq<usize>,
    u64,
);

impl Dice {
    /// The generator for a seed.
    pub fn with_seed(seed: u64) -> (dice: Dice)
        ensures
            dice.seed == seed,
    {
        Dice { seed }
    }

    /// A number below `bound`, by `fastrand::Rng::usize` on the generator whose state is
    /// `seed`; it panics on an empty range. The number is below the bound, and both it and
    /// the state after the draw depend on the state, the bound and the width of a word alone.
    #[verifier::external_body]
    pub(crate) fn below(&mut self, bound: usize) -> (k: usize)
        requires
            bound > 0,
        ensures
            k < bound,
            (k, final(self).seed) == drawn_below(old(self).seed, bound, usize::BITS),
    {
        let mut rng = fastrand::Rng::with_seed(self.seed);
        let k: usize = rng.usize(..bound);
        self.seed = rng.get_seed();
        k
    }

    /// Shuffles numbers, by `fastrand::Rng::shuffle` on the generator whose state is `seed`.
    /// The same numbers come back, each as often as before, and both their order and the
    /// state after the draws depend on the state, the numbers and the width of a word alone.
    #[verifier::external_body]
    pub(crate) fn shuffle(&mut self, numbers: &mut Vec<usize>)
        ensures
            (final(numbers)@, final(self).seed) == drawn_order(
                old(self).seed,
                old(numbers)@,
                usize::BITS,
            ),
            final(numbers)@.to_multiset() == old(numbers)@.to_multiset(),
            final(numbers)@.len() == old(numbers)@.len(),
    {
        let mut rng = fastrand::Rng::with_seed(self.seed);
        rng.shuffle(numbers);
        self.seed = rng.get_seed();
    }
}

/// The state is a counter: after `n` draws it has gone on by `n` times the increment, around
/// the range of a word.
pub proof fn states_are_counted(state: u64, n: nat)
    ensures
        state_after(state, n) as int == (state + n * 0x9E37_79B9_7F4A_7C15) % 0x1_0000_0000_0000_0000,
    decreases n,
{
    let m: int = 0x1_0000_0000_0000_0000;
    let g: int = 0x9E37_79B9_7F4A_7C15;
    if n == 0 {
        vstd::arithmetic::div_mod::lemma_small_mod(state as nat, m as nat);
        assert(n * g == 0) by (nonlinear_arith)
            requires
                n == 0,
        ;
    } else {
        states_are_counted(state, (n - 1) as nat);
        assert((n - 1) * g + g == n * g) by (nonlinear_arith);
        vstd::arithmetic::div_mod::lemma_add_mod_noop(state + (n - 1) * g, g, m);
        vstd::arithmetic::div_mod::lemma_small_mod(g as nat, m as nat);
        let before = state_after(state, (n - 1) as nat);
        assert(state_after(state, n) == (before + g) % m);
    }
}

/// A shuffle of the first entries leaves all behind them where they are.
proof fn lemma_rest_stays<T>(s: Seq<T>, n: nat, state: u64)
    requires
        n <= s.len(),
    ensures
        fisher_yates(s, n, state).len() == s.len(),
        forall|i: int| n <= i < s.len() ==> #[trigger] fisher_yates(s, n, state)[i] == s[i],
    decreases n,
{
    if n > 1 {
        let drawn = mixed(advanced(state)) as int % n as int;
        lemma_rest_stays(swapped(s, n - 1, drawn), (n - 1) as nat, advanced(state));
    }
}

/// What is last after a shuffle was drawn from all entries by the first draw; what stood last
/// takes the place that it left, and is shuffled with the rest.
pub proof fn last_place_is_drawn_first<T>(s: Seq<T>, state: u64)
    requires
        s.len() >= 2,
    ensures
        fisher_yates(s, s.len(), state).len() == s.len(),
        fisher_yates(s, s.len(), state).last() == s[mixed(state_after(state, 1)) as int
            % s.len() as int],
        fisher_yates(s, s.len(), state).drop_last() == fisher_yates(
            swapped(s, s.len() - 1, mixed(state_after(state, 1)) as int % s.len() as int).drop_last(),
            (s.len() - 1) as nat,
            state_after(state, 1),
        ),
{
    reveal_with_fuel(state_after, 2);
    let n = s.len();
    let drawn = mixed(advanced(state)) as int % n as int;
    let t = swapped(s, n - 1, drawn);
    lemma_rest_stays(t, (n - 1) as nat, advanced(state));
    lemma_shuffled_alone(t, (n - 1) as nat, advanced(state));
}

/// A shuffle of the first entries does not look at those behind them.
proof fn lemma_shuffled_alone<T>(s: Seq<T>, n: nat, state: u64)
    requires
        n == s.len() - 1,
    ensures
        fisher_yates(s, n, state).drop_last() == fisher_yates(s.drop_last(), n, state),
{
    lemma_shuffled_within(s, n, n, state);
}

proof fn lemma_shuffled_within<T>(s: Seq<T>, k: nat, n: nat, state: u64)
    requires
        n <= k,
        k == s.len() - 1,
    ensures
        fisher_yates(s, n, state).len() == s.len(),
        fisher_yates(s, n, state).drop_last() == fisher_yates(s.drop_last(), n, state),
    decreases n,
{
    if n > 1 {
        let drawn = mixed(advanced(state)) as int % n as int;
        assert(swapped(s, n - 1, drawn).drop_last() =~= swapped(s.drop_last(), n - 1, drawn));
        lemma_shuffled_within(swapped(s, n - 1, drawn), k, (n - 1) as nat, advanced(state));
    }
}

/// An exchange gives each of two entries the place of the other and leaves all others alone.
pub proof fn exchanges_are_of_two_entries<T>(s: Seq<T>, i: int, j: int, k: int)
    requires
        0 <= i < s.len(),
        0 <= j < s.len(),
        0 <= k < s.len(),
    ensures
        swapped(s, i, j).len() == s.len(),
        swapped(s, i, j)[i] == s[j],
        swapped(s, i, j)[j] == s[i],
        k != i && k != j ==> swapped(s, i, j)[k] == s[k],
{
}

/// A shuffle loses no entry and adds none.
pub proof fn shuffles_keep_all_entries<T>(s: Seq<T>, n: nat, state: u64)
    requires
        n <= s.len(),
    ensures
        fisher_yates(s, n, state).to_multiset() == s.to_multiset(),
    decreases n,
{
    if n > 1 {
        let drawn = mixed(advanced(state)) as int % n as int;
        lemma_swap_keeps_multiset(s, n - 1, drawn);
        shuffles_keep_all_entries(swapped(s, n - 1, drawn), (n - 1) as nat, advanced(state));
    }
}

} // verus!
