//! The random source of a game: seedable and cloneable, so that a game can be forked for
//! look-ahead and a run can be repeated.

use rand::rngs::SmallRng;
use rand::{RngExt, SeedableRng};
use std::ops::{Deref, DerefMut};
use vstd::prelude::*;

verus! {

/// `rand::rngs::SmallRng`, carried as an opaque value.
#[verifier::external_type_specification]
#[verifier::external_body]
pub struct ExSmallRng(SmallRng);

/// What a generator holds: the words of its state, and with them how wide these are, which differs
/// between platforms.
pub uninterp spec fn small_rng_state(rng: SmallRng) -> Seq<u64>;

/// What a generator holds that `SmallRng::seed_from_u64` makes from `seed` on a platform whose
/// pointers are `width` bits wide.
pub uninterp spec fn seeded_state(seed: u64, width: u32) -> Seq<u64>;

/// Calls `SmallRng::seed_from_u64`. What the generator holds follows from the seed and from the
/// width of a pointer, by which the algorithm is chosen; how it does is named and not spelled out.
#[verifier::external_body]
fn small_rng_from_seed(seed: u64) -> (r: SmallRng)
    ensures
        small_rng_state(r) == seeded_state(seed, usize::BITS),
{
    SmallRng::seed_from_u64(seed)
}

/// Calls `SmallRng::from_rng` on the thread's own generator. The seed is random, so nothing is
/// claimed of the result.
#[verifier::external_body]
fn small_rng_from_thread() -> SmallRng {
    SmallRng::from_rng(&mut rand::rngs::ThreadRng::default())
}

/// What `RngExt::random_range` on `0..n` draws from a generator that holds `state`, and what the
/// generator holds then.
pub uninterp spec fn random_below(state: Seq<u64>, n: usize) -> (usize, Seq<u64>);

/// What `RngExt::random` for a `u64` draws from a generator that holds `state`, and what the
/// generator holds then.
pub uninterp spec fn random_u64(state: Seq<u64>) -> (u64, Seq<u64>);

/// Calls `RngExt::random_range` on `0..n`: the draw lies in that range. The range must not be
/// empty, since `random_range` panics on an empty one. The generator is a pure state machine, so
/// the draw and the state after it follow from `n` and the state before; how they do is named and
/// not spelled out.
#[verifier::external_body]
fn small_rng_below(rng: &mut SmallRng, n: usize) -> (i: usize)
    requires
        n > 0,
    ensures
        i < n,
        (i, small_rng_state(*final(rng))) == random_below(small_rng_state(*old(rng)), n),
{
    rng.random_range(0..n)
}

/// Calls `RngExt::random` for a `u64`: any value of the type may come back. The draw and the state
/// after it follow from the state before; how they do is named and not spelled out.
#[verifier::external_body]
fn small_rng_u64(rng: &mut SmallRng) -> (b: u64)
    ensures
        (b, small_rng_state(*final(rng))) == random_u64(small_rng_state(*old(rng))),
{
    rng.random()
}

/// Calls the `Clone` of `SmallRng`, which copies its state: the clone equals the generator it was
/// taken from.
#[verifier::external_body]
fn small_rng_clone(rng: &SmallRng) -> (r: SmallRng)
    ensures
        r == *rng,
{
    rng.clone()
}

/// A seedable, cloneable random number generator. It keeps the seed it was made from on record.
#[derive(Debug)]
pub struct Rand {
    rng: SmallRng,
    made_from: Option<u64>,
}

impl Rand {
    /// The seed that the generator was made from, where it was given one.
    pub closed spec fn seed(&self) -> Option<u64> {
        self.made_from
    }

    /// The generator inside.
    pub closed spec fn inner(&self) -> SmallRng {
        self.rng
    }

    /// What the generator holds, from which all that it draws follows.
    pub open spec fn state(&self) -> Seq<u64> {
        small_rng_state(self.inner())
    }

    /// The generator that `seed` determines.
    pub fn seed_from_u64(seed: u64) -> (r: Rand)
        ensures
            r.seed() == Some(seed),
            r.state() == seeded_state(seed, usize::BITS),
    {
        Rand { rng: small_rng_from_seed(seed), made_from: Some(seed) }
    }

    /// The seed on record.
    pub fn made_from(&self) -> (r: Option<u64>)
        ensures
            r == self.seed(),
    {
        self.made_from
    }

    /// A number below `n`: the one that follows from what the generator holds, which moves on.
    pub fn below(&mut self, n: usize) -> (i: usize)
        requires
            n > 0,
        ensures
            i < n,
            (i, final(self).state()) == random_below(old(self).state(), n),
            final(self).seed() == old(self).seed(),
    {
        small_rng_below(&mut self.rng, n)
    }

    /// Sixty-four random bits: those that follow from what the generator holds, which moves on.
    pub fn bits(&mut self) -> (b: u64)
        ensures
            (b, final(self).state()) == random_u64(old(self).state()),
            final(self).seed() == old(self).seed(),
    {
        small_rng_u64(&mut self.rng)
    }
}

impl Default for Rand {
    /// A generator with a fresh, random seed.
    fn default() -> (r: Rand)
        ensures
            r.seed() is None,
    {
        Rand { rng: small_rng_from_thread(), made_from: None }
    }
}

impl Clone for Rand {
    /// A generator that goes on from where this one stands.
    fn clone(&self) -> (r: Rand)
        ensures
            r == *self,
    {
        Rand { rng: small_rng_clone(&self.rng), made_from: self.made_from }
    }
}

impl Deref for Rand {
    type Target = SmallRng;

    /// The generator inside.
    fn deref(&self) -> (r: &SmallRng)
        ensures
            *r == self.inner(),
    {
        &self.rng
    }
}

impl DerefMut for Rand {
    /// The generator inside, so that whatever can be drawn from it can be drawn from this one.
    fn deref_mut(&mut self) -> (r: &mut SmallRng)
        ensures
            *r == old(self).inner(),
            final(self).inner() == *final(r),
            final(self).seed() == old(self).seed(),
    {
        &mut self.rng
    }
}

/// One element of `slice`, at random.
pub fn rand_slice<T: Copy>(rng: &mut Rand, slice: &[T]) -> (r: T)
    requires
        slice@.len() > 0,
    ensures
        exists|i: int| 0 <= i < slice@.len() && r == #[trigger] slice@[i],
        r == slice@[random_below(old(rng).state(), slice@.len() as usize).0 as int],
        final(rng).state() == random_below(old(rng).state(), slice@.len() as usize).1,
        final(rng).seed() == old(rng).seed(),
{
    let i: usize = rng.below(slice.len());
    slice[i]
}

/// Takes one element out of `v`, at random; the others keep their order.
pub fn remove_random<T>(rng: &mut Rand, v: &mut Vec<T>) -> (r: T)
    requires
        old(v)@.len() > 0,
    ensures
        exists|i: int|
            0 <= i < old(v)@.len() && r == old(v)@[i] && final(v)@ == #[trigger] old(v)@.remove(i),
        r == old(v)@[random_below(old(rng).state(), old(v)@.len() as usize).0 as int],
        final(v)@ == old(v)@.remove(
            random_below(old(rng).state(), old(v)@.len() as usize).0 as int,
        ),
        final(rng).state() == random_below(old(rng).state(), old(v)@.len() as usize).1,
        final(rng).seed() == old(rng).seed(),
{
    let i: usize = rng.below(v.len());
    v.remove(i)
}

/// Something that is drawn: a number below a bound, or sixty-four bits.
#[derive(Clone, Copy, PartialEq, Eq, Debug, Structural)]
pub enum Draw {
    Below(usize),
    Bits,
}

/// The number that a draw gives from a generator that holds `state`, and what it holds then.
pub open spec fn drawn(state: Seq<u64>, draw: Draw) -> (int, Seq<u64>) {
    match draw {
        Draw::Below(n) => {
            let (i, after) = random_below(state, n);
            (i as int, after)
        },
        Draw::Bits => {
            let (b, after) = random_u64(state);
            (b as int, after)
        },
    }
}

/// The numbers that the draws give, one after the other, from a generator that holds `state`, and
/// what it holds then.
pub open spec fn drawn_in_turn(state: Seq<u64>, draws: Seq<Draw>) -> (Seq<int>, Seq<u64>)
    decreases draws.len(),
{
    if draws.len() == 0 {
        (Seq::empty(), state)
    } else {
        let (numbers, then) = drawn_in_turn(state, draws.drop_last());
        let (number, after) = drawn(then, draws.last());
        (numbers.push(number), after)
    }
}

/// Two generators made from one seed give the same numbers, whatever is drawn from them, and so
/// does a copy of either.
pub proof fn one_seed_gives_the_same_numbers(a: Rand, b: Rand, c: Rand, seed: u64, draws: Seq<Draw>)
    requires
        call_ensures(Rand::seed_from_u64, (seed,), a),
        call_ensures(Rand::seed_from_u64, (seed,), b),
        call_ensures(Rand::clone, (&a,), c),
    ensures
        drawn_in_turn(a.state(), draws) == drawn_in_turn(b.state(), draws),
        drawn_in_turn(a.state(), draws) == drawn_in_turn(c.state(), draws),
{
}

} // verus!
