//! The players that look ahead. They cannot play a forked game on by themselves: they say what to
//! try, take in what came of it, and say at last which step to pick.

use crate::game::Game;
use crate::moves::{legal_moves, moves_are_sound_and_complete, moves_of, step_move, Move};
use crate::pick::{first_max, first_max_is_greatest, last_max, last_max_is_greatest};
use crate::rng::{random_u64, seeded_state, Rand};
use crate::score::Score;
use crate::search::{descended, visit_counts, Descent, Search, SearchView};
use crate::step::{offer_from, offered, the_first_offer_is_found};
use crate::sums::{one_more_adds_to_the_sum, sum};
use crate::tree::{known, Edge};
use vstd::prelude::*;

verus! {

/// The `n` numbers from position `from` on, added up.
pub open spec fn sum_of(values: Seq<int>, from: int, n: int) -> int
    decreases n,
{
    if n <= 0 {
        0
    } else {
        sum_of(values, from, n - 1) + values[from + n - 1]
    }
}

/// What each of the steps came to, with `rollouts` trials of each, in order. All have as many
/// trials, so the best sum is the best average.
pub open spec fn totals(values: Seq<int>, rollouts: int, steps: int) -> Seq<int> {
    Seq::new(steps as nat, |i: int| sum_of(values, i * rollouts, rollouts))
}

/// What a player does next that tries every step.
#[derive(Clone, Copy, PartialEq, Eq, Debug, Structural)]
pub enum Trial {
    /// Take this step on a fork, play on to the end, and record what came of it.
    Try(usize),
    /// Pick this step.
    Pick(usize),
}

/// Trials of every step on offer, as many of each, one after the other.
#[derive(Debug)]
pub struct Rollouts {
    rollouts: u32,
    steps: usize,
    values: Vec<i128>,
}

impl View for Rollouts {
    type V = Seq<int>;

    /// What came of the trials so far.
    closed spec fn view(&self) -> Seq<int> {
        Seq::new(self.values@.len(), |k: int| self.values@[k] as int)
    }
}

/// The most that a trial can come to, either way.
pub const MOST_OF_A_TRIAL: i128 = 0x1_0000_0000_0000_0000_0000;

impl Rollouts {
    /// How many trials each step gets.
    pub closed spec fn rollouts(&self) -> int {
        self.rollouts as int
    }

    /// How many steps are on offer.
    pub closed spec fn steps(&self) -> int {
        self.steps as int
    }

    /// There is a choice, and no trial came to more than one can.
    pub closed spec fn wf(&self) -> bool {
        &&& self.steps > 0
        &&& forall|k: int|
            0 <= k < self.values@.len() ==> -MOST_OF_A_TRIAL <= #[trigger] self.values@[k]
                <= MOST_OF_A_TRIAL
    }

    /// What to do next: another trial of the step whose turn it is or, once all have had theirs,
    /// to pick the step with the best average, the first of equals. Without trials the first step
    /// is as good as any.
    pub fn next(&self) -> (r: Trial)
        requires
            self.wf(),
        ensures
            r is Pick <==> self.rollouts() == 0 || self@.len() / self.rollouts() as nat
                >= self.steps(),
            r matches Trial::Pick(i) ==> {
                &&& i == (if self.rollouts() == 0 {
                    0
                } else {
                    first_max(totals(self@, self.rollouts(), self.steps()))
                })
                &&& i < self.steps()
            },
            r matches Trial::Try(i) ==> {
                &&& i == self@.len() / self.rollouts() as nat
                &&& i < self.steps()
            },
    {
        if self.rollouts == 0 {
            return Trial::Pick(0);
        }
        let each: usize = self.rollouts as usize;
        let tried: usize = self.values.len() / each;
        if tried < self.steps {
            return Trial::Try(tried);
        }
        let ghost all = totals(self@, each as int, self.steps as int);
        let ghost have = self.values@.len() as int;
        assert(self.steps * each <= have) by (nonlinear_arith)
            requires
                tried == have / each as int,
                tried >= self.steps,
                each > 0,
        ;
        let mut best: usize = 0;
        let mut best_total: i128 = 0;
        let mut i: usize = 0;
        while i < self.steps
            invariant
                i <= self.steps,
                self.wf(),
                each == self.rollouts,
                each > 0,
                have == self.values@.len(),
                self.steps * each <= have,
                all == totals(self@, each as int, self.steps as int),
                i > 0 ==> best < i,
                i > 0 ==> best_total == all[best as int],
                i > 0 ==> best == first_max(all.take(i as int)),
                i == 0 ==> best == 0,
            decreases self.steps - i,
        {
            let total: i128 = self.total_of(i);
            assert(all.take(i + 1).drop_last() =~= all.take(i as int));
            if i == 0 || total > best_total {
                best_total = total;
                best = i;
            }
            i = i + 1;
        }
        assert(all.take(i as int) =~= all);
        Trial::Pick(best)
    }

    /// What step `i` came to.
    fn total_of(&self, i: usize) -> (r: i128)
        requires
            self.wf(),
            i < self.steps,
            self.rollouts > 0,
            self.steps * self.rollouts <= self.values@.len(),
        ensures
            r == sum_of(self@, i * self.rollouts, self.rollouts as int),
    {
        let each: usize = self.rollouts as usize;
        let ghost have = self.values@.len() as int;
        assert(self.values@.len() == self.values.len());
        assert(0 <= i * each && i * each + each <= have) by (nonlinear_arith)
            requires
                i < self.steps,
                each > 0,
                self.steps * each <= have,
        ;
        let from: usize = i * each;
        let mut total: i128 = 0;
        let mut j: usize = 0;
        while j < each
            invariant
                j <= each,
                each <= u32::MAX,
                self.wf(),
                from + each <= self.values@.len() <= usize::MAX,
                total == sum_of(self@, from as int, j as int),
                -0x1_0000_0000_0000_0000_0000 * j <= total <= 0x1_0000_0000_0000_0000_0000 * j,
            decreases each - j,
        {
            let value: i128 = self.values[from + j];
            total = total + value;
            j = j + 1;
        }
        total
    }

    /// Takes in what a trial came to.
    pub fn record(&mut self, value: i128)
        requires
            old(self).wf(),
            -MOST_OF_A_TRIAL <= value <= MOST_OF_A_TRIAL,
        ensures
            final(self).wf(),
            final(self)@ == old(self)@.push(value as int),
            final(self).rollouts() == old(self).rollouts(),
            final(self).steps() == old(self).steps(),
    {
        let ghost before = *self;
        self.values.push(value);
        assert(self@ =~= before@.push(value as int));
    }
}

/// No step has a better average than the one that is picked, and none before it has as good a one.
pub proof fn the_pick_has_the_best_average(values: Seq<int>, rollouts: int, steps: int)
    requires
        rollouts > 0,
        steps > 0,
    ensures
        0 <= first_max(totals(values, rollouts, steps)) < steps,
        forall|i: int|
            0 <= i < steps ==> #[trigger] totals(values, rollouts, steps)[i] <= totals(
                values,
                rollouts,
                steps,
            )[first_max(totals(values, rollouts, steps))],
        forall|i: int|
            0 <= i < first_max(totals(values, rollouts, steps)) ==> #[trigger] totals(
                values,
                rollouts,
                steps,
            )[i] < totals(values, rollouts, steps)[first_max(totals(values, rollouts, steps))],
{
    first_max_is_greatest(totals(values, rollouts, steps));
}

/// The player that tries each step on forks of the game, has the greedy player play on from
/// there, and picks the step that came out best on average.
#[derive(Debug)]
pub struct RolloutAgent {
    rollouts: u32,
    rng: Rand,
}

impl RolloutAgent {
    /// How many trials each step gets.
    pub closed spec fn trials(&self) -> u32 {
        self.rollouts
    }

    /// The player's random source.
    pub closed spec fn source(&self) -> Rand {
        self.rng
    }

    /// A player that gives each step `rollouts` trials, with a random source of its own.
    pub fn new(rollouts: u32) -> (r: RolloutAgent)
        ensures
            r.trials() == rollouts,
            r.source().seed() is None,
    {
        RolloutAgent { rollouts, rng: Rand::default() }
    }

    /// Begins a decision. Where there is no choice the first step is picked at once.
    pub fn begin(&self, game: &Game) -> (r: Option<Rollouts>)
        ensures
            r is None <==> game.steps@.len() <= 1,
            r matches Some(all) ==> {
                &&& all.wf()
                &&& all@ == Seq::<int>::empty()
                &&& all.rollouts() == self.trials()
                &&& all.steps() == game.steps@.len()
            },
    {
        if game.steps.len() <= 1 {
            None
        } else {
            let all: Rollouts = Rollouts {
                rollouts: self.rollouts,
                steps: game.steps.len(),
                values: Vec::new(),
            };
            assert(all@ =~= Seq::<int>::empty());
            Some(all)
        }
    }

    /// The seed of the next fork, so that every trial samples another future.
    pub fn reseed(&mut self) -> (seed: u64)
        ensures
            (seed, final(self).source().state()) == random_u64(old(self).source().state()),
            final(self).trials() == old(self).trials(),
            final(self).source().seed() == old(self).source().seed(),
    {
        self.rng.bits()
    }
}

/// What a seed is mixed with, so that a search draws other numbers than the game it is for.
pub const SEED_MIX: u64 = 0x9E37_79B9_7F4A_7C15;

/// The player that searches: it spends its rounds where they promise most, and picks the move
/// that they kept coming back to.
#[derive(Debug)]
pub struct IsmctsAgent {
    iters: u32,
    rng: Rand,
}

impl IsmctsAgent {
    /// How many rounds a decision gets.
    pub closed spec fn rounds(&self) -> u32 {
        self.iters
    }

    /// The player's random source.
    pub closed spec fn source(&self) -> Rand {
        self.rng
    }

    /// A player that spends `iters` rounds on a decision, with a random source of its own.
    pub fn new(iters: u32) -> (r: IsmctsAgent)
        ensures
            r.rounds() == iters,
            r.source().seed() is None,
    {
        IsmctsAgent { iters, rng: Rand::default() }
    }

    /// A player whose random source is determined by `seed`, so that its play can be repeated; a
    /// game from the same seed still draws other numbers.
    pub fn with_seed(iters: u32, seed: u64) -> (r: IsmctsAgent)
        ensures
            r.rounds() == iters,
            r.source().seed() == Some(seed ^ SEED_MIX),
            r.source().state() == seeded_state(seed ^ SEED_MIX, usize::BITS),
    {
        IsmctsAgent { iters, rng: Rand::seed_from_u64(seed ^ SEED_MIX) }
    }

    /// Begins a decision. Where there is no choice of moves the first step is picked at once.
    pub fn begin<S: Score>(&self, game: &Game) -> (r: Option<Search<S>>)
        ensures
            r is None <==> moves_of(*game).len() <= 1,
            r matches Some(search) ==> {
                &&& search.wf()
                &&& search@ == SearchView::<S>::begun(self.rounds() as int)
            },
    {
        let moves: Vec<Move> = legal_moves(game);
        if moves.len() <= 1 {
            None
        } else {
            Some(Search::new(self.iters))
        }
    }

    /// The seed of the next fork, so that every round samples another future.
    pub fn reseed(&mut self) -> (seed: u64)
        ensures
            (seed, final(self).source().state()) == random_u64(old(self).source().state()),
            final(self).rounds() == old(self).rounds(),
            final(self).source().seed() == old(self).source().seed(),
    {
        self.rng.bits()
    }

    /// The random source, for a round to choose by.
    pub fn rng(&mut self) -> (r: &mut Rand)
        ensures
            *r == old(self).source(),
            final(self).source() == *final(r),
            final(self).rounds() == old(self).rounds(),
    {
        &mut self.rng
    }

    /// Ends a decision: the step that makes the move which the search made most often.
    pub fn conclude<S: Score>(&self, search: &Search<S>, game: &Game) -> (i: usize)
        requires
            search.wf(),
            moves_of(*game).len() > 0,
        ensures
            i == robust_step(search@, *game),
            i < game.steps@.len(),
    {
        let moves: Vec<Move> = legal_moves(game);
        let best: usize = search.robust_child(&moves);
        assert(offered(game.steps@, moves@[best as int].1));
        step_move(game, moves[best].1)
    }
}

/// The step that makes the move which the search made most often, the last of equals.
pub open spec fn robust_step<S: Score>(s: SearchView<S>, game: Game) -> int {
    let moves = moves_of(game);
    offer_from(game.steps@, moves[last_max(visit_counts(s.nodes[0], moves))].1, 0)
}

/// No move was made more often than the one that is picked.
pub proof fn the_pick_is_the_most_visited<S: Score>(s: SearchView<S>, game: Game)
    requires
        moves_of(game).len() > 0,
    ensures
        0 <= last_max(visit_counts(s.nodes[0], moves_of(game))) < moves_of(game).len(),
        forall|i: int|
            0 <= i < moves_of(game).len() ==> #[trigger] visit_counts(s.nodes[0], moves_of(game))[i]
                <= visit_counts(s.nodes[0], moves_of(game))[last_max(
                visit_counts(s.nodes[0], moves_of(game)),
            )],
{
    last_max_is_greatest(visit_counts(s.nodes[0], moves_of(game)));
}

/// What a player that searches is asked to do.
pub enum Asked<S> {
    /// To begin a decision about the game.
    Begin(Game),
    /// For the seed of the next fork.
    Reseed,
    /// To look at a fork, and say what the round does next.
    Look(Game),
    /// To end a round that came to this.
    Value(S),
    /// To end the decision about the game.
    Conclude(Game),
}

/// What a player that searches answers.
pub enum Answer {
    /// The first step is picked at once.
    First,
    /// What was said is noted.
    Noted,
    Seed(u64),
    Next(Descent),
    /// This step is picked.
    Pick(int),
}

/// A player that searches: its rounds for a decision, what its random source holds, and the search
/// that is on.
pub struct Searcher<S> {
    pub rounds: int,
    pub state: Seq<u64>,
    pub search: SearchView<S>,
}

/// What the player answers, where bounds are made out by `b`, and what the player is then. Each
/// answer is what the method gives that is asked.
pub open spec fn answered<S: Score>(
    p: Searcher<S>,
    b: spec_fn(Edge<S>) -> S,
    asked: Asked<S>,
) -> (Answer, Searcher<S>) {
    match asked {
        Asked::Begin(game) => if moves_of(game).len() <= 1 {
            (Answer::First, p)
        } else {
            (Answer::Noted, Searcher { search: SearchView::begun(p.rounds), ..p })
        },
        Asked::Reseed => {
            let (seed, state) = random_u64(p.state);
            (Answer::Seed(seed), Searcher { state, ..p })
        },
        Asked::Look(game) => {
            let (next, search, state) = descended(p.search, game, b, p.state);
            (Answer::Next(next), Searcher { search, state, ..p })
        },
        Asked::Value(value) => (Answer::Noted, Searcher { search: p.search.backed(value), ..p }),
        Asked::Conclude(game) => (Answer::Pick(robust_step(p.search, game)), p),
    }
}

/// What the player answers to one question after the other, and what the player is then.
pub open spec fn answers<S: Score>(
    p: Searcher<S>,
    b: spec_fn(Edge<S>) -> S,
    asked: Seq<Asked<S>>,
) -> (Seq<Answer>, Searcher<S>)
    decreases asked.len(),
{
    if asked.len() == 0 {
        (Seq::empty(), p)
    } else {
        let (earlier, then) = answers(p, b, asked.drop_last());
        let (answer, after) = answered(then, b, asked.last());
        (earlier.push(answer), after)
    }
}

/// The player as it is before its first decision.
pub open spec fn at_first<S: Score>(agent: IsmctsAgent) -> Searcher<S> {
    Searcher {
        rounds: agent.rounds() as int,
        state: agent.source().state(),
        search: SearchView::begun(agent.rounds() as int),
    }
}

/// A seeded search repeats: two players made from one seed, asked the same over any number of
/// decisions, answer the same, and pick the same steps.
pub proof fn a_seeded_search_repeats<S: Score>(
    x: IsmctsAgent,
    y: IsmctsAgent,
    iters: u32,
    seed: u64,
    b: spec_fn(Edge<S>) -> S,
    asked: Seq<Asked<S>>,
)
    requires
        call_ensures(IsmctsAgent::with_seed, (iters, seed), x),
        call_ensures(IsmctsAgent::with_seed, (iters, seed), y),
    ensures
        answers(at_first(x), b, asked) == answers(at_first(y), b, asked),
{
}

/// A search does not draw its numbers from the seed of the game that it is for.
pub proof fn the_seeds_differ(seed: u64)
    ensures
        seed ^ SEED_MIX != seed,
{
    assert(seed ^ 0x9E37_79B9_7F4A_7C15 != seed) by (bit_vector);
}

proof fn lemma_sum_of(values: Seq<int>, from: int, n: int)
    requires
        0 <= from,
        0 <= n,
        from + n <= values.len(),
    ensures
        sum_of(values, from, n) == sum(values.subrange(from, from + n)),
    decreases n,
{
    one_more_adds_to_the_sum(values, 0);
    if n == 0 {
        assert(values.subrange(from, from) =~= Seq::empty());
    } else {
        lemma_sum_of(values, from, n - 1);
        let shorter = values.subrange(from, from + n - 1);
        one_more_adds_to_the_sum(shorter, values[from + n - 1]);
        assert(shorter.push(values[from + n - 1]) =~= values.subrange(from, from + n));
    }
}

/// What the trials of step `i` came to, added up: they follow those of the steps before it.
pub open spec fn came_to(values: Seq<int>, rollouts: int, i: int) -> int {
    sum(values.subrange(i * rollouts, (i + 1) * rollouts))
}

/// Every step gets its trials in turn; once all have had theirs, the step is picked whose trials
/// came to as much as those of any other, and to more than those of the steps before it.
pub proof fn the_trials_decide(all: Rollouts, r: Trial)
    requires
        all.wf(),
        all.rollouts() > 0,
        call_ensures(Rollouts::next, (&all,), r),
    ensures
        r is Pick <==> all@.len() >= all.steps() * all.rollouts(),
        r matches Trial::Try(i) ==> i * all.rollouts() <= all@.len() < (i + 1) * all.rollouts(),
        r matches Trial::Pick(i) ==> {
            &&& i < all.steps()
            &&& forall|j: int|
                0 <= j < all.steps() ==> #[trigger] came_to(all@, all.rollouts(), j) <= came_to(
                    all@,
                    all.rollouts(),
                    i as int,
                )
            &&& forall|j: int|
                0 <= j < i ==> #[trigger] came_to(all@, all.rollouts(), j) < came_to(
                    all@,
                    all.rollouts(),
                    i as int,
                )
        },
{
    let values = all@;
    let each = all.rollouts();
    let steps = all.steps();
    let n = values.len() as int;
    let done = n / each;
    vstd::arithmetic::div_mod::lemma_fundamental_div_mod(n, each);
    let rest = n % each;
    assert(0 <= rest < each) by (nonlinear_arith)
        requires
            each > 0,
            rest == n % each,
    ;
    assert(each * done == done * each) by (nonlinear_arith);
    assert(done * each <= n < (done + 1) * each) by (nonlinear_arith)
        requires
            n == each * done + rest,
            0 <= rest < each,
    ;
    if done >= steps {
        assert(steps * each <= done * each) by (nonlinear_arith)
            requires
                steps <= done,
                each > 0,
        ;
    } else {
        assert((done + 1) * each <= steps * each) by (nonlinear_arith)
            requires
                done + 1 <= steps,
                each > 0,
        ;
    }
    if let Trial::Pick(i) = r {
        let sums = totals(values, each, steps);
        first_max_is_greatest(sums);
        assert forall|j: int| 0 <= j < steps implies sums[j] == #[trigger] came_to(
            values,
            each,
            j,
        ) by {
            assert(0 <= j * each && (j + 1) * each == j * each + each && (j + 1) * each <= steps
                * each) by (nonlinear_arith)
                requires
                    0 <= j < steps,
                    each > 0,
            ;
            lemma_sum_of(values, j * each, each);
        }
        assert(sums[i as int] == came_to(values, each, i as int));
    }
}

/// The step that is picked makes a move than which none was made more often at the decision that
/// the search is for, and none behind it as often.
pub proof fn the_most_visited_move_is_made<S: Score>(
    agent: IsmctsAgent,
    search: Search<S>,
    game: Game,
    i: usize,
)
    requires
        search.wf(),
        moves_of(game).len() > 0,
        call_ensures(IsmctsAgent::conclude::<S>, (&agent, &search, &game), i),
    ensures
        i < game.steps@.len(),
        exists|k: int|
            0 <= k < moves_of(game).len() && {
                let m = #[trigger] moves_of(game)[k];
                &&& game.steps@[i as int].kind == m.1
                &&& forall|j: int|
                    0 <= j < moves_of(game).len() ==> known(
                        search@.nodes[0],
                        (#[trigger] moves_of(game)[j]).0,
                    ).visits <= known(search@.nodes[0], m.0).visits
                &&& forall|j: int|
                    k < j < moves_of(game).len() ==> known(
                        search@.nodes[0],
                        (#[trigger] moves_of(game)[j]).0,
                    ).visits < known(search@.nodes[0], m.0).visits
            },
{
    let moves = moves_of(game);
    let counts = visit_counts(search@.nodes[0], moves);
    last_max_is_greatest(counts);
    let k = last_max(counts);
    moves_are_sound_and_complete(game);
    the_first_offer_is_found(game.steps@, moves[k].1, 0);
    assert(offered(game.steps@, moves[k].1));
    let m = moves[k];
    assert forall|j: int| 0 <= j < moves.len() implies known(
        search@.nodes[0],
        (#[trigger] moves[j]).0,
    ).visits <= known(search@.nodes[0], m.0).visits by {
        assert(counts[j] <= counts[k]);
    }
    assert forall|j: int| k < j < moves.len() implies known(
        search@.nodes[0],
        (#[trigger] moves[j]).0,
    ).visits < known(search@.nodes[0], m.0).visits by {
        assert(counts[j] < counts[k]);
    }
}

/// Players made from different seeds are seeded differently.
pub proof fn different_seeds_stay_different(a: u64, b: u64)
    requires
        a != b,
    ensures
        a ^ SEED_MIX != b ^ SEED_MIX,
{
    assert(a != b ==> a ^ 0x9E37_79B9_7F4A_7C15 != b ^ 0x9E37_79B9_7F4A_7C15) by (bit_vector);
}

} // verus!
