//! The tallies of an evaluation.

use crate::climb::RunResult;
use crate::playout::Outcome;
use crate::sums::{floored, one_more_adds_to_the_total, total_of};
use vstd::prelude::*;

verus! {

/// The tally of a player's fights.
#[derive(Clone, Copy, PartialEq, Eq, Debug, Structural)]
pub struct Stats {
    pub wins: u32,
    pub trials: u32,
    pub hp_lost_on_win: u64,
    pub turns_on_win: u64,
    pub stalls: u32,
}

impl Default for Stats {
    fn default() -> (r: Stats)
        ensures
            r == no_fights(),
    {
        Stats { wins: 0, trials: 0, hp_lost_on_win: 0, turns_on_win: 0, stalls: 0 }
    }
}

/// The tally of no fight at all.
pub open spec fn no_fights() -> Stats {
    Stats { wins: 0, trials: 0, hp_lost_on_win: 0, turns_on_win: 0, stalls: 0 }
}

/// The health that counts as lost: gaining some is no loss.
pub open spec fn cost(hp_lost: i32) -> int {
    if hp_lost > 0 {
        hp_lost as int
    } else {
        0
    }
}

impl Stats {
    /// The counts agree with one another.
    pub open spec fn wf(&self) -> bool {
        &&& self.wins + self.stalls <= self.trials
        &&& self.hp_lost_on_win <= self.wins * 0x7fff_ffff
        &&& self.turns_on_win <= self.wins * 0x7fff_ffff
    }

    /// The tally with one more fight.
    pub open spec fn with(&self, outcome: Outcome) -> Stats {
        match outcome {
            Outcome::Win { hp_lost, turns } => Stats {
                wins: (self.wins + 1) as u32,
                trials: (self.trials + 1) as u32,
                hp_lost_on_win: (self.hp_lost_on_win + cost(hp_lost)) as u64,
                turns_on_win: (self.turns_on_win + turns) as u64,
                stalls: self.stalls,
            },
            Outcome::Loss => Stats { trials: (self.trials + 1) as u32, ..*self },
            Outcome::Stall => Stats {
                trials: (self.trials + 1) as u32,
                stalls: (self.stalls + 1) as u32,
                ..*self
            },
        }
    }

    /// Counts a fight.
    pub fn record(&mut self, outcome: Outcome)
        requires
            old(self).wf(),
            old(self).trials < u32::MAX,
            outcome matches Outcome::Win { turns, .. } ==> turns >= 0,
        ensures
            *final(self) == old(self).with(outcome),
            final(self).wf(),
    {
        self.trials = self.trials + 1;
        match outcome {
            Outcome::Win { hp_lost, turns } => {
                let lost: u64 = if hp_lost > 0 {
                    hp_lost as u64
                } else {
                    0
                };
                self.wins = self.wins + 1;
                self.hp_lost_on_win = self.hp_lost_on_win + lost;
                self.turns_on_win = self.turns_on_win + turns as u64;
            },
            Outcome::Loss => {},
            Outcome::Stall => {
                self.stalls = self.stalls + 1;
            },
        }
    }
}

/// The parts that a unit of fitness is counted in, so that a point of health and a floor each
/// come to a whole number of them.
pub const FITNESS_UNIT: i128 = 2720;

/// What a climb adds to the fitness, in parts of a unit: three units for a clear and half a unit
/// for each eighty points of health left, or a fifth of a unit for seventeen floors climbed.
pub open spec fn merit(r: RunResult) -> int {
    match r {
        RunResult::Cleared { hp, .. } => 8160 + 17 * hp,
        RunResult::Died { floor } => 32 * floor,
        RunResult::Stalled => 0,
    }
}

/// What one climb came to: its result, or none where it broke off in an error.
pub type Climb = Option<RunResult>;

/// The tally of a player's climbs.
#[derive(Clone, Copy, PartialEq, Eq, Debug, Structural)]
pub struct RunStats {
    pub cleared: u32,
    pub hp_sum: i64,
    pub floor_sum: i64,
    pub deaths: u32,
    pub death_floor_sum: i64,
    pub stalls: u32,
    pub errors: u32,
    pub trials: u32,
    /// In parts of a unit.
    pub fitness_sum: i128,
}

/// The tally of no climb at all.
pub open spec fn no_climbs() -> RunStats {
    RunStats {
        cleared: 0,
        hp_sum: 0,
        floor_sum: 0,
        deaths: 0,
        death_floor_sum: 0,
        stalls: 0,
        errors: 0,
        trials: 0,
        fitness_sum: 0,
    }
}

impl Default for RunStats {
    fn default() -> (r: RunStats)
        ensures
            r == no_climbs(),
    {
        RunStats {
            cleared: 0,
            hp_sum: 0,
            floor_sum: 0,
            deaths: 0,
            death_floor_sum: 0,
            stalls: 0,
            errors: 0,
            trials: 0,
            fitness_sum: 0,
        }
    }
}

/// `-count * 2^31 <= sum < count * 2^31`, so the sum is one of `count` numbers of thirty-two bits.
pub open spec fn spans(sum: int, count: int) -> bool {
    -0x8000_0000 * count <= sum <= 0x7fff_ffff * count
}

impl RunStats {
    /// The counts agree with one another, and the fitness is what they come to.
    pub open spec fn wf(&self) -> bool {
        &&& self.trials == self.cleared + self.deaths + self.stalls + self.errors
        &&& spans(self.hp_sum as int, self.cleared as int)
        &&& spans(self.floor_sum as int, self.cleared as int)
        &&& spans(self.death_floor_sum as int, self.deaths as int)
        &&& self.fitness_sum == 8160 * self.cleared + 17 * self.hp_sum + 32
            * self.death_floor_sum
    }

    /// The tally with one more climb.
    pub open spec fn with(&self, climb: Climb) -> RunStats {
        let trials = (self.trials + 1) as u32;
        match climb {
            Some(RunResult::Cleared { hp, floor }) => RunStats {
                trials,
                cleared: (self.cleared + 1) as u32,
                hp_sum: (self.hp_sum + hp) as i64,
                floor_sum: (self.floor_sum + floor) as i64,
                fitness_sum: (self.fitness_sum + 8160 + 17 * hp) as i128,
                ..*self
            },
            Some(RunResult::Died { floor }) => RunStats {
                trials,
                deaths: (self.deaths + 1) as u32,
                death_floor_sum: (self.death_floor_sum + floor) as i64,
                fitness_sum: (self.fitness_sum + 32 * floor) as i128,
                ..*self
            },
            Some(RunResult::Stalled) => RunStats {
                trials,
                stalls: (self.stalls + 1) as u32,
                ..*self
            },
            None => RunStats { trials, errors: (self.errors + 1) as u32, ..*self },
        }
    }

    /// The two tallies in one.
    #[verifier::opaque]
    pub open spec fn joined(&self, o: RunStats) -> RunStats {
        RunStats {
            cleared: (self.cleared + o.cleared) as u32,
            hp_sum: (self.hp_sum + o.hp_sum) as i64,
            floor_sum: (self.floor_sum + o.floor_sum) as i64,
            deaths: (self.deaths + o.deaths) as u32,
            death_floor_sum: (self.death_floor_sum + o.death_floor_sum) as i64,
            stalls: (self.stalls + o.stalls) as u32,
            errors: (self.errors + o.errors) as u32,
            trials: (self.trials + o.trials) as u32,
            fitness_sum: (self.fitness_sum + o.fitness_sum) as i128,
        }
    }

    /// Counts a climb.
    pub fn add(&mut self, r: RunResult)
        requires
            old(self).wf(),
            old(self).trials < u32::MAX,
        ensures
            *final(self) == old(self).with(Some(r)),
            final(self).wf(),
    {
        self.trials = self.trials + 1;
        match r {
            RunResult::Cleared { hp, floor } => {
                self.cleared = self.cleared + 1;
                self.hp_sum = self.hp_sum + hp as i64;
                self.floor_sum = self.floor_sum + floor as i64;
                self.fitness_sum = self.fitness_sum + (3 * FITNESS_UNIT + 17 * (hp as i128));
            },
            RunResult::Died { floor } => {
                self.deaths = self.deaths + 1;
                self.death_floor_sum = self.death_floor_sum + floor as i64;
                self.fitness_sum = self.fitness_sum + 32 * (floor as i128);
            },
            RunResult::Stalled => {
                self.stalls = self.stalls + 1;
            },
        }
    }

    /// Counts a climb that broke off in an error.
    pub fn record_error(&mut self)
        requires
            old(self).wf(),
            old(self).trials < u32::MAX,
        ensures
            *final(self) == old(self).with(None),
            final(self).wf(),
    {
        self.errors = self.errors + 1;
        self.trials = self.trials + 1;
    }

    /// Adds the climbs of another tally.
    pub fn merge(&mut self, o: &RunStats)
        requires
            old(self).wf(),
            o.wf(),
            old(self).trials + o.trials <= u32::MAX,
        ensures
            *final(self) == old(self).joined(*o),
            final(self).wf(),
    {
        self.cleared = self.cleared + o.cleared;
        self.hp_sum = self.hp_sum + o.hp_sum;
        self.floor_sum = self.floor_sum + o.floor_sum;
        self.deaths = self.deaths + o.deaths;
        self.death_floor_sum = self.death_floor_sum + o.death_floor_sum;
        self.stalls = self.stalls + o.stalls;
        self.errors = self.errors + o.errors;
        self.trials = self.trials + o.trials;
        self.fitness_sum = self.fitness_sum + o.fitness_sum;
        proof {
            reveal(RunStats::joined);
        }
    }

    /// The mean fitness of a climb, as a fraction: the numerator and the denominator. A tally of
    /// no climb counts as one of a single climb.
    pub fn fitness(&self) -> (r: (i128, i128))
        ensures
            r.0 == self.fitness_sum,
            r.1 == 2720 * (if self.trials == 0 {
                1int
            } else {
                self.trials as int
            }),
    {
        let trials: u32 = if self.trials == 0 {
            1
        } else {
            self.trials
        };
        (self.fitness_sum, FITNESS_UNIT * (trials as i128))
    }
}

/// The tally of the climbs, counted one after the other.
pub open spec fn tally(climbs: Seq<Climb>) -> RunStats
    decreases climbs.len(),
{
    if climbs.len() == 0 {
        no_climbs()
    } else {
        tally(climbs.drop_last()).with(climbs.last())
    }
}

/// The fitness of the climbs is the sum of their merits.
pub open spec fn merits(climbs: Seq<Climb>) -> int
    decreases climbs.len(),
{
    if climbs.len() == 0 {
        0
    } else {
        merits(climbs.drop_last()) + (match climbs.last() {
            Some(r) => merit(r),
            None => 0,
        })
    }
}

/// A tally holds as many trials as there were climbs, its counts agree, and its fitness is the
/// sum of the climbs' merits.
pub proof fn a_tally_counts_every_climb(climbs: Seq<Climb>)
    requires
        climbs.len() <= u32::MAX,
    ensures
        tally(climbs).wf(),
        tally(climbs).trials == climbs.len(),
        tally(climbs).fitness_sum == merits(climbs),
    decreases climbs.len(),
{
    if climbs.len() > 0 {
        a_tally_counts_every_climb(climbs.drop_last());
    }
}

/// Merging adds up the counts, one by one, and none of them runs over.
pub proof fn merging_adds_up(a: RunStats, b: RunStats)
    requires
        a.wf(),
        b.wf(),
        a.trials + b.trials <= u32::MAX,
    ensures
        a.joined(b).wf(),
        a.joined(b).cleared == a.cleared + b.cleared,
        a.joined(b).hp_sum == a.hp_sum + b.hp_sum,
        a.joined(b).floor_sum == a.floor_sum + b.floor_sum,
        a.joined(b).deaths == a.deaths + b.deaths,
        a.joined(b).death_floor_sum == a.death_floor_sum + b.death_floor_sum,
        a.joined(b).stalls == a.stalls + b.stalls,
        a.joined(b).errors == a.errors + b.errors,
        a.joined(b).trials == a.trials + b.trials,
        a.joined(b).fitness_sum == a.fitness_sum + b.fitness_sum,
{
    reveal(RunStats::joined);
}

/// The tally of a single climb.
spec fn single(climb: Climb) -> RunStats {
    no_climbs().with(climb)
}

/// Counting a climb is joining the tally of that climb alone.
proof fn lemma_with_joins_a_single(s: RunStats, climb: Climb)
    requires
        s.wf(),
        s.trials < u32::MAX,
    ensures
        single(climb).wf(),
        single(climb).trials == 1,
        s.with(climb) == s.joined(single(climb)),
{
    reveal(RunStats::joined);
}

/// A climb may be counted before two tallies are joined or after.
proof fn lemma_count_then_join(a: RunStats, b: RunStats, climb: Climb)
    requires
        a.wf(),
        b.wf(),
        a.trials + b.trials < u32::MAX,
    ensures
        a.joined(b.with(climb)) == a.joined(b).with(climb),
{
    merging_adds_up(a, b);
    lemma_with_joins_a_single(b, climb);
    lemma_with_joins_a_single(a.joined(b), climb);
    merging_is_associative(a, b, single(climb));
}

proof fn lemma_tally_of_one_more(climbs: Seq<Climb>, climb: Climb)
    ensures
        tally(climbs.push(climb)) == tally(climbs).with(climb),
{
    assert(climbs.push(climb).drop_last() =~= climbs);
}

/// How the climbs are split among workers makes no difference: merging the tallies of two lots
/// gives the tally of both lots together.
pub proof fn merging_counts_both_lots(a: Seq<Climb>, b: Seq<Climb>)
    requires
        a.len() + b.len() <= u32::MAX,
    ensures
        tally(a).joined(tally(b)) == tally(a + b),
    decreases b.len(),
{
    a_tally_counts_every_climb(a);
    if b.len() == 0 {
        assert(a + b =~= a);
        merging_with_none(tally(a));
    } else {
        let fewer = b.drop_last();
        merging_counts_both_lots(a, fewer);
        a_tally_counts_every_climb(fewer);
        lemma_count_then_join(tally(a), tally(fewer), b.last());
        lemma_tally_of_one_more(a + fewer, b.last());
        assert((a + fewer).push(b.last()) =~= a + b);
    }
}

/// The climbs that worker `w` played, of those on the first `n` tickets: ticket `k` was drawn by
/// worker `who[k]`, and `climbs[k]` is what came of it.
pub open spec fn share(climbs: Seq<Climb>, who: Seq<int>, w: int, n: int) -> Seq<Climb>
    decreases n,
{
    if n <= 0 {
        Seq::empty()
    } else if who[n - 1] == w {
        share(climbs, who, w, n - 1).push(climbs[n - 1])
    } else {
        share(climbs, who, w, n - 1)
    }
}

/// The tallies of the first `workers` workers, merged one after the other.
pub open spec fn merged(climbs: Seq<Climb>, who: Seq<int>, n: int, workers: int) -> RunStats
    decreases workers,
{
    if workers <= 0 {
        no_climbs()
    } else {
        merged(climbs, who, n, workers - 1).joined(tally(share(climbs, who, workers - 1, n)))
    }
}

/// How many of the first `n` tickets the first `workers` workers drew.
spec fn drawn_by(who: Seq<int>, n: int, workers: int) -> int
    decreases n,
{
    if n <= 0 {
        0
    } else if 0 <= who[n - 1] < workers {
        drawn_by(who, n - 1, workers) + 1
    } else {
        drawn_by(who, n - 1, workers)
    }
}

proof fn lemma_share_len(climbs: Seq<Climb>, who: Seq<int>, w: int, n: int)
    requires
        0 <= w,
        0 <= n,
    ensures
        drawn_by(who, n, w + 1) == drawn_by(who, n, w) + share(climbs, who, w, n).len(),
        0 <= drawn_by(who, n, w) <= n,
        drawn_by(who, n, w + 1) <= n,
    decreases n,
{
    if n > 0 {
        lemma_share_len(climbs, who, w, n - 1);
    }
}

proof fn lemma_merged(climbs: Seq<Climb>, who: Seq<int>, n: int, workers: int)
    requires
        0 <= n <= climbs.len() <= u32::MAX,
        0 <= workers,
    ensures
        merged(climbs, who, n, workers).wf(),
        merged(climbs, who, n, workers).trials == drawn_by(who, n, workers),
    decreases workers,
{
    if workers > 0 {
        lemma_merged(climbs, who, n, workers - 1);
        lemma_share_len(climbs, who, workers - 1, n);
        a_tally_counts_every_climb(share(climbs, who, workers - 1, n));
        merging_adds_up(
            merged(climbs, who, n, workers - 1),
            tally(share(climbs, who, workers - 1, n)),
        );
    } else {
        lemma_drawn_by_none(who, n);
    }
}

proof fn lemma_drawn_by_none(who: Seq<int>, n: int)
    ensures
        drawn_by(who, n, 0) == 0,
    decreases n,
{
    if n > 0 {
        lemma_drawn_by_none(who, n - 1);
    }
}

/// A further ticket adds its climb to what its worker brings, and nothing to the others.
proof fn lemma_one_more_ticket(climbs: Seq<Climb>, who: Seq<int>, n: int, workers: int)
    requires
        0 < n <= climbs.len() <= u32::MAX,
        0 <= workers,
        0 <= who[n - 1],
    ensures
        merged(climbs, who, n, workers) == (if who[n - 1] < workers {
            merged(climbs, who, n - 1, workers).with(climbs[n - 1])
        } else {
            merged(climbs, who, n - 1, workers)
        }),
    decreases workers,
{
    if workers > 0 {
        let w = workers - 1;
        let climb = climbs[n - 1];
        let others = merged(climbs, who, n - 1, w);
        let own = share(climbs, who, w, n - 1);
        lemma_one_more_ticket(climbs, who, n, w);
        lemma_merged(climbs, who, n - 1, w);
        lemma_share_len(climbs, who, w, n - 1);
        a_tally_counts_every_climb(own);
        if who[n - 1] == w {
            lemma_tally_of_one_more(own, climb);
            lemma_count_then_join(others, tally(own), climb);
        } else if who[n - 1] < w {
            lemma_count_before_join(others, tally(own), climb);
        }
    }
}

/// A climb may be counted in the first of two tallies that are joined, or after.
proof fn lemma_count_before_join(a: RunStats, b: RunStats, climb: Climb)
    requires
        a.wf(),
        b.wf(),
        a.trials + b.trials < u32::MAX,
    ensures
        a.with(climb).joined(b) == a.joined(b).with(climb),
{
    lemma_with_joins_a_single(a, climb);
    merging_adds_up(a, single(climb));
    merging_is_symmetric(a.with(climb), b);
    lemma_count_then_join(b, a, climb);
    merging_is_symmetric(a, b);
}

/// Every climb of an evaluation is counted once, whichever worker draws its ticket and whatever
/// comes of it: the merged tallies are the tally of all the climbs in the order of their tickets,
/// and hold as many trials as there were tickets.
pub proof fn every_climb_is_counted_once(climbs: Seq<Climb>, who: Seq<int>, workers: int)
    requires
        climbs.len() <= u32::MAX,
        who.len() == climbs.len(),
        1 <= workers,
        forall|k: int| 0 <= k < who.len() ==> 0 <= #[trigger] who[k] < workers,
    ensures
        ({
            let total = merged(climbs, who, climbs.len() as int, workers);
            &&& total == tally(climbs)
            &&& total.trials == climbs.len()
            &&& total.trials == total.cleared + total.deaths + total.stalls + total.errors
        }),
{
    lemma_tickets_so_far(climbs, who, workers, climbs.len() as int);
    assert(climbs.take(climbs.len() as int) =~= climbs);
    a_tally_counts_every_climb(climbs);
}

proof fn lemma_tickets_so_far(climbs: Seq<Climb>, who: Seq<int>, workers: int, n: int)
    requires
        climbs.len() <= u32::MAX,
        who.len() == climbs.len(),
        forall|k: int| 0 <= k < who.len() ==> 0 <= #[trigger] who[k] < workers,
        0 <= n <= climbs.len(),
        0 <= workers,
    ensures
        merged(climbs, who, n, workers) == tally(climbs.take(n)),
    decreases n,
{
    if n == 0 {
        lemma_no_tickets(climbs, who, workers);
        assert(climbs.take(0) =~= Seq::empty());
    } else {
        lemma_tickets_so_far(climbs, who, workers, n - 1);
        lemma_one_more_ticket(climbs, who, n, workers);
        lemma_tally_of_one_more(climbs.take(n - 1), climbs[n - 1]);
        assert(climbs.take(n - 1).push(climbs[n - 1]) =~= climbs.take(n));
    }
}

proof fn lemma_no_tickets(climbs: Seq<Climb>, who: Seq<int>, workers: int)
    ensures
        merged(climbs, who, 0, workers) == no_climbs(),
    decreases workers,
{
    if workers > 0 {
        lemma_no_tickets(climbs, who, workers - 1);
        assert(tally(share(climbs, who, workers - 1, 0)) == no_climbs());
        merging_with_none(no_climbs());
    }
}

/// Merging the tally of no climb changes nothing.
pub proof fn merging_with_none(a: RunStats)
    requires
        a.wf(),
    ensures
        a.joined(no_climbs()) == a,
{
    merging_adds_up(a, no_climbs());
}

/// Which of two tallies is merged into the other makes no difference.
pub proof fn merging_is_symmetric(a: RunStats, b: RunStats)
    requires
        a.wf(),
        b.wf(),
        a.trials + b.trials <= u32::MAX,
    ensures
        a.joined(b) == b.joined(a),
{
    merging_adds_up(a, b);
    merging_adds_up(b, a);
}

/// The order in which tallies are merged makes no difference.
pub proof fn merging_is_associative(a: RunStats, b: RunStats, c: RunStats)
    requires
        a.wf(),
        b.wf(),
        c.wf(),
        a.trials + b.trials + c.trials <= u32::MAX,
    ensures
        a.joined(b).joined(c) == a.joined(b.joined(c)),
{
    merging_adds_up(a, b);
    merging_adds_up(b, c);
    merging_adds_up(a.joined(b), c);
    merging_adds_up(a, b.joined(c));
    let left = a.joined(b).joined(c);
    let right = a.joined(b.joined(c));
    assert(left.cleared == right.cleared);
    assert(left.hp_sum == right.hp_sum);
    assert(left.floor_sum == right.floor_sum);
    assert(left.deaths == right.deaths);
    assert(left.death_floor_sum == right.death_floor_sum);
    assert(left.stalls == right.stalls);
    assert(left.errors == right.errors);
    assert(left.trials == right.trials);
    assert(left.fitness_sum == right.fitness_sum);
}

/// A clear dwarfs any death: it counts for no less than dying on any floor up to the two hundred
/// and fifty-fifth, and for more than ten times as much as dying within twenty-five floors.
pub proof fn a_clear_dwarfs_a_death(hp: i32, floor: i32, depth: i32)
    requires
        hp >= 0,
        depth <= 255,
    ensures
        merit(RunResult::Cleared { hp, floor }) >= merit(RunResult::Died { floor: depth }),
        depth <= 25 ==> merit(RunResult::Cleared { hp, floor }) > 10 * merit(
            RunResult::Died { floor: depth },
        ),
{
}

/// Among clears the health left decides, and among deaths the floor.
pub proof fn merit_grows_with_health_and_depth(hp: i32, more: i32, floor: i32, deeper: i32)
    requires
        hp < more,
        floor < deeper,
    ensures
        merit(RunResult::Cleared { hp, floor }) < merit(RunResult::Cleared { hp: more, floor }),
        merit(RunResult::Died { floor }) < merit(RunResult::Died { floor: deeper }),
{
}

/// The tally of the fights, counted one after the other.
pub open spec fn fight_tally(fights: Seq<Outcome>) -> Stats
    decreases fights.len(),
{
    if fights.len() == 0 {
        no_fights()
    } else {
        fight_tally(fights.drop_last()).with(fights.last())
    }
}

/// One for a fight that was won.
pub open spec fn is_a_win() -> spec_fn(Outcome) -> int {
    |o: Outcome|
        if o is Win {
            1int
        } else {
            0
        }
}

/// One for a fight that was given up.
pub open spec fn is_a_stall() -> spec_fn(Outcome) -> int {
    |o: Outcome|
        if o is Stall {
            1int
        } else {
            0
        }
}

/// What a won fight cost in health, at least nothing.
pub open spec fn health_lost() -> spec_fn(Outcome) -> int {
    |o: Outcome|
        match o {
            Outcome::Win { hp_lost, .. } => floored(hp_lost as int),
            _ => 0,
        }
}

/// How many turns a won fight took.
pub open spec fn turns_taken() -> spec_fn(Outcome) -> int {
    |o: Outcome|
        match o {
            Outcome::Win { turns, .. } => turns as int,
            _ => 0,
        }
}

/// After any row of fights, every one of them counts: the tally holds as many trials as there were
/// fights, as many wins and stalls as there were among them, and the health lost and the turns
/// taken in all the won ones together.
pub proof fn every_fight_counts(fights: Seq<Outcome>)
    requires
        fights.len() <= u32::MAX,
        forall|k: int|
            0 <= k < fights.len() ==> (#[trigger] fights[k] matches Outcome::Win { turns, .. }
                ==> turns >= 0),
    ensures
        fight_tally(fights).wf(),
        fight_tally(fights).trials == fights.len(),
        fight_tally(fights).wins == total_of(fights, is_a_win()),
        fight_tally(fights).stalls == total_of(fights, is_a_stall()),
        fight_tally(fights).hp_lost_on_win == total_of(fights, health_lost()),
        fight_tally(fights).turns_on_win == total_of(fights, turns_taken()),
    decreases fights.len(),
{
    if fights.len() == 0 {
        assert(fights =~= Seq::empty());
        one_more_adds_to_the_total(fights, is_a_win(), Outcome::Loss);
        one_more_adds_to_the_total(fights, is_a_stall(), Outcome::Loss);
        one_more_adds_to_the_total(fights, health_lost(), Outcome::Loss);
        one_more_adds_to_the_total(fights, turns_taken(), Outcome::Loss);
    } else {
        let shorter = fights.drop_last();
        assert forall|k: int| 0 <= k < shorter.len() implies (
        #[trigger] shorter[k] matches Outcome::Win { turns, .. } ==> turns >= 0) by {
            assert(shorter[k] == fights[k]);
        }
        every_fight_counts(shorter);
        one_more_adds_to_the_total(shorter, is_a_win(), fights.last());
        one_more_adds_to_the_total(shorter, is_a_stall(), fights.last());
        one_more_adds_to_the_total(shorter, health_lost(), fights.last());
        one_more_adds_to_the_total(shorter, turns_taken(), fights.last());
        assert(shorter.push(fights.last()) =~= fights);
        assert(fights[fights.len() - 1] == fights.last());
    }
}

/// One for a climb that was cleared.
pub open spec fn is_a_clear() -> spec_fn(Climb) -> int {
    |c: Climb|
        match c {
            Some(RunResult::Cleared { .. }) => 1,
            _ => 0,
        }
}

/// The health left at the end of a cleared climb.
pub open spec fn health_kept() -> spec_fn(Climb) -> int {
    |c: Climb|
        match c {
            Some(RunResult::Cleared { hp, .. }) => hp as int,
            _ => 0,
        }
}

/// The floor that a cleared climb came to.
pub open spec fn floor_cleared() -> spec_fn(Climb) -> int {
    |c: Climb|
        match c {
            Some(RunResult::Cleared { floor, .. }) => floor as int,
            _ => 0,
        }
}

/// One for a climb that ended in death.
pub open spec fn is_a_death() -> spec_fn(Climb) -> int {
    |c: Climb|
        match c {
            Some(RunResult::Died { .. }) => 1,
            _ => 0,
        }
}

/// The floor that a climb ended on in death.
pub open spec fn floor_died_on() -> spec_fn(Climb) -> int {
    |c: Climb|
        match c {
            Some(RunResult::Died { floor }) => floor as int,
            _ => 0,
        }
}

/// One for a climb that was given up.
pub open spec fn is_given_up() -> spec_fn(Climb) -> int {
    |c: Climb|
        if c == Some(RunResult::Stalled) {
            1int
        } else {
            0
        }
}

/// One for a climb that broke off in an error.
pub open spec fn is_an_error() -> spec_fn(Climb) -> int {
    |c: Climb|
        if c is None {
            1int
        } else {
            0
        }
}

/// After any row of climbs, every one of them counts: the tally holds how many were cleared, ended
/// in death, were given up or broke off, and the health and the floors of all the cleared ones and
/// of all the deaths together.
pub proof fn every_climb_counts(climbs: Seq<Climb>)
    requires
        climbs.len() <= u32::MAX,
    ensures
        tally(climbs).trials == climbs.len(),
        tally(climbs).cleared == total_of(climbs, is_a_clear()),
        tally(climbs).hp_sum == total_of(climbs, health_kept()),
        tally(climbs).floor_sum == total_of(climbs, floor_cleared()),
        tally(climbs).deaths == total_of(climbs, is_a_death()),
        tally(climbs).death_floor_sum == total_of(climbs, floor_died_on()),
        tally(climbs).stalls == total_of(climbs, is_given_up()),
        tally(climbs).errors == total_of(climbs, is_an_error()),
    decreases climbs.len(),
{
    a_tally_counts_every_climb(climbs);
    let shorter = if climbs.len() == 0 {
        climbs
    } else {
        climbs.drop_last()
    };
    let last = if climbs.len() == 0 {
        None
    } else {
        climbs.last()
    };
    one_more_adds_to_the_total(shorter, is_a_clear(), last);
    one_more_adds_to_the_total(shorter, health_kept(), last);
    one_more_adds_to_the_total(shorter, floor_cleared(), last);
    one_more_adds_to_the_total(shorter, is_a_death(), last);
    one_more_adds_to_the_total(shorter, floor_died_on(), last);
    one_more_adds_to_the_total(shorter, is_given_up(), last);
    one_more_adds_to_the_total(shorter, is_an_error(), last);
    if climbs.len() == 0 {
        assert(climbs =~= Seq::empty());
    } else {
        every_climb_counts(shorter);
        a_tally_counts_every_climb(shorter);
        assert(shorter.push(last) =~= climbs);
    }
}

/// The mean fitness of a row of climbs is the mean of what each comes to: three units and one for
/// each hundred and sixty points of health where it was cleared, one unit for each eighty-five
/// floors where it ended in death, and nothing otherwise.
pub proof fn fitness_is_the_mean(climbs: Seq<Climb>, r: (i128, i128))
    requires
        0 < climbs.len() <= u32::MAX,
        call_ensures(RunStats::fitness, (&tally(climbs),), r),
    ensures
        r.1 > 0,
        r.0 * 160 * 85 * climbs.len() == r.1 * (3 * 160 * 85 * total_of(climbs, is_a_clear()) + 85
            * total_of(climbs, health_kept()) + 160 * total_of(climbs, floor_died_on())),
{
    every_climb_counts(climbs);
    a_tally_counts_every_climb(climbs);
    let n = climbs.len() as int;
    let t = tally(climbs);
    let clears = t.cleared as int;
    let hp = t.hp_sum as int;
    let floors = t.death_floor_sum as int;
    assert(r.0 * 160 * 85 * n == r.1 * (3 * 160 * 85 * clears + 85 * hp + 160 * floors))
        by (nonlinear_arith)
        requires
            r.0 == 8160 * clears + 17 * hp + 32 * floors,
            r.1 == 2720 * n,
    ;
}

} // verus!
