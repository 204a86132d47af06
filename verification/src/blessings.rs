//! The blessings on offer before a climb.

use crate::game::{same_board, Action, Game, Potion, RelicClass};
use crate::rng::{rand_slice, random_below, Rand};
use crate::state::{
    BoxedState, ChooseRemoveFromMasterGameState, ChooseTransformMasterGameState,
    ChooseUpgradeMasterGameState, GameState, RunActionsGameState, Steps,
};
use crate::step::{Step, StepKind};
use vstd::arithmetic::div_mod::lemma_div_denominator;
use vstd::arithmetic::power2::{lemma2_to64, lemma_pow2_adds, lemma_pow2_pos, lemma_pow2_unfold, pow2};
use crate::sums::{one_more_adds_to_the_total, total_of};
use vstd::prelude::*;

verus! {

/// A gift at the start of a climb.
#[derive(Clone, Copy, PartialEq, Eq, Debug, Structural)]
pub enum Blessing {
    RemoveCard,
    UpgradeCard,
    TransformCard,
    RandomRareCard,
    ThreePotions,
    CommonRelic,
    TenPercentMaxHp,
    NeowsLament,
    HundredGold,
}

/// The blessings that change the deck.
pub const CARD_BLESSINGS: [Blessing; 4] = [
    Blessing::RemoveCard,
    Blessing::UpgradeCard,
    Blessing::TransformCard,
    Blessing::RandomRareCard,
];

/// The blessings that give something else.
pub const BONUS_BLESSINGS: [Blessing; 5] = [
    Blessing::ThreePotions,
    Blessing::CommonRelic,
    Blessing::TenPercentMaxHp,
    Blessing::NeowsLament,
    Blessing::HundredGold,
];

/// The smallest power of two by which `n` must be divided to fit in twenty-four bits.
pub open spec fn grain(n: nat) -> nat
    decreases n,
{
    if n < 0x100_0000 {
        1
    } else {
        2 * grain(n / 2)
    }
}

/// The number nearest to `n` that has at most twenty-four significant bits; halfway between two
/// of them, the one whose last bit is zero.
pub open spec fn to_single(n: nat) -> nat {
    let g = grain(n);
    let q = n / g;
    let r = n % g;
    if 2 * r > g || (2 * r == g && q % 2 == 1) {
        (q + 1) * g
    } else {
        q * g
    }
}

/// A tenth of a number of hit points, cut off after the point, as single-precision arithmetic
/// has it: one tenth is 13421773 / 2^27 there, and the number and the product are rounded to
/// twenty-four significant bits.
pub open spec fn tenth_of(hp: int) -> int {
    let size: nat = if hp < 0 {
        (-hp) as nat
    } else {
        hp as nat
    };
    let tenth = to_single(to_single(size) * 13421773) / 0x800_0000;
    if hp < 0 {
        -(tenth as int)
    } else {
        tenth as int
    }
}

proof fn lemma_grain_is_pow2(n: nat, b: nat) -> (e: nat)
    requires
        n < 0x100_0000 * pow2(b),
    ensures
        grain(n) == pow2(e),
        e <= b,
    decreases n,
{
    if n < 0x100_0000 {
        lemma2_to64();
        0
    } else {
        lemma2_to64();
        assert(b > 0) by {
            if b == 0 {
                assert(pow2(b) == 1);
            }
        }
        lemma_pow2_unfold(b);
        let e = lemma_grain_is_pow2(n / 2, (b - 1) as nat);
        lemma_pow2_unfold((e + 1) as nat);
        e + 1
    }
}

/// Up to two to the twenty-fourth hit points, the tenth is the whole number of tens.
pub proof fn tenth_is_exact(hp: int)
    requires
        0 <= hp <= 0x100_0000,
    ensures
        tenth_of(hp) == hp / 10,
{
    let n = hp as nat;
    let small = grain(n);
    assert(small == (if n == 0x100_0000 {
        2nat
    } else {
        1nat
    })) by {
        assert(grain(0x80_0000) == 1);
    }
    assert((n / small) * small == n && n % small == 0) by (nonlinear_arith)
        requires
            small == 1 || (small == 2 && n == 0x100_0000),
    ;
    assert(to_single(n) == n);
    let x: nat = n * 13421773;
    lemma2_to64();
    let e = lemma_grain_is_pow2(x, 24);
    let g = grain(x);
    lemma_pow2_pos(e);
    lemma_pow2_adds(e, (27 - e) as nat);
    let c = pow2((27 - e) as nat);
    assert(g * c == 0x800_0000);
    assert(g <= 0x100_0000) by {
        lemma_pow2_adds(e, (24 - e) as nat);
        lemma_pow2_pos((24 - e) as nat);
        let d = pow2((24 - e) as nat);
        assert(g <= g * d) by (nonlinear_arith)
            requires
                d >= 1,
                g >= 0,
        ;
    }
    let q = x / g;
    let r = x % g;
    let k: nat = n / 10;
    let y = to_single(x);
    vstd::arithmetic::div_mod::lemma_fundamental_div_mod(x as int, g as int);
    assert(x == g * q + r);
    assert(q * g == g * q) by (nonlinear_arith);
    assert((q + 1) * g == g * q + g) by (nonlinear_arith);
    assert(y == q * g || (y == (q + 1) * g && 2 * r >= g));
    assert(2 * y <= 2 * x + g);
    assert(y < (k + 1) * 0x800_0000);
    assert(y >= k * 0x800_0000) by {
        assert(k * 0x800_0000 <= x);
        assert(k * c <= q) by {
            assert((k * c) * g == k * 0x800_0000) by (nonlinear_arith)
                requires
                    g * c == 0x800_0000,
            ;
            if k * c > q {
                assert((k * c) * g >= (q + 1) * g) by (nonlinear_arith)
                    requires
                        k * c >= q + 1,
                        g > 0,
                ;
            }
        }
        assert((k * c) * g <= q * g) by (nonlinear_arith)
            requires
                k * c <= q,
                g > 0,
        ;
        assert((k * c) * g == k * 0x800_0000) by (nonlinear_arith)
            requires
                g * c == 0x800_0000,
        ;
    }
}

/// The number nearest to `n` that has at most twenty-four significant bits.
fn round_to_single(n: u64) -> (r: u64)
    requires
        n < 0x100_0000_0000_0000,
    ensures
        r == to_single(n as nat),
        r <= 2 * n,
{
    let mut q: u64 = n;
    let mut g: u64 = 1;
    assert(n / 1 == n);
    while q >= 0x100_0000
        invariant
            n < 0x100_0000_0000_0000,
            g >= 1,
            q == n / g,
            g * q <= n,
            grain(n as nat) == g * grain(q as nat),
        decreases q,
    {
        assert(g < 0x1_0000_0000) by (nonlinear_arith)
            requires
                g * q <= n,
                q >= 0x100_0000,
                n < 0x100_0000_0000_0000,
        ;
        proof {
            lemma_div_denominator(n as int, g as int, 2);
            assert(g * (2 * grain((q / 2) as nat)) == (g * 2) * grain((q / 2) as nat))
                by (nonlinear_arith);
            assert((2 * g) * (q / 2) <= g * q) by (nonlinear_arith)
                requires
                    2 * (q / 2) <= q,
                    g >= 1,
            ;
        }
        q = q / 2;
        g = g * 2;
    }
    assert(g * 1 == g);
    assert(g * q == q * g) by (nonlinear_arith);
    proof {
        vstd::arithmetic::div_mod::lemma_fundamental_div_mod(n as int, g as int);
    }
    let r: u64 = n - q * g;
    assert(r == n % g);
    assert((q + 1) * g == q * g + g) by (nonlinear_arith);
    if 2 * r > g || (2 * r == g && q % 2 == 1) {
        (q + 1) * g
    } else {
        q * g
    }
}

/// A tenth of a number of hit points, cut off after the point, as single-precision arithmetic
/// has it.
pub fn tenth(hp: i32) -> (r: i32)
    ensures
        r == tenth_of(hp as int),
{
    let wide: i64 = hp as i64;
    let size: u64 = if wide < 0 {
        (-wide) as u64
    } else {
        wide as u64
    };
    let product: u64 = round_to_single(size) * 13421773;
    let part: u64 = round_to_single(product) / 0x800_0000;
    if wide < 0 {
        -(part as i32)
    } else {
        part as i32
    }
}

/// The number of potion slots among the first `n` that are free.
pub open spec fn free_slots(potions: Seq<Option<Potion>>, n: int) -> int
    decreases n,
{
    if n <= 0 {
        0
    } else if potions[n - 1] is None {
        free_slots(potions, n - 1) + 1
    } else {
        free_slots(potions, n - 1)
    }
}

/// How many potions the blessing of three potions gives: three, or as many as find a place.
pub open spec fn potions_given(game: Game) -> int {
    let free = free_slots(game.potions@, game.potions@.len() as int);
    if free < 3 {
        free
    } else {
        3
    }
}

fn count_free(potions: &Vec<Option<Potion>>) -> (n: usize)
    ensures
        n == free_slots(potions@, potions@.len() as int),
{
    let mut n: usize = 0;
    let mut i: usize = 0;
    while i < potions.len()
        invariant
            i <= potions@.len(),
            n <= i,
            n == free_slots(potions@, i as int),
        decreases potions@.len() - i,
    {
        if potions[i].is_none() {
            n = n + 1;
        }
        i = i + 1;
    }
    n
}

impl Blessing {
    /// The blessing's own name.
    pub open spec fn name(&self) -> Seq<char> {
        match *self {
            Blessing::RemoveCard => "RemoveCard"@,
            Blessing::UpgradeCard => "UpgradeCard"@,
            Blessing::TransformCard => "TransformCard"@,
            Blessing::RandomRareCard => "RandomRareCard"@,
            Blessing::ThreePotions => "ThreePotions"@,
            Blessing::CommonRelic => "CommonRelic"@,
            Blessing::TenPercentMaxHp => "TenPercentMaxHp"@,
            Blessing::NeowsLament => "NeowsLament"@,
            Blessing::HundredGold => "HundredGold"@,
        }
    }

    /// What the blessing draws at random or takes from a pool is there.
    pub open spec fn can_grant(&self, game: Game) -> bool {
        match *self {
            Blessing::RandomRareCard => game.pools.rare_cards@.len() > 0,
            Blessing::ThreePotions => potions_given(game) > 0
                ==> game.pools.common_potions@.len() > 0,
            Blessing::CommonRelic => game.pools.common_relics@.len() > 0,
            _ => true,
        }
    }

    /// What the blessing does to the states of the game: a choice about the deck is put on top.
    pub open spec fn states_after(&self, states: Seq<BoxedState>) -> Seq<BoxedState> {
        match *self {
            Blessing::RemoveCard => states.push(
                BoxedState::ChooseRemoveFromMaster(
                    ChooseRemoveFromMasterGameState { num_cards_remaining: 1 },
                ),
            ),
            Blessing::UpgradeCard => states.push(
                BoxedState::ChooseUpgradeMaster(ChooseUpgradeMasterGameState),
            ),
            Blessing::TransformCard => states.push(
                BoxedState::ChooseTransformMaster(
                    ChooseTransformMasterGameState { num_cards_remaining: 1, upgrade: false },
                ),
            ),
            _ => states,
        }
    }

    /// What the blessing adds to the waiting actions of `game`, and what the random source holds
    /// then.
    pub open spec fn gift(&self, game: Game) -> (Seq<Action>, Seq<u64>) {
        let state = game.rng.state();
        match *self {
            Blessing::RandomRareCard => {
                let (i, after) = random_below(state, game.pools.rare_cards@.len() as usize);
                (
                    seq![Action::AddCardClassToMasterDeck(game.pools.rare_cards@[i as int])],
                    after,
                )
            },
            Blessing::ThreePotions => potions_drawn(
                game.pools.common_potions@,
                state,
                potions_given(game) as int,
            ),
            Blessing::CommonRelic => (
                seq![Action::GainRelic(game.pools.common_relics@[0])],
                state,
            ),
            Blessing::TenPercentMaxHp => (
                seq![Action::IncreaseMaxHP(tenth_of(game.player.max_hp as int) as i32)],
                state,
            ),
            Blessing::NeowsLament => (seq![Action::GainRelic(RelicClass::NeowsLament)], state),
            Blessing::HundredGold => (seq![Action::GainGold(100)], state),
            _ => (Seq::empty(), state),
        }
    }

    /// The blessing draws something at random.
    pub open spec fn draws(&self, game: Game) -> bool {
        match *self {
            Blessing::RandomRareCard => true,
            Blessing::ThreePotions => potions_given(game) > 0,
            _ => false,
        }
    }

    /// What is drawn among `actions` comes from the pools of `game`.
    pub open spec fn gives(&self, game: Game, actions: Seq<Action>) -> bool {
        match *self {
            Blessing::RandomRareCard => {
                &&& actions.len() == 1
                &&& exists|i: int|
                    0 <= i < game.pools.rare_cards@.len() && actions[0]
                        == Action::AddCardClassToMasterDeck(#[trigger] game.pools.rare_cards@[i])
            },
            Blessing::ThreePotions => {
                &&& actions.len() == potions_given(game)
                &&& forall|k: int|
                    0 <= k < actions.len() ==> is_common_potion(game, #[trigger] actions[k])
            },
            _ => true,
        }
    }

    /// What the blessing leaves of the common relics: the one that it gives is gone.
    pub open spec fn relics_after(&self, relics: Seq<RelicClass>) -> Seq<RelicClass> {
        match *self {
            Blessing::CommonRelic => relics.remove(0),
            _ => relics,
        }
    }

    /// `after` is `before` once the blessing is granted.
    pub open spec fn grants(&self, before: Game, after: Game) -> bool {
        &&& same_board(before, after)
        &&& after.state@ == self.states_after(before.state@)
        &&& after.state.traced() == before.state.traced()
        &&& after.action_queue@ == before.action_queue@ + self.gift(before).0
        &&& self.gives(before, self.gift(before).0)
        &&& after.rng.state() == self.gift(before).1
        &&& after.rng.seed() == before.rng.seed()
        &&& !self.draws(before) ==> after.rng == before.rng
        &&& after.pools.rare_cards@ == before.pools.rare_cards@
        &&& after.pools.common_potions@ == before.pools.common_potions@
        &&& after.pools.common_relics@ == self.relics_after(before.pools.common_relics@)
    }

    /// Draws the blessings on offer: one that changes the deck and one that gives something else.
    pub fn roll(rng: &mut Rand) -> (r: Vec<Blessing>)
        ensures
            r@.len() == 2,
            CARD_BLESSINGS@.contains(r@[0]),
            BONUS_BLESSINGS@.contains(r@[1]),
            ({
                let (i, then) = random_below(old(rng).state(), 4);
                let (j, after) = random_below(then, 5);
                &&& r@[0] == CARD_BLESSINGS@[i as int]
                &&& r@[1] == BONUS_BLESSINGS@[j as int]
                &&& final(rng).state() == after
            }),
            final(rng).seed() == old(rng).seed(),
    {
        let cards: [Blessing; 4] = CARD_BLESSINGS;
        let bonuses: [Blessing; 5] = BONUS_BLESSINGS;
        let card: Blessing = rand_slice(rng, cards.as_slice());
        let bonus: Blessing = rand_slice(rng, bonuses.as_slice());
        let mut r: Vec<Blessing> = Vec::new();
        r.push(card);
        r.push(bonus);
        r
    }

    /// Grants the blessing: a choice about the deck becomes the game's state, and every other
    /// gift is left to the engine as actions that wait.
    pub fn run(&self, game: &mut Game)
        requires
            self.can_grant(*old(game)),
        ensures
            self.grants(*old(game), *final(game)),
    {
        match self {
            Blessing::RemoveCard => {
                game.state.push_boxed_state(
                    BoxedState::ChooseRemoveFromMaster(
                        ChooseRemoveFromMasterGameState { num_cards_remaining: 1 },
                    ),
                );
            },
            Blessing::UpgradeCard => {
                game.state.push_boxed_state(
                    BoxedState::ChooseUpgradeMaster(ChooseUpgradeMasterGameState),
                );
            },
            Blessing::TransformCard => {
                game.state.push_boxed_state(
                    BoxedState::ChooseTransformMaster(
                        ChooseTransformMasterGameState { num_cards_remaining: 1, upgrade: false },
                    ),
                );
            },
            Blessing::RandomRareCard => {
                let card = rand_slice(&mut game.rng, game.pools.rare_cards.as_slice());
                game.action_queue.push_bot(Action::AddCardClassToMasterDeck(card));
            },
            Blessing::ThreePotions => {
                give_potions(game);
            },
            Blessing::CommonRelic => {
                let relic = game.pools.common_relics.remove(0);
                game.action_queue.push_bot(Action::GainRelic(relic));
            },
            Blessing::TenPercentMaxHp => {
                let amount: i32 = tenth(game.player.max_hp);
                game.action_queue.push_bot(Action::IncreaseMaxHP(amount));
            },
            Blessing::NeowsLament => {
                game.action_queue.push_bot(Action::GainRelic(RelicClass::NeowsLament));
            },
            Blessing::HundredGold => {
                game.action_queue.push_bot(Action::GainGold(100));
            },
        }
        proof {
            assert(game.action_queue@ =~= old(game).action_queue@ + self.gift(*old(game)).0);
        }
    }

    /// The blessing's own name.
    pub fn to_text(&self) -> (r: String)
        ensures
            r@ == self.name(),
    {
        match self {
            Blessing::RemoveCard => "RemoveCard".to_owned(),
            Blessing::UpgradeCard => "UpgradeCard".to_owned(),
            Blessing::TransformCard => "TransformCard".to_owned(),
            Blessing::RandomRareCard => "RandomRareCard".to_owned(),
            Blessing::ThreePotions => "ThreePotions".to_owned(),
            Blessing::CommonRelic => "CommonRelic".to_owned(),
            Blessing::TenPercentMaxHp => "TenPercentMaxHp".to_owned(),
            Blessing::NeowsLament => "NeowsLament".to_owned(),
            Blessing::HundredGold => "HundredGold".to_owned(),
        }
    }
}

/// The action hands out a potion of the common pool.
pub open spec fn is_common_potion(game: Game, action: Action) -> bool {
    exists|i: int|
        0 <= i < game.pools.common_potions@.len() && action == Action::GainPotion(
            #[trigger] game.pools.common_potions@[i],
        )
}

/// The actions that `n` draws of a potion from `pool` give, from a random source that holds
/// `state`, and what the source holds then.
pub open spec fn potions_drawn(pool: Seq<Potion>, state: Seq<u64>, n: int) -> (
    Seq<Action>,
    Seq<u64>,
)
    decreases n,
{
    if n <= 0 {
        (Seq::empty(), state)
    } else {
        let (actions, then) = potions_drawn(pool, state, n - 1);
        let (i, after) = random_below(then, pool.len() as usize);
        (actions.push(Action::GainPotion(pool[i as int])), after)
    }
}

/// Adds a random common potion for each free slot, three at most.
fn give_potions(game: &mut Game)
    requires
        Blessing::ThreePotions.can_grant(*old(game)),
    ensures
        Blessing::ThreePotions.grants(*old(game), *final(game)),
{
    let free: usize = count_free(&game.potions);
    let given: usize = if free < 3 {
        free
    } else {
        3
    };
    let ghost start = *game;
    let ghost queue = game.action_queue@;
    let ghost pool = game.pools.common_potions@;
    let ghost state = game.rng.state();
    let mut k: usize = 0;
    assert(queue =~= queue + potions_drawn(pool, state, 0).0);
    while k < given
        invariant
            k <= given,
            given == potions_given(start),
            given > 0 ==> start.pools.common_potions@.len() > 0,
            queue == start.action_queue@,
            pool == start.pools.common_potions@,
            state == start.rng.state(),
            same_board(start, *game),
            game.state == start.state,
            game.pools == start.pools,
            game.rng.seed() == start.rng.seed(),
            k == 0 ==> game.rng == start.rng,
            game.rng.state() == potions_drawn(pool, state, k as int).1,
            game.action_queue@ == queue + potions_drawn(pool, state, k as int).0,
            potions_drawn(pool, state, k as int).0.len() == k,
            forall|j: int|
                0 <= j < k ==> is_common_potion(
                    start,
                    #[trigger] potions_drawn(pool, state, k as int).0[j],
                ),
        decreases given - k,
    {
        let ghost earlier = potions_drawn(pool, state, k as int).0;
        let potion: Potion = rand_slice(&mut game.rng, game.pools.common_potions.as_slice());
        game.action_queue.push_bot(Action::GainPotion(potion));
        k = k + 1;
        proof {
            let now = potions_drawn(pool, state, k as int).0;
            assert(now =~= earlier.push(Action::GainPotion(potion)));
            assert(game.action_queue@ =~= queue + now);
            assert forall|j: int| 0 <= j < k implies is_common_potion(start, #[trigger] now[j]) by {
                if j < k - 1 {
                    assert(now[j] == earlier[j]);
                }
            }
        }
    }
}

/// A blessing is to be chosen.
#[derive(Debug)]
pub struct ChooseBlessingGameState {
    pub rewards: Vec<Blessing>,
}

impl GameState for ChooseBlessingGameState {
    open spec fn as_boxed(&self) -> BoxedState {
        BoxedState::ChooseBlessing(*self)
    }

    open spec fn can_fork(&self) -> bool {
        false
    }

    fn valid_steps(&self, game: &Game) -> (r: Option<Steps>)
        ensures
            r matches Some(steps) && steps.steps@ == self.rewards@.map_values(
                |b: Blessing| StepKind::ChooseBlessing(b),
            ),
    {
        let mut steps: Steps = Steps::default();
        let mut i: usize = 0;
        while i < self.rewards.len()
            invariant
                i <= self.rewards@.len(),
                steps.steps@ == self.rewards@.take(i as int).map_values(
                    |b: Blessing| StepKind::ChooseBlessing(b),
                ),
            decreases self.rewards@.len() - i,
        {
            steps.push(ChooseBlessingStep(self.rewards[i]));
            i = i + 1;
            assert(steps.steps@ =~= self.rewards@.take(i as int).map_values(
                |b: Blessing| StepKind::ChooseBlessing(b),
            ));
        }
        assert(self.rewards@.take(i as int) =~= self.rewards@);
        Some(steps)
    }

    fn boxed(self) -> BoxedState {
        BoxedState::ChooseBlessing(self)
    }

    fn clone_box(&self) -> BoxedState {
        unreached()
    }
}

/// Choosing a blessing.
#[derive(PartialEq, Eq, Debug, Structural)]
pub struct ChooseBlessingStep(pub Blessing);

impl Step for ChooseBlessingStep {
    open spec fn pops(&self) -> bool {
        true
    }

    open spec fn as_kind(&self) -> StepKind {
        StepKind::ChooseBlessing(self.0)
    }

    open spec fn words(&self, game: Game) -> Seq<char> {
        self.0.name()
    }

    open spec fn can_run(&self, game: Game) -> bool {
        self.0.can_grant(game)
    }

    fn should_pop_state(&self) -> bool {
        true
    }

    fn run(&self, game: &mut Game)
        ensures
            exists|mid: Game|
                {
                    &&& #[trigger] self.0.grants(*old(game), mid)
                    &&& same_board(mid, *final(game))
                    &&& final(game).state@ == mid.state@.push(
                        BoxedState::RunActions(RunActionsGameState),
                    )
                    &&& final(game).state.traced() == mid.state.traced()
                    &&& final(game).action_queue == mid.action_queue
                    &&& final(game).pools == mid.pools
                    &&& final(game).rng == mid.rng
                },
    {
        self.0.run(game);
        let ghost mid = *game;
        game.state.push_boxed_state(BoxedState::RunActions(RunActionsGameState));
        assert(self.0.grants(*old(game), mid));
    }

    fn description(&self, game: &Game) -> String {
        self.0.to_text()
    }

    fn boxed(&self) -> StepKind {
        StepKind::ChooseBlessing(self.0)
    }
}

/// One for a potion slot that is free.
pub open spec fn is_free() -> spec_fn(Option<Potion>) -> int {
    |slot: Option<Potion>|
        if slot is None {
            1int
        } else {
            0
        }
}

proof fn lemma_free_slots(potions: Seq<Option<Potion>>, n: int)
    requires
        0 <= n <= potions.len(),
    ensures
        free_slots(potions, n) == total_of(potions.take(n), is_free()),
        0 <= free_slots(potions, n) <= n,
    decreases n,
{
    if n == 0 {
        assert(potions.take(0) =~= Seq::empty());
        one_more_adds_to_the_total(potions, is_free(), None);
    } else {
        lemma_free_slots(potions, n - 1);
        one_more_adds_to_the_total(potions.take(n - 1), is_free(), potions[n - 1]);
        assert(potions.take(n - 1).push(potions[n - 1]) =~= potions.take(n));
    }
}

/// A blessing gives what it says and nothing else. A choice about the deck is put on top of the
/// states; every other gift waits behind what waits already: a rare card of the pool, a common
/// potion for each free slot but no more than three, the next common relic, which leaves its pool,
/// a tenth of the full health, the relic that the blessing is named after, or a hundred gold.
pub proof fn a_blessing_gives_what_it_says(b: Blessing, before: Game, after: Game)
    requires
        b.can_grant(before),
        b.grants(before, after),
    ensures
        ({
            let had = before.action_queue@.len();
            let added = after.action_queue@.skip(had as int);
            let free = total_of(before.potions@, is_free());
            let choice = b == Blessing::RemoveCard || b == Blessing::UpgradeCard || b
                == Blessing::TransformCard;
            &&& had <= after.action_queue@.len()
            &&& after.action_queue@.take(had as int) == before.action_queue@
            &&& choice ==> added.len() == 0 && after.state@.len() == before.state@.len() + 1
                && after.state@.drop_last() == before.state@
            &&& !choice ==> after.state@ == before.state@
            &&& b == Blessing::RemoveCard ==> after.state@.last()
                == BoxedState::ChooseRemoveFromMaster(
                ChooseRemoveFromMasterGameState { num_cards_remaining: 1 },
            )
            &&& b == Blessing::UpgradeCard ==> after.state@.last() is ChooseUpgradeMaster
            &&& b == Blessing::TransformCard ==> after.state@.last()
                == BoxedState::ChooseTransformMaster(
                ChooseTransformMasterGameState { num_cards_remaining: 1, upgrade: false },
            )
            &&& b == Blessing::ThreePotions ==> added.len() == (if free < 3 {
                free
            } else {
                3
            }) && forall|k: int|
                0 <= k < added.len() ==> exists|p: int|
                    0 <= p < before.pools.common_potions@.len() && #[trigger] added[k]
                        == Action::GainPotion(#[trigger] before.pools.common_potions@[p])
            &&& !choice && b != Blessing::ThreePotions ==> added.len() == 1
            &&& b == Blessing::RandomRareCard ==> exists|c: int|
                0 <= c < before.pools.rare_cards@.len() && added[0]
                    == Action::AddCardClassToMasterDeck(#[trigger] before.pools.rare_cards@[c])
            &&& b == Blessing::CommonRelic ==> {
                &&& added[0] == Action::GainRelic(before.pools.common_relics@[0])
                &&& before.pools.common_relics@ == seq![before.pools.common_relics@[0]]
                    + after.pools.common_relics@
            }
            &&& b != Blessing::CommonRelic ==> after.pools.common_relics@
                == before.pools.common_relics@
            &&& b == Blessing::TenPercentMaxHp && 0 <= before.player.max_hp <= 0x100_0000 ==> {
                &&& added[0] is IncreaseMaxHP
                &&& 10 * added[0]->IncreaseMaxHP_0 <= before.player.max_hp < 10
                    * added[0]->IncreaseMaxHP_0 + 10
            }
            &&& b == Blessing::NeowsLament ==> added[0] == Action::GainRelic(
                RelicClass::NeowsLament,
            )
            &&& b == Blessing::HundredGold ==> added[0] == Action::GainGold(100)
        }),
{
    let had = before.action_queue@.len() as int;
    let gift = b.gift(before).0;
    let added = after.action_queue@.skip(had);
    assert(added =~= gift);
    assert(after.action_queue@.take(had) =~= before.action_queue@);
    lemma_free_slots(before.potions@, before.potions@.len() as int);
    assert(before.potions@.take(before.potions@.len() as int) =~= before.potions@);
    if after.state@.len() > before.state@.len() {
        assert(after.state@.drop_last() =~= before.state@);
    }
    if b == Blessing::ThreePotions {
        assert forall|k: int| 0 <= k < added.len() implies exists|p: int|
            0 <= p < before.pools.common_potions@.len() && #[trigger] added[k]
                == Action::GainPotion(#[trigger] before.pools.common_potions@[p]) by {
            assert(is_common_potion(before, gift[k]));
        }
    }
    if b == Blessing::CommonRelic {
        let relics = before.pools.common_relics@;
        assert(seq![relics[0]] + relics.remove(0) =~= relics);
    }
    if b == Blessing::TenPercentMaxHp && 0 <= before.player.max_hp <= 0x100_0000 {
        tenth_is_exact(before.player.max_hp as int);
    }
}

} // verus!
