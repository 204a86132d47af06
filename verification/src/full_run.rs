//! The player for a whole climb: a fight goes to the player it holds for that, and every other
//! choice is made by simple rules.

use crate::agent::CombatAgent;
use crate::cards::{
    card_value, removal_of, removal_value, value_of, CardClass, DeckCard,
};
use crate::game::{Game, Potion, RelicClass};
use crate::pick::{first_max, first_max_is_greatest, first_max_of, ints};
use crate::route::{can_navigate, deck_fits, hp_frac, hp_left, map_nav, route_pick, ways_on_map};
use crate::score::{Fixed, Score};
use crate::step::{
    all_named, any_named, first_named, first_named_is_named, first_of, has_kind, has_name, indices_of, is_named,
    positions_named_are_exact, OfferedStep,
};
use crate::text::{contains, holds_text, lowercase, to_lower};
use crate::weights::{weights_at, Weights};
use vstd::prelude::*;

verus! {

/// The player for a whole climb.
#[derive(Debug)]
pub struct FullRunAgent<C, S> {
    /// The player that fights.
    pub combat: C,
    /// What the other choices are weighed with.
    pub w: Weights<S>,
}

/// `i`, or the first step where there is no such.
pub open spec fn or_first(i: Option<usize>) -> usize {
    match i {
        Some(i) => i,
        None => 0,
    }
}

/// How good a blessing is, by its description: to be rid of a card before all, then a relic, and
/// a lost relic last.
pub open spec fn blessing_merit(d: Seq<char>) -> int {
    if holds_text(d, "RemoveCard"@) || holds_text(d, "RemoveOne"@) {
        100
    } else if holds_text(d, "CommonRelic"@) {
        80
    } else if holds_text(d, "GainMaxHPSmall"@) {
        60
    } else if holds_text(d, "TransformOne"@) {
        50
    } else if holds_text(d, "RandomUncommonColorless"@) {
        45
    } else if holds_text(d, "RandomPotion"@) {
        30
    } else if holds_text(d, "RemoveRelic"@) {
        -100
    } else {
        0
    }
}

/// How good a blessing is, by its description.
pub fn blessing_score(d: &str) -> (r: i32)
    ensures
        r == blessing_merit(d@),
{
    if contains(d, "RemoveCard") || contains(d, "RemoveOne") {
        100
    } else if contains(d, "CommonRelic") {
        80
    } else if contains(d, "GainMaxHPSmall") {
        60
    } else if contains(d, "TransformOne") {
        50
    } else if contains(d, "RandomUncommonColorless") {
        45
    } else if contains(d, "RandomPotion") {
        30
    } else if contains(d, "RemoveRelic") {
        -100
    } else {
        0
    }
}

/// How good the blessings at `idxs` are.
pub open spec fn blessing_merits(steps: Seq<OfferedStep>, idxs: Seq<usize>) -> Seq<int> {
    Seq::new(idxs.len(), |k: int| blessing_merit(steps[idxs[k] as int].description@))
}

/// The blessing to choose: the best, the first of equals.
pub open spec fn blessing_pick(steps: Seq<OfferedStep>) -> usize {
    let idxs = all_named(steps, "ChooseBlessingStep"@);
    if idxs.len() == 0 {
        0
    } else {
        idxs[first_max(blessing_merits(steps, idxs))]
    }
}

/// Chooses a blessing: to thin the deck where that is offered, else what lasts.
pub fn blessing(steps: &Vec<OfferedStep>) -> (i: usize)
    ensures
        i == blessing_pick(steps@),
        steps@.len() > 0 ==> i < steps@.len(),
{
    let idxs: Vec<usize> = indices_of(steps, "ChooseBlessingStep");
    if idxs.len() == 0 {
        return 0;
    }
    let mut scores: Vec<i32> = Vec::new();
    let mut k: usize = 0;
    while k < idxs.len()
        invariant
            k <= idxs@.len(),
            forall|j: int| 0 <= j < idxs@.len() ==> #[trigger] idxs@[j] < steps@.len(),
            scores@.len() == k,
            forall|j: int|
                0 <= j < k ==> #[trigger] scores@[j] == blessing_merit(
                    steps@[idxs@[j] as int].description@,
                ),
        decreases idxs@.len() - k,
    {
        let i: usize = idxs[k];
        scores.push(blessing_score(steps[i].description.as_str()));
        k = k + 1;
    }
    assert(ints(scores@) =~= blessing_merits(steps@, idxs@));
    idxs[first_max_of(&scores)]
}

/// Where a blessing that rids the deck of a card is on offer, such a one is chosen.
pub proof fn the_deck_is_thinned_if_offered(steps: Seq<OfferedStep>, i: int)
    requires
        steps.len() <= usize::MAX,
        0 <= i < steps.len(),
        is_named(steps[i], "ChooseBlessingStep"@),
        holds_text(steps[i].description@, "RemoveCard"@) || holds_text(
            steps[i].description@,
            "RemoveOne"@,
        ),
    ensures
        blessing_pick(steps) < steps.len(),
        is_named(steps[blessing_pick(steps) as int], "ChooseBlessingStep"@),
        holds_text(steps[blessing_pick(steps) as int].description@, "RemoveCard"@) || holds_text(
            steps[blessing_pick(steps) as int].description@,
            "RemoveOne"@,
        ),
{
    let idxs = all_named(steps, "ChooseBlessingStep"@);
    positions_named_are_exact(steps, "ChooseBlessingStep"@, steps.len() as int);
    assert(idxs.contains(i as usize));
    let k = choose|k: int| 0 <= k < idxs.len() && idxs[k] == i as usize;
    let merits = blessing_merits(steps, idxs);
    first_max_is_greatest(merits);
    assert(merits[k] == 100);
    assert(idxs[first_max(merits)] < steps.len());
}

/// A potion slot is free.
pub open spec fn has_free_slot(potions: Seq<Option<Potion>>) -> bool {
    exists|i: int| 0 <= i < potions.len() && #[trigger] potions[i] is None
}

fn any_free_slot(potions: &Vec<Option<Potion>>) -> (r: bool)
    ensures
        r == has_free_slot(potions@),
{
    let mut i: usize = 0;
    while i < potions.len()
        invariant
            i <= potions@.len(),
            forall|j: int| 0 <= j < i ==> #[trigger] potions@[j] is Some,
        decreases potions@.len() - i,
    {
        if potions[i].is_none() {
            assert(potions@[i as int] is None);
            return true;
        }
        i = i + 1;
    }
    false
}

/// The values of the cards in the first `n` packs, pack after pack.
pub open spec fn pack_values(packs: Seq<Vec<CardClass>>, n: int) -> Seq<int>
    decreases n,
{
    if n <= 0 {
        Seq::empty()
    } else {
        pack_values(packs, n - 1) + card_values(packs[n - 1]@)
    }
}

/// The values of the cards.
pub open spec fn card_values(cards: Seq<CardClass>) -> Seq<int> {
    Seq::new(cards.len(), |i: int| value_of(cards[i]))
}

/// The greatest of the values, or the least number there is where there is none.
pub open spec fn best_value(values: Seq<int>) -> int {
    if values.len() == 0 {
        i32::MIN as int
    } else {
        values[first_max(values)]
    }
}

/// The step to take among the rewards of a fight: gold, relics and, where a slot is free, potions
/// first; then the best card of all packs, if it is worth taking; else to leave.
pub open spec fn rewards_pick<S: Score>(game: Game, w: Weights<S>) -> usize {
    let steps = game.steps@;
    let values = pack_values(game.rewards.cards@, game.rewards.cards@.len() as int);
    let cards = all_named(steps, "CardRewardStep"@);
    if any_named(steps, "GoldRewardStep"@) {
        or_first(first_named(steps, "GoldRewardStep"@))
    } else if any_named(steps, "StolenGoldRewardStep"@) {
        or_first(first_named(steps, "StolenGoldRewardStep"@))
    } else if any_named(steps, "RelicRewardStep"@) {
        or_first(first_named(steps, "RelicRewardStep"@))
    } else if has_free_slot(game.potions@) && any_named(steps, "PotionRewardStep"@) {
        or_first(first_named(steps, "PotionRewardStep"@))
    } else if S::reaches(S::whole(best_value(values) as i32), w.reward_take) && first_max(values)
        < cards.len() {
        cards[first_max(values)]
    } else {
        or_first(first_named(steps, "RewardExitStep"@))
    }
}

/// Where one may leave, a card is taken only if the best of all packs is worth taking.
pub proof fn no_card_below_the_bar_is_taken<S: Score>(game: Game, w: Weights<S>)
    requires
        game.steps@.len() <= usize::MAX,
        any_named(game.steps@, "RewardExitStep"@),
        is_named(game.steps@[rewards_pick(game, w) as int], "CardRewardStep"@),
    ensures
        S::reaches(
            S::whole(
                best_value(
                    pack_values(game.rewards.cards@, game.rewards.cards@.len() as int),
                ) as i32,
            ),
            w.reward_take,
        ),
{
    reveal_strlit("GoldRewardStep");
    reveal_strlit("StolenGoldRewardStep");
    reveal_strlit("RelicRewardStep");
    reveal_strlit("PotionRewardStep");
    reveal_strlit("CardRewardStep");
    reveal_strlit("RewardExitStep");
    assert("CardRewardStep"@[0] == 'C');
    first_named_is_named(game.steps@, "GoldRewardStep"@);
    first_named_is_named(game.steps@, "StolenGoldRewardStep"@);
    first_named_is_named(game.steps@, "RelicRewardStep"@);
    first_named_is_named(game.steps@, "PotionRewardStep"@);
    first_named_is_named(game.steps@, "RewardExitStep"@);
}

/// The values of the cards in all packs, pack after pack.
fn values_of_packs(packs: &Vec<Vec<CardClass>>) -> (values: Vec<i32>)
    ensures
        ints(values@) == pack_values(packs@, packs@.len() as int),
{
    let mut values: Vec<i32> = Vec::new();
    let mut p: usize = 0;
    assert(ints(values@) =~= pack_values(packs@, 0));
    while p < packs.len()
        invariant
            p <= packs@.len(),
            ints(values@) == pack_values(packs@, p as int),
        decreases packs@.len() - p,
    {
        let ghost before = values@;
        let mut c: usize = 0;
        while c < packs[p].len()
            invariant
                p < packs@.len(),
                c <= packs@[p as int]@.len(),
                ints(values@) =~= ints(before) + card_values(packs@[p as int]@).take(c as int),
            decreases packs@[p as int]@.len() - c,
        {
            let ghost cards = card_values(packs@[p as int]@);
            assert(cards.take(c + 1) =~= cards.take(c as int).push(cards[c as int]));
            let ghost earlier = values@;
            values.push(card_value(packs[p][c]));
            assert(ints(values@) =~= ints(earlier).push(cards[c as int]));
            c = c + 1;
        }
        assert(card_values(packs@[p as int]@).take(c as int) =~= card_values(packs@[p as int]@));
        p = p + 1;
    }
    values
}

/// Picks among the rewards of a fight.
pub fn rewards<S: Score>(game: &Game, w: &Weights<S>) -> (i: usize)
    ensures
        i == rewards_pick(*game, *w),
        game.steps@.len() > 0 ==> i < game.steps@.len(),
{
    let steps: &Vec<OfferedStep> = &game.steps;
    match first_of(steps, "GoldRewardStep") {
        Some(i) => {
            return i;
        },
        None => {},
    }
    match first_of(steps, "StolenGoldRewardStep") {
        Some(i) => {
            return i;
        },
        None => {},
    }
    match first_of(steps, "RelicRewardStep") {
        Some(i) => {
            return i;
        },
        None => {},
    }
    if any_free_slot(&game.potions) {
        match first_of(steps, "PotionRewardStep") {
            Some(i) => {
                return i;
            },
            None => {},
        }
    }
    let cards: Vec<usize> = indices_of(steps, "CardRewardStep");
    if cards.len() > 0 {
        let values: Vec<i32> = values_of_packs(&game.rewards.cards);
        let best: usize = first_max_of(&values);
        let best_v: i32 = if values.len() == 0 {
            i32::MIN
        } else {
            values[best]
        };
        assert(best_v == best_value(ints(values@)));
        if S::from_int(best_v).at_least(w.reward_take) && best < cards.len() {
            return cards[best];
        }
    }
    proof {
        let values = pack_values(game.rewards.cards@, game.rewards.cards@.len() as int);
        if values.len() > 0 {
            first_max_is_greatest(values);
        }
    }
    match first_of(steps, "RewardExitStep") {
        Some(i) => i,
        None => 0,
    }
}

/// The step to take at a campfire: to dig; else to rest when hurt enough, or to upgrade.
pub open spec fn campfire_pick<S: Score>(game: Game, w: Weights<S>) -> usize {
    let steps = game.steps@;
    let rest = first_named(steps, "CampfireRestStep"@);
    let upgrade = first_named(steps, "CampfireUpgradeStep"@);
    match first_named(steps, "CampfireDigStep"@) {
        Some(i) => i,
        None => match (rest, upgrade) {
            (Some(r), Some(u)) => if S::above(w.rest_hp, hp_left::<S>(game)) {
                r
            } else {
                u
            },
            (Some(r), None) => r,
            (None, Some(u)) => u,
            (None, None) => 0,
        },
    }
}

/// Picks what to do at a campfire.
pub fn campfire<S: Score>(game: &Game, w: &Weights<S>) -> (i: usize)
    ensures
        i == campfire_pick(*game, *w),
        game.steps@.len() > 0 ==> i < game.steps@.len(),
{
    let steps: &Vec<OfferedStep> = &game.steps;
    match first_of(steps, "CampfireDigStep") {
        Some(i) => {
            return i;
        },
        None => {},
    }
    let rest: Option<usize> = first_of(steps, "CampfireRestStep");
    let upgrade: Option<usize> = first_of(steps, "CampfireUpgradeStep");
    match (rest, upgrade) {
        (Some(r), Some(u)) => {
            let hp: S = hp_frac(game);
            if w.rest_hp.exceeds(hp) {
                r
            } else {
                u
            }
        },
        (Some(r), None) => r,
        (None, Some(u)) => u,
        (None, None) => 0,
    }
}

/// The deck holds a card that it would rather lose.
pub open spec fn wants_removal(deck: Seq<DeckCard>) -> bool {
    exists|i: int| 0 <= i < deck.len() && removal_of((#[trigger] deck[i]).class) > 0
}

fn any_unwanted(deck: &Vec<DeckCard>) -> (r: bool)
    ensures
        r == wants_removal(deck@),
{
    let mut i: usize = 0;
    while i < deck.len()
        invariant
            i <= deck@.len(),
            forall|j: int| 0 <= j < i ==> removal_of((#[trigger] deck@[j]).class) <= 0,
        decreases deck@.len() - i,
    {
        if removal_value(deck[i].class) > 0 {
            assert(removal_of(deck@[i as int].class) > 0);
            return true;
        }
        i = i + 1;
    }
    false
}

/// The prices of those of the first `n` relics that `gold` pays for.
pub open spec fn relic_prices(relics: Seq<(RelicClass, i32)>, gold: int, n: int) -> Seq<int>
    decreases n,
{
    if n <= 0 {
        Seq::empty()
    } else if gold >= relics[n - 1].1 {
        relic_prices(relics, gold, n - 1).push(relics[n - 1].1 as int)
    } else {
        relic_prices(relics, gold, n - 1)
    }
}

/// The cheapest of the first `n` prices, the first of equals; a price of `i32::MAX` counts as
/// none.
pub open spec fn cheapest(prices: Seq<int>, n: int) -> Option<int>
    decreases n,
{
    if n <= 0 {
        None
    } else {
        let earlier = cheapest(prices, n - 1);
        let limit = match earlier {
            Some(k) => prices[k],
            None => i32::MAX as int,
        };
        if prices[n - 1] < limit {
            Some(n - 1)
        } else {
            earlier
        }
    }
}

/// The values of those of the first `n` cards that `gold` pays for.
pub open spec fn shop_values(cards: Seq<(CardClass, i32)>, gold: int, n: int) -> Seq<int>
    decreases n,
{
    if n <= 0 {
        Seq::empty()
    } else if gold >= cards[n - 1].1 {
        shop_values(cards, gold, n - 1).push(value_of(cards[n - 1].0))
    } else {
        shop_values(cards, gold, n - 1)
    }
}

/// The step that buys the cheapest relic that can be paid for, where there is one.
pub open spec fn relic_purchase(game: Game) -> Option<usize> {
    let prices = relic_prices(
        game.shop.relics@,
        game.gold as int,
        game.shop.relics@.len() as int,
    );
    let buys = all_named(game.steps@, "ShopBuyRelicStep"@);
    match cheapest(prices, prices.len() as int) {
        Some(k) => if k < buys.len() {
            Some(buys[k])
        } else {
            None
        },
        None => None,
    }
}

/// The step that buys the best card that can be paid for, where it is strong enough.
pub open spec fn card_purchase<S: Score>(game: Game, w: Weights<S>) -> Option<usize> {
    let values = shop_values(game.shop.cards@, game.gold as int, game.shop.cards@.len() as int);
    let buys = all_named(game.steps@, "ShopBuyCardStep"@);
    if S::reaches(S::whole(best_value(values) as i32), w.shop_card) && values.len() > 0 && first_max(
        values,
    ) < buys.len() {
        Some(buys[first_max(values)])
    } else {
        None
    }
}

/// The step to take in a shop: to have a card removed that the deck would rather lose; else the
/// cheapest relic; else the best card, if it is strong enough; else to leave.
pub open spec fn shop_pick<S: Score>(game: Game, w: Weights<S>) -> usize {
    let steps = game.steps@;
    if any_named(steps, "ShopRemoveCardStep"@) && wants_removal(game.master_deck@) {
        or_first(first_named(steps, "ShopRemoveCardStep"@))
    } else if relic_purchase(game) is Some {
        relic_purchase(game).unwrap()
    } else if card_purchase(game, w) is Some {
        card_purchase(game, w).unwrap()
    } else {
        or_first(first_named(steps, "ShopExitStep"@))
    }
}

fn buy_relic(game: &Game) -> (r: Option<usize>)
    ensures
        r == relic_purchase(*game),
        r matches Some(i) ==> i < game.steps@.len(),
{
    let ghost relics = game.shop.relics@;
    let mut best: Option<usize> = None;
    let mut best_price: i32 = i32::MAX;
    let mut ord: usize = 0;
    let mut i: usize = 0;
    let ghost mut prices: Seq<int> = Seq::empty();
    while i < game.shop.relics.len()
        invariant
            i <= game.shop.relics@.len(),
            ord <= i,
            prices == relic_prices(game.shop.relics@, game.gold as int, i as int),
            ord == prices.len(),
            match best {
                None => cheapest(prices, ord as int) is None && best_price == i32::MAX,
                Some(k) => cheapest(prices, ord as int) == Some(k as int) && k < ord && best_price
                    == prices[k as int],
            },
        decreases game.shop.relics@.len() - i,
    {
        let price: i32 = game.shop.relics[i].1;
        if game.gold >= price {
            let ghost before = prices;
            proof {
                prices = prices.push(price as int);
                lemma_cheapest_prefix(before, prices, ord as int);
            }
            if price < best_price {
                best_price = price;
                best = Some(ord);
            }
            ord = ord + 1;
        }
        i = i + 1;
    }
    match best {
        Some(k) => {
            let buys: Vec<usize> = indices_of(&game.steps, "ShopBuyRelicStep");
            if k < buys.len() {
                Some(buys[k])
            } else {
                None
            }
        },
        None => None,
    }
}

proof fn lemma_cheapest_prefix(shorter: Seq<int>, longer: Seq<int>, n: int)
    requires
        n <= shorter.len() <= longer.len(),
        forall|i: int| 0 <= i < shorter.len() ==> #[trigger] shorter[i] == longer[i],
    ensures
        cheapest(shorter, n) == cheapest(longer, n),
        cheapest(shorter, n) matches Some(k) ==> 0 <= k < n,
    decreases n,
{
    if n > 0 {
        lemma_cheapest_prefix(shorter, longer, n - 1);
    }
}

/// Relic `j` is the cheapest of the first `n` that the gold pays for, the first of equals. A price
/// of `i32::MAX` counts as none.
pub open spec fn is_cheapest(relics: Seq<(RelicClass, i32)>, gold: int, n: int, j: int) -> bool {
    &&& 0 <= j < n
    &&& relics[j].1 <= gold
    &&& relics[j].1 < i32::MAX
    &&& forall|i: int|
        0 <= i < n && (#[trigger] relics[i]).1 <= gold ==> relics[j].1 <= relics[i].1
    &&& forall|i: int|
        0 <= i < j && (#[trigger] relics[i]).1 <= gold ==> relics[j].1 < relics[i].1
}

/// How many of the relics before relic `j` the gold pays for.
pub open spec fn paid_for_before(relics: Seq<(RelicClass, i32)>, gold: int, j: int) -> int {
    relic_prices(relics, gold, j).len() as int
}

proof fn lemma_cheapest(relics: Seq<(RelicClass, i32)>, gold: int, n: int)
    requires
        0 <= n <= relics.len(),
    ensures
        ({
            let prices = relic_prices(relics, gold, n);
            match cheapest(prices, prices.len() as int) {
                Some(k) => 0 <= k < prices.len() && exists|j: int| #[trigger]
                    is_cheapest(relics, gold, n, j) && k == paid_for_before(relics, gold, j)
                        && prices[k] == relics[j].1,
                None => forall|i: int|
                    0 <= i < n ==> (#[trigger] relics[i]).1 > gold || relics[i].1 == i32::MAX,
            }
        }),
    decreases n,
{
    if n > 0 {
        lemma_cheapest(relics, gold, n - 1);
        let shorter = relic_prices(relics, gold, n - 1);
        let longer = relic_prices(relics, gold, n);
        let before = cheapest(shorter, shorter.len() as int);
        let price = relics[n - 1].1;
        if gold >= price {
            assert(longer == shorter.push(price as int));
            lemma_cheapest_prefix(shorter, longer, shorter.len() as int);
            match before {
                Some(k) => {
                    let j = choose|j: int| #[trigger]
                        is_cheapest(relics, gold, n - 1, j) && k == paid_for_before(
                            relics,
                            gold,
                            j,
                        ) && shorter[k] == relics[j].1;
                    assert(longer[k] == shorter[k]);
                    if price < relics[j].1 {
                        assert(is_cheapest(relics, gold, n, n - 1));
                    } else {
                        assert(is_cheapest(relics, gold, n, j));
                    }
                },
                None => {
                    if price < i32::MAX {
                        assert(is_cheapest(relics, gold, n, n - 1));
                    }
                },
            }
        } else {
            assert(longer == shorter);
            if let Some(k) = before {
                let j = choose|j: int| #[trigger]
                    is_cheapest(relics, gold, n - 1, j) && k == paid_for_before(relics, gold, j)
                        && shorter[k] == relics[j].1;
                assert(is_cheapest(relics, gold, n, j));
            }
        }
    }
}

/// The relic that is bought is the cheapest that the gold pays for, the first of equals, and the
/// step that buys it is the one as far along among the steps that buy relics as it is among the
/// relics that the gold pays for. Without such a relic none is bought.
pub proof fn the_cheapest_relic_is_bought(game: Game)
    ensures
        ({
            let relics = game.shop.relics@;
            let gold = game.gold as int;
            let n = relics.len() as int;
            let buys = all_named(game.steps@, "ShopBuyRelicStep"@);
            &&& (exists|j: int| #[trigger] is_cheapest(relics, gold, n, j)) <==> (exists|i: int|
                0 <= i < n && (#[trigger] relics[i]).1 <= gold && relics[i].1 < i32::MAX)
            &&& forall|j: int| #[trigger]
                is_cheapest(relics, gold, n, j) ==> relic_purchase(game) == (if paid_for_before(
                    relics,
                    gold,
                    j,
                ) < buys.len() {
                    Some(buys[paid_for_before(relics, gold, j)])
                } else {
                    None
                })
            &&& (forall|j: int| !#[trigger] is_cheapest(relics, gold, n, j)) ==> relic_purchase(
                game,
            ) is None
        }),
{
    let relics = game.shop.relics@;
    let gold = game.gold as int;
    let n = relics.len() as int;
    let prices = relic_prices(relics, gold, n);
    lemma_cheapest(relics, gold, n);
    if let Some(k) = cheapest(prices, prices.len() as int) {
        let bought = choose|j: int| #[trigger]
            is_cheapest(relics, gold, n, j) && k == paid_for_before(relics, gold, j) && prices[k]
                == relics[j].1;
        assert(relics[bought].1 <= gold);
        assert forall|j: int| #[trigger] is_cheapest(relics, gold, n, j) implies j == bought by {
            assert(relics[j].1 <= relics[bought].1 && relics[bought].1 <= relics[j].1);
        }
    } else {
        assert forall|j: int| !#[trigger] is_cheapest(relics, gold, n, j) by {
            if 0 <= j < n {
                assert(relics[j].1 > gold || relics[j].1 == i32::MAX);
            }
        }
    }
}

fn buy_card<S: Score>(game: &Game, w: &Weights<S>) -> (r: Option<usize>)
    ensures
        r == card_purchase(*game, *w),
        r matches Some(i) ==> i < game.steps@.len(),
{
    let mut values: Vec<i32> = Vec::new();
    let mut i: usize = 0;
    assert(ints(values@) =~= shop_values(game.shop.cards@, game.gold as int, 0));
    while i < game.shop.cards.len()
        invariant
            i <= game.shop.cards@.len(),
            ints(values@) == shop_values(game.shop.cards@, game.gold as int, i as int),
        decreases game.shop.cards@.len() - i,
    {
        let (class, price) = game.shop.cards[i];
        if game.gold >= price {
            let ghost before = values@;
            values.push(card_value(class));
            assert(ints(values@) =~= ints(before).push(value_of(class)));
        }
        i = i + 1;
    }
    let best: usize = first_max_of(&values);
    let best_v: i32 = if values.len() == 0 {
        i32::MIN
    } else {
        values[best]
    };
    assert(best_v == best_value(ints(values@)));
    if S::from_int(best_v).at_least(w.shop_card) && values.len() > 0 {
        let buys: Vec<usize> = indices_of(&game.steps, "ShopBuyCardStep");
        if best < buys.len() {
            return Some(buys[best]);
        }
    }
    None
}

/// Picks what to do in a shop; one thing is bought at a time.
pub fn shop<S: Score>(game: &Game, w: &Weights<S>) -> (i: usize)
    ensures
        i == shop_pick(*game, *w),
        game.steps@.len() > 0 ==> i < game.steps@.len(),
{
    match first_of(&game.steps, "ShopRemoveCardStep") {
        Some(i) => {
            if any_unwanted(&game.master_deck) {
                return i;
            }
        },
        None => {},
    }
    match buy_relic(game) {
        Some(i) => {
            return i;
        },
        None => {},
    }
    match buy_card(game, w) {
        Some(i) => {
            return i;
        },
        None => {},
    }
    match first_of(&game.steps, "ShopExitStep") {
        Some(i) => i,
        None => 0,
    }
}

/// The step uses up or throws away a potion.
pub open spec fn is_potion_step(step: OfferedStep) -> bool {
    is_named(step, "UsePotionStep"@) || is_named(step, "DiscardPotionStep"@)
}

fn spends_potion(step: &OfferedStep) -> (r: bool)
    ensures
        r == is_potion_step(*step),
{
    has_name(step, "UsePotionStep") || has_name(step, "DiscardPotionStep")
}

/// A text in lower case that speaks of leaving things alone.
pub open spec fn is_safe(text: Seq<char>) -> bool {
    ||| holds_text(text, "leave"@)
    ||| holds_text(text, "ignore"@)
    ||| holds_text(text, "skip"@)
    ||| holds_text(text, "outrun"@)
    ||| holds_text(text, "refuse"@)
    ||| holds_text(text, "continue"@)
}

fn sounds_safe(text: &str) -> (r: bool)
    ensures
        r == is_safe(text@),
{
    contains(text, "leave") || contains(text, "ignore") || contains(text, "skip") || contains(
        text,
        "outrun",
    ) || contains(text, "refuse") || contains(text, "continue")
}

/// The first step at or after `from` that spends no potion and whose text in lower case speaks of
/// leaving things alone, or the number of steps.
pub open spec fn safe_from(steps: Seq<OfferedStep>, lowered: Seq<Seq<char>>, from: int) -> int
    decreases steps.len() - from,
{
    if from < 0 || from >= steps.len() {
        steps.len() as int
    } else if !is_potion_step(steps[from]) && is_safe(lowered[from]) {
        from
    } else {
        safe_from(steps, lowered, from + 1)
    }
}

/// The first step at or after `from` that spends no potion, or the number of steps.
pub open spec fn harmless_from(steps: Seq<OfferedStep>, from: int) -> int
    decreases steps.len() - from,
{
    if from < 0 || from >= steps.len() {
        steps.len() as int
    } else if !is_potion_step(steps[from]) {
        from
    } else {
        harmless_from(steps, from + 1)
    }
}

/// The step to take where nothing else is known: the first that leaves things alone; else the
/// first that spends no potion; else the first.
pub open spec fn generic_pick(steps: Seq<OfferedStep>, lowered: Seq<Seq<char>>) -> usize {
    if safe_from(steps, lowered, 0) < steps.len() {
        safe_from(steps, lowered, 0) as usize
    } else if harmless_from(steps, 0) < steps.len() {
        harmless_from(steps, 0) as usize
    } else {
        0
    }
}

/// The texts that the strings hold.
pub open spec fn texts(strings: Seq<String>) -> Seq<Seq<char>> {
    Seq::new(strings.len(), |i: int| strings[i]@)
}

/// Picks a step where nothing else is known, given the descriptions in lower case.
pub fn generic_from(steps: &Vec<OfferedStep>, lowered: &Vec<String>) -> (i: usize)
    requires
        lowered@.len() == steps@.len(),
    ensures
        i == generic_pick(steps@, texts(lowered@)),
        steps@.len() > 0 ==> i < steps@.len(),
{
    let mut i: usize = 0;
    while i < steps.len()
        invariant
            lowered@.len() == steps@.len(),
            i <= steps@.len(),
            safe_from(steps@, texts(lowered@), 0) == safe_from(steps@, texts(lowered@), i as int),
        decreases steps@.len() - i,
    {
        if !spends_potion(&steps[i]) && sounds_safe(lowered[i].as_str()) {
            return i;
        }
        i = i + 1;
    }
    let mut j: usize = 0;
    while j < steps.len()
        invariant
            j <= steps@.len(),
            safe_from(steps@, texts(lowered@), 0) == steps@.len(),
            harmless_from(steps@, 0) == harmless_from(steps@, j as int),
        decreases steps@.len() - j,
    {
        if !spends_potion(&steps[j]) {
            return j;
        }
        j = j + 1;
    }
    0
}

/// The descriptions of the steps in lower case.
pub open spec fn lower_texts(steps: Seq<OfferedStep>) -> Seq<Seq<char>> {
    Seq::new(steps.len(), |i: int| lowercase(steps[i].description@))
}

/// Picks a step where nothing else is known.
pub fn generic(steps: &Vec<OfferedStep>) -> (i: usize)
    ensures
        i == generic_pick(steps@, lower_texts(steps@)),
        steps@.len() > 0 ==> i < steps@.len(),
{
    let mut lowered: Vec<String> = Vec::new();
    let mut i: usize = 0;
    while i < steps.len()
        invariant
            i <= steps@.len(),
            lowered@.len() == i,
            forall|j: int|
                0 <= j < i ==> (#[trigger] lowered@[j])@ == lowercase(steps@[j].description@),
        decreases steps@.len() - i,
    {
        lowered.push(to_lower(steps[i].description.as_str()));
        i = i + 1;
    }
    assert(texts(lowered@) =~= lower_texts(steps@));
    generic_from(steps, &lowered)
}

proof fn lemma_safe_from(steps: Seq<OfferedStep>, lowered: Seq<Seq<char>>, from: int)
    requires
        from >= 0,
    ensures
        safe_from(steps, lowered, from) < steps.len() ==> {
            &&& from <= safe_from(steps, lowered, from)
            &&& !is_potion_step(steps[safe_from(steps, lowered, from)])
            &&& is_safe(lowered[safe_from(steps, lowered, from)])
        },
        safe_from(steps, lowered, from) >= steps.len() ==> forall|i: int|
            from <= i < steps.len() && !#[trigger] is_potion_step(steps[i]) ==> !is_safe(
                lowered[i],
            ),
    decreases steps.len() - from,
{
    if from < steps.len() {
        lemma_safe_from(steps, lowered, from + 1);
    }
}

proof fn lemma_harmless_from(steps: Seq<OfferedStep>, from: int)
    requires
        from >= 0,
    ensures
        harmless_from(steps, from) < steps.len() ==> from <= harmless_from(steps, from)
            && !is_potion_step(steps[harmless_from(steps, from)]),
        harmless_from(steps, from) >= steps.len() ==> forall|i: int|
            from <= i < steps.len() ==> #[trigger] is_potion_step(steps[i]),
    decreases steps.len() - from,
{
    if from < steps.len() {
        lemma_harmless_from(steps, from + 1);
    }
}

/// No potion is spent while any other step is on offer, and where a step other than a potion's
/// leaves things alone, such a one is taken.
pub proof fn no_potion_is_burnt(steps: Seq<OfferedStep>, lowered: Seq<Seq<char>>, i: int)
    requires
        steps.len() <= usize::MAX,
        0 <= i < steps.len(),
        !is_potion_step(steps[i]),
    ensures
        generic_pick(steps, lowered) < steps.len(),
        !is_potion_step(steps[generic_pick(steps, lowered) as int]),
        is_safe(lowered[i]) ==> is_safe(lowered[generic_pick(steps, lowered) as int]),
{
    lemma_safe_from(steps, lowered, 0);
    lemma_harmless_from(steps, 0);
}

/// The closures compute `p` and `s`.
pub open spec fn computes<P: Fn(&DeckCard) -> bool, F: Fn(CardClass) -> i32>(
    pred: P,
    score: F,
    p: spec_fn(DeckCard) -> bool,
    s: spec_fn(CardClass) -> int,
) -> bool {
    &&& forall|c: DeckCard, b: bool| #[trigger] call_ensures(pred, (&c,), b) ==> b == p(c)
    &&& forall|class: CardClass, v: i32| #[trigger]
        call_ensures(score, (class,), v) ==> v == s(class)
}

/// `pred` can be asked about every card of the deck, and `score` about every card of which `pred`
/// may hold; it is asked about no other.
pub open spec fn can_score<P: Fn(&DeckCard) -> bool, F: Fn(CardClass) -> i32>(
    deck: Seq<DeckCard>,
    pred: P,
    score: F,
) -> bool {
    &&& forall|i: int| 0 <= i < deck.len() ==> call_requires(pred, (&#[trigger] deck[i],))
    &&& forall|i: int|
        0 <= i < deck.len() && call_ensures(pred, (&#[trigger] deck[i],), true) ==> call_requires(
            score,
            (deck[i].class,),
        )
}

/// The scores by `s` of those of the first `n` cards of the deck for which `p` holds.
pub open spec fn deck_scores(
    deck: Seq<DeckCard>,
    p: spec_fn(DeckCard) -> bool,
    s: spec_fn(CardClass) -> int,
    n: int,
) -> Seq<int>
    decreases n,
{
    if n <= 0 {
        Seq::empty()
    } else if p(deck[n - 1]) {
        deck_scores(deck, p, s, n - 1).push(s(deck[n - 1].class))
    } else {
        deck_scores(deck, p, s, n - 1)
    }
}

/// The step called `name` that goes with the card of the greatest score: the steps of that name
/// go, in order, with the cards of the deck for which `p` holds.
pub open spec fn deck_pick(
    game: Game,
    name: Seq<char>,
    p: spec_fn(DeckCard) -> bool,
    s: spec_fn(CardClass) -> int,
) -> usize {
    let idxs = all_named(game.steps@, name);
    let best = first_max(deck_scores(game.master_deck@, p, s, game.master_deck@.len() as int));
    if idxs.len() == 0 {
        0
    } else if best < idxs.len() {
        idxs[best]
    } else {
        idxs[0]
    }
}

proof fn lemma_deck_scores(
    deck: Seq<DeckCard>,
    p: spec_fn(DeckCard) -> bool,
    s: spec_fn(CardClass) -> int,
    n: int,
)
    requires
        0 <= n <= deck.len(),
    ensures
        forall|i: int|
            0 <= i < n && p(#[trigger] deck[i]) ==> deck_scores(deck, p, s, n).contains(
                s(deck[i].class),
            ),
    decreases n,
{
    if n > 0 {
        lemma_deck_scores(deck, p, s, n - 1);
        let shorter = deck_scores(deck, p, s, n - 1);
        let longer = deck_scores(deck, p, s, n);
        assert forall|i: int| 0 <= i < n && p(#[trigger] deck[i]) implies longer.contains(
            s(deck[i].class),
        ) by {
            if i < n - 1 {
                let k = choose|k: int| 0 <= k < shorter.len() && shorter[k] == s(deck[i].class);
                assert(longer[k] == s(deck[i].class));
            } else {
                assert(longer[longer.len() - 1] == s(deck[i].class));
            }
        }
    }
}

/// Where there is one step for each fitting card of the deck, the step that is picked goes with a
/// card than which no fitting card scores higher, the first of those that score as high.
pub proof fn the_best_card_is_picked(
    game: Game,
    name: Seq<char>,
    p: spec_fn(DeckCard) -> bool,
    s: spec_fn(CardClass) -> int,
    i: int,
)
    requires
        0 <= i < game.master_deck@.len(),
        p(game.master_deck@[i]),
        all_named(game.steps@, name).len() == deck_scores(
            game.master_deck@,
            p,
            s,
            game.master_deck@.len() as int,
        ).len(),
    ensures
        ({
            let scores = deck_scores(game.master_deck@, p, s, game.master_deck@.len() as int);
            &&& deck_pick(game, name, p, s) == all_named(game.steps@, name)[first_max(scores)]
            &&& s(game.master_deck@[i].class) <= scores[first_max(scores)]
            &&& forall|k: int|
                0 <= k < first_max(scores) ==> #[trigger] scores[k] < scores[first_max(scores)]
        }),
{
    let deck = game.master_deck@;
    let scores = deck_scores(deck, p, s, deck.len() as int);
    lemma_deck_scores(deck, p, s, deck.len() as int);
    assert(scores.contains(s(deck[i].class)));
    let k = choose|k: int| 0 <= k < scores.len() && scores[k] == s(deck[i].class);
    first_max_is_greatest(scores);
    assert(scores[k] <= scores[first_max(scores)]);
}

/// Picks the step called `name` whose card of the deck has the greatest score.
pub fn master_pick<P: Fn(&DeckCard) -> bool, F: Fn(CardClass) -> i32>(
    game: &Game,
    name: &str,
    pred: P,
    score: F,
) -> (i: usize)
    requires
        any_named(game.steps@, name@) ==> can_score(game.master_deck@, pred, score),
    ensures
        forall|p: spec_fn(DeckCard) -> bool, s: spec_fn(CardClass) -> int| #[trigger]
            computes(pred, score, p, s) ==> i == deck_pick(*game, name@, p, s),
        game.steps@.len() > 0 ==> i < game.steps@.len(),
{
    let idxs: Vec<usize> = indices_of(&game.steps, name);
    if idxs.len() == 0 {
        return 0;
    }
    let mut scores: Vec<i32> = Vec::new();
    let mut k: usize = 0;
    let ghost deck = game.master_deck@;
    assert(forall|p: spec_fn(DeckCard) -> bool, s: spec_fn(CardClass) -> int| #[trigger]
        computes(pred, score, p, s) ==> ints(scores@) =~= deck_scores(deck, p, s, 0));
    while k < game.master_deck.len()
        invariant
            deck == game.master_deck@,
            k <= deck.len(),
            can_score(deck, pred, score),
            forall|p: spec_fn(DeckCard) -> bool, s: spec_fn(CardClass) -> int| #[trigger]
                computes(pred, score, p, s) ==> ints(scores@) == deck_scores(deck, p, s, k as int),
        decreases deck.len() - k,
    {
        let card: &DeckCard = &game.master_deck[k];
        let ghost before = scores@;
        let fitting: bool = pred(card);
        assert(call_ensures(pred, (&deck[k as int],), fitting));
        if fitting {
            let v: i32 = score(card.class);
            scores.push(v);
            assert(ints(scores@) =~= ints(before).push(v as int));
        }
        assert forall|p: spec_fn(DeckCard) -> bool, s: spec_fn(CardClass) -> int| #[trigger]
            computes(pred, score, p, s) implies ints(scores@) == deck_scores(
            deck,
            p,
            s,
            k + 1,
        ) by {
            assert(ints(before) == deck_scores(deck, p, s, k as int));
            assert(fitting == p(deck[k as int]));
        }
        k = k + 1;
    }
    let best: usize = first_max_of(&scores);
    if best < idxs.len() {
        idxs[best]
    } else {
        idxs[0]
    }
}

/// Holds for the cards that can leave the deck.
pub open spec fn removable() -> spec_fn(DeckCard) -> bool {
    |c: DeckCard| c.can_remove
}

/// Holds for the cards that can be upgraded.
pub open spec fn upgradable() -> spec_fn(DeckCard) -> bool {
    |c: DeckCard| c.can_upgrade
}

/// How much the deck wants to be rid of a card.
pub open spec fn by_removal() -> spec_fn(CardClass) -> int {
    |class: CardClass| removal_of(class)
}

/// How much the deck wants a card.
pub open spec fn by_value() -> spec_fn(CardClass) -> int {
    |class: CardClass| value_of(class)
}

fn pick_removal(game: &Game, name: &str) -> (i: usize)
    ensures
        i == deck_pick(*game, name@, removable(), by_removal()),
        game.steps@.len() > 0 ==> i < game.steps@.len(),
{
    let pred = |c: &DeckCard| -> (b: bool)
        ensures
            b == c.can_remove,
        { c.can_remove };
    let score = |class: CardClass| -> (v: i32)
        ensures
            v == removal_of(class),
        { removal_value(class) };
    let i: usize = master_pick(game, name, pred, score);
    assert(computes(pred, score, removable(), by_removal()));
    i
}

fn pick_upgrade(game: &Game, name: &str) -> (i: usize)
    ensures
        i == deck_pick(*game, name@, upgradable(), by_value()),
        game.steps@.len() > 0 ==> i < game.steps@.len(),
{
    let pred = |c: &DeckCard| -> (b: bool)
        ensures
            b == c.can_upgrade,
        { c.can_upgrade };
    let score = |class: CardClass| -> (v: i32)
        ensures
            v == value_of(class),
        { card_value(class) };
    let i: usize = master_pick(game, name, pred, score);
    assert(computes(pred, score, upgradable(), by_value()));
    i
}

/// A reward of a fight is among the steps.
pub open spec fn at_rewards(steps: Seq<OfferedStep>) -> bool {
    ||| any_named(steps, "GoldRewardStep"@)
    ||| any_named(steps, "StolenGoldRewardStep"@)
    ||| any_named(steps, "RelicRewardStep"@)
    ||| any_named(steps, "PotionRewardStep"@)
    ||| any_named(steps, "CardRewardStep"@)
    ||| any_named(steps, "RewardExitStep"@)
    ||| any_named(steps, "SingingBowlStep"@)
    ||| any_named(steps, "SapphireKeyStep"@)
}

/// Something to do at a campfire is among the steps.
pub open spec fn at_campfire(steps: Seq<OfferedStep>) -> bool {
    ||| any_named(steps, "CampfireRestStep"@)
    ||| any_named(steps, "CampfireUpgradeStep"@)
    ||| any_named(steps, "CampfireDigStep"@)
    ||| any_named(steps, "CampfireLiftStep"@)
    ||| any_named(steps, "CampfireTokeStep"@)
}

fn offers_rewards(steps: &Vec<OfferedStep>) -> (r: bool)
    ensures
        r == at_rewards(steps@),
{
    has_kind(steps, "GoldRewardStep") || has_kind(steps, "StolenGoldRewardStep") || has_kind(
        steps,
        "RelicRewardStep",
    ) || has_kind(steps, "PotionRewardStep") || has_kind(steps, "CardRewardStep") || has_kind(
        steps,
        "RewardExitStep",
    ) || has_kind(steps, "SingingBowlStep") || has_kind(steps, "SapphireKeyStep")
}

fn offers_campfire(steps: &Vec<OfferedStep>) -> (r: bool)
    ensures
        r == at_campfire(steps@),
{
    has_kind(steps, "CampfireRestStep") || has_kind(steps, "CampfireUpgradeStep") || has_kind(
        steps,
        "CampfireDigStep",
    ) || has_kind(steps, "CampfireLiftStep") || has_kind(steps, "CampfireTokeStep")
}

/// The step that is picked outside a fight. What kinds of steps are on offer says what is to be
/// decided.
pub open spec fn outside_pick<S: Score>(game: Game, w: Weights<S>) -> usize {
    let steps = game.steps@;
    if steps.len() == 0 {
        0
    } else if any_named(steps, "AscendStep"@) {
        route_pick(game, w)
    } else if any_named(steps, "ChooseBlessingStep"@) {
        blessing_pick(steps)
    } else if at_rewards(steps) {
        rewards_pick(game, w)
    } else if any_named(steps, "OpenChestStep"@) || any_named(steps, "SkipChestStep"@) {
        or_first(first_named(steps, "OpenChestStep"@))
    } else if at_campfire(steps) {
        campfire_pick(game, w)
    } else if any_named(steps, "ChooseRemoveFromMasterStep"@) {
        deck_pick(game, "ChooseRemoveFromMasterStep"@, removable(), by_removal())
    } else if any_named(steps, "ChooseTransformMasterStep"@) {
        deck_pick(game, "ChooseTransformMasterStep"@, removable(), by_removal())
    } else if any_named(steps, "ChooseUpgradeMasterStep"@) {
        deck_pick(game, "ChooseUpgradeMasterStep"@, upgradable(), by_value())
    } else if any_named(steps, "BossRewardChooseStep"@) {
        or_first(first_named(steps, "BossRewardChooseStep"@))
    } else if any_named(steps, "ShopExitStep"@) {
        shop_pick(game, w)
    } else {
        generic_pick(steps, lower_texts(steps))
    }
}

/// What the choices outside a fight rest on: where the way over the map is to be chosen, the map
/// is whole, the steps lead to places on it, and the deck can be added up.
pub open spec fn can_choose(game: Game) -> bool {
    any_named(game.steps@, "AscendStep"@) ==> {
        &&& game.map.wf()
        &&& ways_on_map(game)
        &&& deck_fits(game.master_deck@)
    }
}

/// Whether the choices outside a fight can be made.
pub fn is_choosable(game: &Game) -> (r: bool)
    ensures
        r == can_choose(*game),
{
    !has_kind(&game.steps, "AscendStep") || can_navigate(game)
}

impl<C: CombatAgent> FullRunAgent<C, Fixed> {
    /// A player with the tuned weights.
    pub fn new(combat: C) -> (r: FullRunAgent<C, Fixed>)
        ensures
            r.combat == combat,
            r.w == weights_at(Seq::new(13, |i: int| 0)),
    {
        FullRunAgent { combat, w: Weights::default() }
    }
}

impl<C: CombatAgent, S: Score> FullRunAgent<C, S> {
    /// A player with the given weights.
    pub fn with_weights(combat: C, w: Weights<S>) -> (r: FullRunAgent<C, S>)
        ensures
            r.combat == combat,
            r.w == w,
    {
        FullRunAgent { combat, w }
    }

    /// Picks a step outside a fight.
    pub fn choose_outside(&self, game: &Game) -> (i: usize)
        requires
            can_choose(*game),
        ensures
            i == outside_pick(*game, self.w),
            game.steps@.len() > 0 ==> i < game.steps@.len(),
    {
        let steps: &Vec<OfferedStep> = &game.steps;
        if steps.len() == 0 {
            return 0;
        }
        if has_kind(steps, "AscendStep") {
            return map_nav(game, &self.w);
        }
        if has_kind(steps, "ChooseBlessingStep") {
            return blessing(steps);
        }
        if offers_rewards(steps) {
            return rewards(game, &self.w);
        }
        if has_kind(steps, "OpenChestStep") || has_kind(steps, "SkipChestStep") {
            return match first_of(steps, "OpenChestStep") {
                Some(i) => i,
                None => 0,
            };
        }
        if offers_campfire(steps) {
            return campfire(game, &self.w);
        }
        if has_kind(steps, "ChooseRemoveFromMasterStep") {
            return pick_removal(game, "ChooseRemoveFromMasterStep");
        }
        if has_kind(steps, "ChooseTransformMasterStep") {
            return pick_removal(game, "ChooseTransformMasterStep");
        }
        if has_kind(steps, "ChooseUpgradeMasterStep") {
            return pick_upgrade(game, "ChooseUpgradeMasterStep");
        }
        if has_kind(steps, "BossRewardChooseStep") {
            return match first_of(steps, "BossRewardChooseStep") {
                Some(i) => i,
                None => 0,
            };
        }
        if has_kind(steps, "ShopExitStep") {
            return shop(game, &self.w);
        }
        generic(steps)
    }
}

impl<C: CombatAgent, S: Score> CombatAgent for FullRunAgent<C, S> {
    open spec fn can_act(&self, game: Game) -> bool {
        if game.in_combat {
            self.combat.can_act(game)
        } else {
            can_choose(game)
        }
    }

    /// In a fight the player that fights picks; outside, the rules do, and the player stays as it
    /// was.
    open spec fn picks(
        before: FullRunAgent<C, S>,
        game: Game,
        after: FullRunAgent<C, S>,
        i: usize,
    ) -> bool {
        if game.in_combat {
            &&& C::picks(before.combat, game, after.combat, i)
            &&& after.w == before.w
        } else {
            &&& i == outside_pick(game, before.w)
            &&& after == before
        }
    }

    fn act(&mut self, game: &Game) -> usize {
        if game.in_combat {
            self.combat.act(game)
        } else {
            self.choose_outside(game)
        }
    }
}

} // verus!
