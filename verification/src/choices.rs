//! What the choices outside a fight can be relied on for, told from what is on offer alone.

use crate::agent::CombatAgent;
use crate::cards::{removal_of, value_of, CardClass, DeckCard};
use crate::full_run::{
    best_value, blessing, blessing_merit, blessing_score, blessing_merits, blessing_pick,
    by_removal, by_value, campfire, campfire_pick, can_choose, card_values, deck_pick, deck_scores,
    generic_from, generic_pick, harmless_from, is_cheapest, is_potion_step, is_safe, lower_texts,
    outside_pick, pack_values, paid_for_before, relic_purchase, removable, rewards, rewards_pick,
    safe_from, shop, shop_pick, shop_values, the_cheapest_relic_is_bought, upgradable,
    wants_removal, FullRunAgent,
};
use crate::game::Game;
use crate::pick::{first_max, first_max_is_greatest};
use crate::route::route_pick;
use crate::score::Score;
use crate::step::{
    all_named, any_named, first_named_is_named, is_named, positions_named_are_exact, OfferedStep,
};
use crate::sums::{one_more_adds_to_the_total, total_of};
use crate::text::holds_text;
use crate::weights::Weights;
use vstd::prelude::*;

verus! {

/// Step `i` is the first that goes by `name`.
pub open spec fn is_first_named(steps: Seq<OfferedStep>, name: Seq<char>, i: int) -> bool {
    &&& 0 <= i < steps.len()
    &&& is_named(steps[i], name)
    &&& forall|j: int| 0 <= j < i ==> !#[trigger] is_named(steps[j], name)
}

/// No step goes by `name`.
pub open spec fn none_named(steps: Seq<OfferedStep>, name: Seq<char>) -> bool {
    forall|j: int| 0 <= j < steps.len() ==> !#[trigger] is_named(steps[j], name)
}

/// The cards of all the packs, pack after pack.
pub open spec fn cards_on_offer(game: Game) -> Seq<CardClass> {
    Seq::new(game.rewards.cards@.len(), |p: int| game.rewards.cards@[p]@).flatten()
}

/// Card `k` is worth as much as any of the cards, and more than those before it.
pub open spec fn is_best_card(cards: Seq<CardClass>, k: int) -> bool {
    &&& 0 <= k < cards.len()
    &&& forall|j: int| 0 <= j < cards.len() ==> value_of(#[trigger] cards[j]) <= value_of(cards[k])
    &&& forall|j: int| 0 <= j < k ==> value_of(#[trigger] cards[j]) < value_of(cards[k])
}

proof fn lemma_pack_values(game: Game, n: int)
    requires
        0 <= n <= game.rewards.cards@.len(),
    ensures
        ({
            let packs = Seq::new(game.rewards.cards@.len(), |p: int| game.rewards.cards@[p]@);
            pack_values(game.rewards.cards@, n) == card_values(packs.take(n).flatten_alt())
        }),
    decreases n,
{
    let packs = Seq::new(game.rewards.cards@.len(), |p: int| game.rewards.cards@[p]@);
    if n == 0 {
        assert(packs.take(0) =~= Seq::empty());
        assert(pack_values(game.rewards.cards@, 0) =~= card_values(Seq::empty()));
    } else {
        lemma_pack_values(game, n - 1);
        let fewer = packs.take(n - 1);
        assert(packs.take(n).drop_last() =~= fewer);
        assert(packs.take(n).last() == packs[n - 1]);
        assert(card_values(fewer.flatten_alt() + packs[n - 1]) =~= card_values(fewer.flatten_alt())
            + card_values(packs[n - 1]));
    }
}

proof fn lemma_values_on_offer(game: Game)
    ensures
        pack_values(game.rewards.cards@, game.rewards.cards@.len() as int) == card_values(
            cards_on_offer(game),
        ),
{
    let packs = Seq::new(game.rewards.cards@.len(), |p: int| game.rewards.cards@[p]@);
    lemma_pack_values(game, packs.len() as int);
    assert(packs.take(packs.len() as int) =~= packs);
    packs.lemma_flatten_and_flatten_alt_are_equivalent();
}

proof fn lemma_best_card(cards: Seq<CardClass>, k: int)
    requires
        is_best_card(cards, k),
    ensures
        first_max(card_values(cards)) == k,
        best_value(card_values(cards)) == value_of(cards[k]),
{
    let values = card_values(cards);
    first_max_is_greatest(values);
    let m = first_max(values);
    assert(values[k] == value_of(cards[k]));
    assert(values[m] == value_of(cards[m]));
    assert(values[k] <= values[m]);
    assert(value_of(cards[m]) <= value_of(cards[k]));
    if m < k {
        assert(value_of(cards[m]) < value_of(cards[k]));
    } else if k < m {
        assert(values[k] < values[m]);
    }
}

/// Whatever cards are on offer, one of them is the best.
pub proof fn one_card_is_the_best(cards: Seq<CardClass>) -> (k: int)
    requires
        cards.len() > 0,
    ensures
        is_best_card(cards, k),
{
    let values = card_values(cards);
    first_max_is_greatest(values);
    let k = first_max(values);
    assert forall|j: int| 0 <= j < cards.len() implies value_of(#[trigger] cards[j]) <= value_of(
        cards[k],
    ) by {
        assert(values[j] <= values[k]);
    }
    assert forall|j: int| 0 <= j < k implies value_of(#[trigger] cards[j]) < value_of(cards[k]) by {
        assert(values[j] < values[k]);
    }
    k
}

/// Gold is taken before anything else, stolen gold before relics, and relics before potions, which
/// are taken only where a slot is free.
pub proof fn free_rewards_are_taken_in_order<S: Score>(game: Game, w: Weights<S>, i: usize)
    requires
        call_ensures(rewards::<S>, (&game, &w), i),
    ensures
        ({
            let steps = game.steps@;
            let gold = !none_named(steps, "GoldRewardStep"@);
            let stolen = !none_named(steps, "StolenGoldRewardStep"@);
            let relic = !none_named(steps, "RelicRewardStep"@);
            let potion = !none_named(steps, "PotionRewardStep"@) && exists|k: int|
                0 <= k < game.potions@.len() && #[trigger] game.potions@[k] is None;
            &&& gold ==> is_first_named(steps, "GoldRewardStep"@, i as int)
            &&& !gold && stolen ==> is_first_named(steps, "StolenGoldRewardStep"@, i as int)
            &&& !gold && !stolen && relic ==> is_first_named(steps, "RelicRewardStep"@, i as int)
            &&& !gold && !stolen && !relic && potion ==> is_first_named(
                steps,
                "PotionRewardStep"@,
                i as int,
            )
        }),
{
    let steps = game.steps@;
    assert(game.steps@.len() == game.steps.len());
    first_named_is_named(steps, "GoldRewardStep"@);
    first_named_is_named(steps, "StolenGoldRewardStep"@);
    first_named_is_named(steps, "RelicRewardStep"@);
    first_named_is_named(steps, "PotionRewardStep"@);
}

/// Once nothing is to be had for free, the best card of all the packs is taken, the first of
/// equals, where it is worth taking and has a step of its own; the steps that take cards go with
/// the cards in order. A card that is not worth taking is left, by the way out where there is one.
pub proof fn the_best_reward_card_is_taken<S: Score>(game: Game, w: Weights<S>, k: int, i: usize)
    requires
        none_named(game.steps@, "GoldRewardStep"@),
        none_named(game.steps@, "StolenGoldRewardStep"@),
        none_named(game.steps@, "RelicRewardStep"@),
        none_named(game.steps@, "PotionRewardStep"@) || forall|p: int|
            0 <= p < game.potions@.len() ==> #[trigger] game.potions@[p] is Some,
        is_best_card(cards_on_offer(game), k),
        call_ensures(rewards::<S>, (&game, &w), i),
    ensures
        ({
            let takes = all_named(game.steps@, "CardRewardStep"@);
            let best = value_of(cards_on_offer(game)[k]) as i32;
            let wanted = S::reaches(S::whole(best), w.reward_take);
            &&& wanted && k < takes.len() ==> i == takes[k]
            &&& !(wanted && k < takes.len()) && !none_named(game.steps@, "RewardExitStep"@)
                ==> is_first_named(game.steps@, "RewardExitStep"@, i as int)
        }),
{
    let steps = game.steps@;
    assert(game.steps@.len() == game.steps.len());
    lemma_values_on_offer(game);
    lemma_best_card(cards_on_offer(game), k);
    first_named_is_named(steps, "RewardExitStep"@);
    assert(i == rewards_pick(game, w));
}

/// At a campfire the player digs where it can; where it can both rest and upgrade it rests just if
/// the share of its health is below the bar; and where it can do one of them it does that.
pub proof fn the_wounded_rest<S: Score>(game: Game, w: Weights<S>, i: usize)
    requires
        call_ensures(campfire::<S>, (&game, &w), i),
    ensures
        ({
            let steps = game.steps@;
            let dig = !none_named(steps, "CampfireDigStep"@);
            let rest = !none_named(steps, "CampfireRestStep"@);
            let upgrade = !none_named(steps, "CampfireUpgradeStep"@);
            let most = if game.player.max_hp >= 1 {
                game.player.max_hp
            } else {
                1
            };
            let wounded = S::above(w.rest_hp, S::part(game.player.cur_hp, most));
            &&& dig ==> is_first_named(steps, "CampfireDigStep"@, i as int)
            &&& !dig && rest && (wounded || !upgrade) ==> is_first_named(
                steps,
                "CampfireRestStep"@,
                i as int,
            )
            &&& !dig && upgrade && (!wounded || !rest) ==> is_first_named(
                steps,
                "CampfireUpgradeStep"@,
                i as int,
            )
            &&& !dig && !rest && !upgrade ==> i == 0
        }),
{
    assert(game.steps@.len() == game.steps.len());
    first_named_is_named(game.steps@, "CampfireDigStep"@);
    first_named_is_named(game.steps@, "CampfireRestStep"@);
    first_named_is_named(game.steps@, "CampfireUpgradeStep"@);
}

/// The blessing that is chosen is on offer, is as good as any, and better than those before it.
pub proof fn the_best_blessing_is_chosen(steps: Vec<OfferedStep>, i: usize, j: int)
    requires
        call_ensures(blessing, (&steps,), i),
        0 <= j < steps@.len(),
        is_named(steps@[j], "ChooseBlessingStep"@),
    ensures
        i < steps@.len(),
        is_named(steps@[i as int], "ChooseBlessingStep"@),
        blessing_merit(steps@[j].description@) <= blessing_merit(steps@[i as int].description@),
        j < i ==> blessing_merit(steps@[j].description@) < blessing_merit(
            steps@[i as int].description@,
        ),
{
    assert(steps@.len() == steps.len());
    let idxs = all_named(steps@, "ChooseBlessingStep"@);
    positions_named_are_exact(steps@, "ChooseBlessingStep"@, steps@.len() as int);
    assert(idxs.contains(j as usize));
    let k = choose|k: int| 0 <= k < idxs.len() && idxs[k] == j as usize;
    let merits = blessing_merits(steps@, idxs);
    first_max_is_greatest(merits);
    let m = first_max(merits);
    assert(merits[k] <= merits[m]);
    assert(idxs[m] < steps@.len());
    if j < i {
        assert(k < m) by {
            if m < k {
                assert(idxs[m] < idxs[k]);
            }
        }
        assert(merits[k] < merits[m]);
    }
}

/// Holds of goods that the gold pays for.
pub open spec fn paid_by<T>(gold: int) -> spec_fn((T, i32)) -> int {
    |goods: (T, i32)|
        if goods.1 <= gold {
            1int
        } else {
            0
        }
}

/// Card `j` of the shop is worth the most of those that the gold pays for, the first of equals.
pub open spec fn is_best_buy(cards: Seq<(CardClass, i32)>, gold: int, j: int) -> bool {
    &&& 0 <= j < cards.len()
    &&& cards[j].1 <= gold
    &&& forall|i: int|
        0 <= i < cards.len() && (#[trigger] cards[i]).1 <= gold ==> value_of(cards[i].0) <= value_of(
            cards[j].0,
        )
    &&& forall|i: int|
        0 <= i < j && (#[trigger] cards[i]).1 <= gold ==> value_of(cards[i].0) < value_of(
            cards[j].0,
        )
}

/// Value number `r` is that of one of the first `n` cards, with `r` before it that the gold pays
/// for.
spec fn stands_for_a_card(
    cards: Seq<(CardClass, i32)>,
    gold: int,
    n: int,
    r: int,
    value: int,
) -> bool {
    exists|j: int|
        0 <= j < n && #[trigger] cards[j].1 <= gold && r == shop_values(cards, gold, j).len()
            && value == value_of(cards[j].0)
}

proof fn lemma_shop_values(cards: Seq<(CardClass, i32)>, gold: int, n: int)
    requires
        0 <= n <= cards.len(),
    ensures
        shop_values(cards, gold, n).len() == total_of(cards.take(n), paid_by(gold)),
        forall|j: int|
            0 <= j < n && (#[trigger] cards[j]).1 <= gold ==> {
                let rank = shop_values(cards, gold, j).len() as int;
                &&& rank < shop_values(cards, gold, n).len()
                &&& shop_values(cards, gold, n)[rank] == value_of(cards[j].0)
            },
        forall|r: int|
            0 <= r < shop_values(cards, gold, n).len() ==> stands_for_a_card(
                cards,
                gold,
                n,
                r,
                #[trigger] shop_values(cards, gold, n)[r],
            ),
    decreases n,
{
    if n == 0 {
        assert(cards.take(0) =~= Seq::empty());
        one_more_adds_to_the_total(cards, paid_by(gold), arbitrary());
    } else {
        lemma_shop_values(cards, gold, n - 1);
        one_more_adds_to_the_total(cards.take(n - 1), paid_by(gold), cards[n - 1]);
        assert(cards.take(n - 1).push(cards[n - 1]) =~= cards.take(n));
        let shorter = shop_values(cards, gold, n - 1);
        let longer = shop_values(cards, gold, n);
        assert forall|r: int| 0 <= r < shorter.len() implies #[trigger] longer[r] == shorter[r] by {}
        assert forall|j: int| 0 <= j < n && (#[trigger] cards[j]).1 <= gold implies {
            let rank = shop_values(cards, gold, j).len() as int;
            &&& rank < longer.len()
            &&& longer[rank] == value_of(cards[j].0)
        } by {
            if j < n - 1 {
                let rank = shop_values(cards, gold, j).len() as int;
                assert(longer[rank] == shorter[rank]);
            }
        }
        assert forall|r: int| 0 <= r < longer.len() implies stands_for_a_card(
            cards,
            gold,
            n,
            r,
            #[trigger] longer[r],
        ) by {
            if r < shorter.len() {
                assert(stands_for_a_card(cards, gold, n - 1, r, shorter[r]));
            } else {
                assert(cards[n - 1].1 <= gold);
            }
        }
    }
}

proof fn lemma_ranks_grow(cards: Seq<(CardClass, i32)>, gold: int, i: int, j: int)
    requires
        0 <= i < j <= cards.len(),
        cards[i].1 <= gold,
    ensures
        shop_values(cards, gold, i).len() < shop_values(cards, gold, j).len(),
    decreases j - i,
{
    if i + 1 < j {
        lemma_ranks_grow(cards, gold, i, j - 1);
    }
}

proof fn lemma_best_buy(cards: Seq<(CardClass, i32)>, gold: int, j: int)
    requires
        is_best_buy(cards, gold, j),
    ensures
        ({
            let values = shop_values(cards, gold, cards.len() as int);
            &&& first_max(values) == total_of(cards.take(j), paid_by(gold))
            &&& best_value(values) == value_of(cards[j].0)
            &&& values.len() > 0
        }),
{
    let n = cards.len() as int;
    let values = shop_values(cards, gold, n);
    lemma_shop_values(cards, gold, n);
    lemma_shop_values(cards, gold, j);
    let rank = shop_values(cards, gold, j).len() as int;
    assert(cards[j].1 <= gold);
    assert(values[rank] == value_of(cards[j].0));
    first_max_is_greatest(values);
    let m = first_max(values);
    assert(stands_for_a_card(cards, gold, n, m, values[m]));
    let c = choose|c: int|
        0 <= c < n && #[trigger] cards[c].1 <= gold && m == shop_values(cards, gold, c).len()
            && values[m] == value_of(cards[c].0);
    assert(values[rank] <= values[m]);
    assert(value_of(cards[c].0) <= value_of(cards[j].0));
    if c < j {
        assert(value_of(cards[c].0) < value_of(cards[j].0));
    } else if j < c {
        lemma_ranks_grow(cards, gold, j, c);
        assert(values[rank] < values[m]);
    }
}

/// In a shop a card that the deck would rather lose is removed before anything is bought.
pub proof fn the_deck_is_thinned_first<S: Score>(game: Game, w: Weights<S>, i: usize)
    requires
        call_ensures(shop::<S>, (&game, &w), i),
        !none_named(game.steps@, "ShopRemoveCardStep"@),
        exists|c: int|
            0 <= c < game.master_deck@.len() && removal_of((#[trigger] game.master_deck@[c]).class)
                > 0,
    ensures
        is_first_named(game.steps@, "ShopRemoveCardStep"@, i as int),
{
    assert(game.steps@.len() == game.steps.len());
    first_named_is_named(game.steps@, "ShopRemoveCardStep"@);
}

/// Where nothing is removed, the cheapest relic that the gold pays for is bought.
pub proof fn then_a_relic_is_bought<S: Score>(game: Game, w: Weights<S>, j: int, i: usize)
    requires
        call_ensures(shop::<S>, (&game, &w), i),
        none_named(game.steps@, "ShopRemoveCardStep"@) || forall|c: int|
            0 <= c < game.master_deck@.len() ==> removal_of((#[trigger] game.master_deck@[c]).class)
                <= 0,
        is_cheapest(game.shop.relics@, game.gold as int, game.shop.relics@.len() as int, j),
        total_of(game.shop.relics@.take(j), paid_by(game.gold as int)) < all_named(
            game.steps@,
            "ShopBuyRelicStep"@,
        ).len(),
    ensures
        i == all_named(game.steps@, "ShopBuyRelicStep"@)[total_of(
            game.shop.relics@.take(j),
            paid_by(game.gold as int),
        )],
{
    the_cheapest_relic_is_bought(game);
    lemma_relic_rank(game.shop.relics@, game.gold as int, j);
}

proof fn lemma_relic_rank(relics: Seq<(crate::game::RelicClass, i32)>, gold: int, j: int)
    requires
        0 <= j <= relics.len(),
    ensures
        paid_for_before(relics, gold, j) == total_of(relics.take(j), paid_by(gold)),
    decreases j,
{
    if j == 0 {
        assert(relics.take(0) =~= Seq::empty());
        one_more_adds_to_the_total(relics, paid_by(gold), arbitrary());
    } else {
        lemma_relic_rank(relics, gold, j - 1);
        one_more_adds_to_the_total(relics.take(j - 1), paid_by(gold), relics[j - 1]);
        assert(relics.take(j - 1).push(relics[j - 1]) =~= relics.take(j));
    }
}

/// Where nothing is removed and no relic can be paid for, the best card that the gold pays for is
/// bought where it is strong enough; the steps that buy cards go in order with the cards that can
/// be paid for. A card that is too weak is not bought.
pub proof fn then_the_best_card_is_bought<S: Score>(game: Game, w: Weights<S>, j: int, i: usize)
    requires
        call_ensures(shop::<S>, (&game, &w), i),
        none_named(game.steps@, "ShopRemoveCardStep"@) || forall|c: int|
            0 <= c < game.master_deck@.len() ==> removal_of((#[trigger] game.master_deck@[c]).class)
                <= 0,
        forall|r: int|
            0 <= r < game.shop.relics@.len() ==> (#[trigger] game.shop.relics@[r]).1 > game.gold,
        is_best_buy(game.shop.cards@, game.gold as int, j),
    ensures
        ({
            let buys = all_named(game.steps@, "ShopBuyCardStep"@);
            let rank = total_of(game.shop.cards@.take(j), paid_by(game.gold as int));
            let wanted = S::reaches(
                S::whole(value_of(game.shop.cards@[j].0) as i32),
                w.shop_card,
            );
            &&& wanted && rank < buys.len() ==> i == buys[rank]
            &&& !(wanted && rank < buys.len()) && !none_named(game.steps@, "ShopExitStep"@)
                ==> is_first_named(game.steps@, "ShopExitStep"@, i as int)
        }),
{
    assert(game.steps@.len() == game.steps.len());
    the_cheapest_relic_is_bought(game);
    assert forall|r: int|
        !#[trigger] is_cheapest(
            game.shop.relics@,
            game.gold as int,
            game.shop.relics@.len() as int,
            r,
        ) by {
        if 0 <= r < game.shop.relics@.len() {
            assert(game.shop.relics@[r].1 > game.gold);
        }
    }
    lemma_best_buy(game.shop.cards@, game.gold as int, j);
    first_named_is_named(game.steps@, "ShopExitStep"@);
    assert(relic_purchase(game) is None);
    assert(!(any_named(game.steps@, "ShopRemoveCardStep"@) && wants_removal(game.master_deck@)));
}

/// One for a card of the deck that `p` holds of.
pub open spec fn fitting(p: spec_fn(DeckCard) -> bool) -> spec_fn(DeckCard) -> int {
    |c: DeckCard|
        if p(c) {
            1int
        } else {
            0
        }
}

/// Card `c` of the deck is one that `p` holds of, scores as much by `s` as any of those, and more
/// than those before it.
pub open spec fn is_best_fit(
    deck: Seq<DeckCard>,
    p: spec_fn(DeckCard) -> bool,
    s: spec_fn(CardClass) -> int,
    c: int,
) -> bool {
    &&& 0 <= c < deck.len()
    &&& p(deck[c])
    &&& forall|d: int| 0 <= d < deck.len() && p(#[trigger] deck[d]) ==> s(deck[d].class) <= s(
        deck[c].class,
    )
    &&& forall|d: int| 0 <= d < c && p(#[trigger] deck[d]) ==> s(deck[d].class) < s(deck[c].class)
}

/// Score number `r` is that of one of the first `n` cards, with `r` fitting ones before it.
spec fn stands_for_a_fit(
    deck: Seq<DeckCard>,
    p: spec_fn(DeckCard) -> bool,
    s: spec_fn(CardClass) -> int,
    n: int,
    r: int,
    score: int,
) -> bool {
    exists|c: int|
        0 <= c < n && p(#[trigger] deck[c]) && r == deck_scores(deck, p, s, c).len() && score == s(
            deck[c].class,
        )
}

proof fn lemma_fits(
    deck: Seq<DeckCard>,
    p: spec_fn(DeckCard) -> bool,
    s: spec_fn(CardClass) -> int,
    n: int,
)
    requires
        0 <= n <= deck.len(),
    ensures
        deck_scores(deck, p, s, n).len() == total_of(deck.take(n), fitting(p)),
        forall|c: int|
            0 <= c < n && p(#[trigger] deck[c]) ==> {
                let rank = deck_scores(deck, p, s, c).len() as int;
                &&& rank < deck_scores(deck, p, s, n).len()
                &&& deck_scores(deck, p, s, n)[rank] == s(deck[c].class)
            },
        forall|r: int|
            0 <= r < deck_scores(deck, p, s, n).len() ==> stands_for_a_fit(
                deck,
                p,
                s,
                n,
                r,
                #[trigger] deck_scores(deck, p, s, n)[r],
            ),
    decreases n,
{
    if n == 0 {
        assert(deck.take(0) =~= Seq::empty());
        one_more_adds_to_the_total(deck, fitting(p), arbitrary());
    } else {
        lemma_fits(deck, p, s, n - 1);
        one_more_adds_to_the_total(deck.take(n - 1), fitting(p), deck[n - 1]);
        assert(deck.take(n - 1).push(deck[n - 1]) =~= deck.take(n));
        let shorter = deck_scores(deck, p, s, n - 1);
        let longer = deck_scores(deck, p, s, n);
        assert forall|r: int| 0 <= r < shorter.len() implies #[trigger] longer[r] == shorter[r] by {}
        assert forall|c: int| 0 <= c < n && p(#[trigger] deck[c]) implies {
            let rank = deck_scores(deck, p, s, c).len() as int;
            &&& rank < longer.len()
            &&& longer[rank] == s(deck[c].class)
        } by {
            if c < n - 1 {
                let rank = deck_scores(deck, p, s, c).len() as int;
                assert(longer[rank] == shorter[rank]);
            }
        }
        assert forall|r: int| 0 <= r < longer.len() implies stands_for_a_fit(
            deck,
            p,
            s,
            n,
            r,
            #[trigger] longer[r],
        ) by {
            if r < shorter.len() {
                assert(stands_for_a_fit(deck, p, s, n - 1, r, shorter[r]));
            } else {
                assert(p(deck[n - 1]));
            }
        }
    }
}

proof fn lemma_fit_ranks_grow(
    deck: Seq<DeckCard>,
    p: spec_fn(DeckCard) -> bool,
    s: spec_fn(CardClass) -> int,
    c: int,
    d: int,
)
    requires
        0 <= c < d <= deck.len(),
        p(deck[c]),
    ensures
        deck_scores(deck, p, s, c).len() < deck_scores(deck, p, s, d).len(),
    decreases d - c,
{
    if c + 1 < d {
        lemma_fit_ranks_grow(deck, p, s, c, d - 1);
    }
}

/// The step that is picked for a change of the deck goes with the best fitting card, the first of
/// equals: it stands as far along among the steps of its name as that card does among the fitting
/// ones. Without a step of that name the first step is picked.
pub proof fn a_deck_change_goes_to_the_best_fit(
    game: Game,
    name: Seq<char>,
    p: spec_fn(DeckCard) -> bool,
    s: spec_fn(CardClass) -> int,
    c: int,
)
    requires
        is_best_fit(game.master_deck@, p, s, c),
    ensures
        ({
            let rank = total_of(game.master_deck@.take(c), fitting(p));
            let steps = all_named(game.steps@, name);
            &&& rank < steps.len() ==> deck_pick(game, name, p, s) == steps[rank]
            &&& 0 < steps.len() <= rank ==> deck_pick(game, name, p, s) == steps[0]
            &&& steps.len() == 0 ==> deck_pick(game, name, p, s) == 0
        }),
{
    let deck = game.master_deck@;
    let n = deck.len() as int;
    let scores = deck_scores(deck, p, s, n);
    lemma_fits(deck, p, s, n);
    lemma_fits(deck, p, s, c);
    let rank = deck_scores(deck, p, s, c).len() as int;
    assert(p(deck[c]));
    assert(scores[rank] == s(deck[c].class));
    first_max_is_greatest(scores);
    let m = first_max(scores);
    assert(stands_for_a_fit(deck, p, s, n, m, scores[m]));
    let d = choose|d: int|
        0 <= d < n && p(#[trigger] deck[d]) && m == deck_scores(deck, p, s, d).len() && scores[m]
            == s(deck[d].class);
    assert(scores[rank] <= scores[m]);
    assert(s(deck[d].class) <= s(deck[c].class));
    if d < c {
        assert(s(deck[d].class) < s(deck[c].class));
    } else if c < d {
        lemma_fit_ranks_grow(deck, p, s, c, d);
        assert(scores[rank] < scores[m]);
    }
}

/// Where nothing else is known, the first step that spends no potion and speaks of leaving things
/// alone is picked; without one, the first that spends no potion; and without that, the first.
pub proof fn the_safe_way_out_is_taken(
    steps: Vec<OfferedStep>,
    lowered: Vec<String>,
    i: usize,
)
    requires
        lowered@.len() == steps@.len(),
        call_ensures(generic_from, (&steps, &lowered), i),
    ensures
        ({
            let harmless = |j: int|
                !is_named(steps@[j], "UsePotionStep"@) && !is_named(
                    steps@[j],
                    "DiscardPotionStep"@,
                );
            let safe = |j: int| harmless(j) && is_safe(lowered@[j]@);
            let any_safe = exists|j: int| 0 <= j < steps@.len() && #[trigger] safe(j);
            let any_harmless = exists|j: int| 0 <= j < steps@.len() && #[trigger] harmless(j);
            &&& any_safe ==> {
                &&& i < steps@.len()
                &&& safe(i as int)
                &&& forall|j: int| 0 <= j < i ==> !#[trigger] safe(j)
            }
            &&& !any_safe && any_harmless ==> {
                &&& i < steps@.len()
                &&& harmless(i as int)
                &&& forall|j: int| 0 <= j < i ==> !#[trigger] harmless(j)
            }
            &&& !any_harmless ==> i == 0
        }),
{
    assert(steps@.len() == steps.len());
    let texts = Seq::new(lowered@.len(), |j: int| lowered@[j]@);
    assert(texts =~= crate::full_run::texts(lowered@));
    let s = lemma_safe_place(steps@, texts, 0);
    let h = lemma_harmless_place(steps@, 0);
    let harmless = |j: int|
        !is_named(steps@[j], "UsePotionStep"@) && !is_named(steps@[j], "DiscardPotionStep"@);
    let safe = |j: int| harmless(j) && is_safe(lowered@[j]@);
    assert forall|j: int| 0 <= j < steps@.len() implies #[trigger] harmless(j)
        == !is_potion_step(steps@[j]) by {}
    if s < steps@.len() {
        assert(safe(s));
    }
    if h < steps@.len() {
        assert(harmless(h));
    }
}

proof fn lemma_safe_place(steps: Seq<OfferedStep>, lowered: Seq<Seq<char>>, from: int) -> (r: int)
    requires
        0 <= from <= steps.len(),
    ensures
        r == safe_from(steps, lowered, from),
        from <= r <= steps.len(),
        r < steps.len() ==> !is_potion_step(steps[r]) && is_safe(lowered[r]),
        forall|j: int|
            from <= j < r ==> is_potion_step(#[trigger] steps[j]) || !is_safe(lowered[j]),
    decreases steps.len() - from,
{
    if from < steps.len() && (is_potion_step(steps[from]) || !is_safe(lowered[from])) {
        lemma_safe_place(steps, lowered, from + 1)
    } else {
        from
    }
}

proof fn lemma_harmless_place(steps: Seq<OfferedStep>, from: int) -> (r: int)
    requires
        0 <= from <= steps.len(),
    ensures
        r == harmless_from(steps, from),
        from <= r <= steps.len(),
        r < steps.len() ==> !is_potion_step(steps[r]),
        forall|j: int| from <= j < r ==> is_potion_step(#[trigger] steps[j]),
    decreases steps.len() - from,
{
    if from < steps.len() && is_potion_step(steps[from]) {
        lemma_harmless_place(steps, from + 1)
    } else {
        from
    }
}

/// A reward of a fight is on offer.
pub open spec fn offers_a_reward(steps: Seq<OfferedStep>) -> bool {
    exists|i: int|
        0 <= i < steps.len() && {
            let step = #[trigger] steps[i];
            ||| is_named(step, "GoldRewardStep"@)
            ||| is_named(step, "StolenGoldRewardStep"@)
            ||| is_named(step, "RelicRewardStep"@)
            ||| is_named(step, "PotionRewardStep"@)
            ||| is_named(step, "CardRewardStep"@)
            ||| is_named(step, "RewardExitStep"@)
            ||| is_named(step, "SingingBowlStep"@)
            ||| is_named(step, "SapphireKeyStep"@)
        }
}

/// Something to do at a campfire is on offer.
pub open spec fn offers_a_campfire(steps: Seq<OfferedStep>) -> bool {
    exists|i: int|
        0 <= i < steps.len() && {
            let step = #[trigger] steps[i];
            ||| is_named(step, "CampfireRestStep"@)
            ||| is_named(step, "CampfireUpgradeStep"@)
            ||| is_named(step, "CampfireDigStep"@)
            ||| is_named(step, "CampfireLiftStep"@)
            ||| is_named(step, "CampfireTokeStep"@)
        }
}

proof fn lemma_reward_on_offer(steps: Seq<OfferedStep>)
    ensures
        offers_a_reward(steps) <==> crate::full_run::at_rewards(steps),
        offers_a_campfire(steps) <==> crate::full_run::at_campfire(steps),
{
    if offers_a_reward(steps) {
        let i = choose|i: int|
            0 <= i < steps.len() && {
                let step = #[trigger] steps[i];
                ||| is_named(step, "GoldRewardStep"@)
                ||| is_named(step, "StolenGoldRewardStep"@)
                ||| is_named(step, "RelicRewardStep"@)
                ||| is_named(step, "PotionRewardStep"@)
                ||| is_named(step, "CardRewardStep"@)
                ||| is_named(step, "RewardExitStep"@)
                ||| is_named(step, "SingingBowlStep"@)
                ||| is_named(step, "SapphireKeyStep"@)
            };
        assert(crate::full_run::at_rewards(steps));
    }
    if offers_a_campfire(steps) {
        let i = choose|i: int|
            0 <= i < steps.len() && {
                let step = #[trigger] steps[i];
                ||| is_named(step, "CampfireRestStep"@)
                ||| is_named(step, "CampfireUpgradeStep"@)
                ||| is_named(step, "CampfireDigStep"@)
                ||| is_named(step, "CampfireLiftStep"@)
                ||| is_named(step, "CampfireTokeStep"@)
            };
        assert(crate::full_run::at_campfire(steps));
    }
    lemma_offer_of(steps, "GoldRewardStep"@);
    lemma_offer_of(steps, "StolenGoldRewardStep"@);
    lemma_offer_of(steps, "RelicRewardStep"@);
    lemma_offer_of(steps, "PotionRewardStep"@);
    lemma_offer_of(steps, "CardRewardStep"@);
    lemma_offer_of(steps, "RewardExitStep"@);
    lemma_offer_of(steps, "SingingBowlStep"@);
    lemma_offer_of(steps, "SapphireKeyStep"@);
    lemma_offer_of(steps, "CampfireRestStep"@);
    lemma_offer_of(steps, "CampfireUpgradeStep"@);
    lemma_offer_of(steps, "CampfireDigStep"@);
    lemma_offer_of(steps, "CampfireLiftStep"@);
    lemma_offer_of(steps, "CampfireTokeStep"@);
}

proof fn lemma_offer_of(steps: Seq<OfferedStep>, name: Seq<char>)
    ensures
        any_named(steps, name) ==> exists|i: int|
            0 <= i < steps.len() && is_named(#[trigger] steps[i], name),
{
    if any_named(steps, name) {
        let i = choose|i: int| 0 <= i < steps.len() && #[trigger] is_named(steps[i], name);
        assert(is_named(steps[i], name));
    }
}

/// What is on offer says what is decided, first things first: the way over the map, a blessing,
/// rewards, a chest, which is opened where it can be, a campfire, cards to lose, to transform or to
/// upgrade, a boss's relic, which is taken, and a shop; anything else is left alone where it can
/// be.
pub proof fn the_offer_says_what_is_decided<C: CombatAgent, S: Score>(
    agent: FullRunAgent<C, S>,
    game: Game,
    i: usize,
)
    requires
        can_choose(game),
        game.steps@.len() > 0,
        call_ensures(FullRunAgent::<C, S>::choose_outside, (&agent, &game), i),
    ensures
        ({
            let steps = game.steps@;
            let way = !none_named(steps, "AscendStep"@);
            let bless = !way && !none_named(steps, "ChooseBlessingStep"@);
            let reward = !way && !bless && offers_a_reward(steps);
            let rest = !way && !bless && !reward;
            let chest = rest && (!none_named(steps, "OpenChestStep"@) || !none_named(
                steps,
                "SkipChestStep"@,
            ));
            let fire = rest && !chest && offers_a_campfire(steps);
            let quiet = rest && !chest && !fire;
            let lose = quiet && !none_named(steps, "ChooseRemoveFromMasterStep"@);
            let change = quiet && !lose && !none_named(steps, "ChooseTransformMasterStep"@);
            let better = quiet && !lose && !change && !none_named(
                steps,
                "ChooseUpgradeMasterStep"@,
            );
            let late = quiet && !lose && !change && !better;
            let boss = late && !none_named(steps, "BossRewardChooseStep"@);
            let trade = late && !boss && !none_named(steps, "ShopExitStep"@);
            &&& way ==> i == route_pick(game, agent.w)
            &&& bless ==> i == blessing_pick(steps)
            &&& reward ==> i == rewards_pick(game, agent.w)
            &&& chest && !none_named(steps, "OpenChestStep"@) ==> is_first_named(
                steps,
                "OpenChestStep"@,
                i as int,
            )
            &&& fire ==> i == campfire_pick(game, agent.w)
            &&& lose ==> i == deck_pick(
                game,
                "ChooseRemoveFromMasterStep"@,
                removable(),
                by_removal(),
            )
            &&& change ==> i == deck_pick(
                game,
                "ChooseTransformMasterStep"@,
                removable(),
                by_removal(),
            )
            &&& better ==> i == deck_pick(
                game,
                "ChooseUpgradeMasterStep"@,
                upgradable(),
                by_value(),
            )
            &&& boss ==> is_first_named(steps, "BossRewardChooseStep"@, i as int)
            &&& trade ==> i == shop_pick(game, agent.w)
            &&& late && !boss && !trade ==> i == generic_pick(steps, lower_texts(steps))
        }),
        forall|c: DeckCard| #[trigger] (removable())(c) == c.can_remove,
        forall|c: DeckCard| #[trigger] (upgradable())(c) == c.can_upgrade,
        forall|class: CardClass| #[trigger] (by_removal())(class) == removal_of(class),
        forall|class: CardClass| #[trigger] (by_value())(class) == value_of(class),
{
    let steps = game.steps@;
    assert(game.steps@.len() == game.steps.len());
    lemma_reward_on_offer(steps);
    first_named_is_named(steps, "OpenChestStep"@);
    first_named_is_named(steps, "BossRewardChooseStep"@);
}

/// The descriptions rank the blessings: to be rid of a card before all else, then a relic, health,
/// a transformed card, a card of no colour and a potion, each before the next; whatever is not
/// known counts for nothing, and to lose a relic for less.
pub proof fn blessings_rank_by_what_they_give(d: Seq<char>, r: i32, text: &str)
    requires
        text@ == d,
        call_ensures(blessing_score, (text,), r),
    ensures
        ({
            let thin = holds_text(d, "RemoveCard"@) || holds_text(d, "RemoveOne"@);
            let relic = !thin && holds_text(d, "CommonRelic"@);
            let health = !thin && !relic && holds_text(d, "GainMaxHPSmall"@);
            let turn = !thin && !relic && !health && holds_text(d, "TransformOne"@);
            let pale = !thin && !relic && !health && !turn && holds_text(
                d,
                "RandomUncommonColorless"@,
            );
            let potion = !thin && !relic && !health && !turn && !pale && holds_text(
                d,
                "RandomPotion"@,
            );
            let known = thin || relic || health || turn || pale || potion;
            let loss = !known && holds_text(d, "RemoveRelic"@);
            &&& r == 100 <==> thin
            &&& r == 80 <==> relic
            &&& r == 60 <==> health
            &&& r == 50 <==> turn
            &&& r == 45 <==> pale
            &&& r == 30 <==> potion
            &&& r == -100 <==> loss
            &&& r == 0 <==> !known && !loss
            &&& r == blessing_merit(d)
        }),
{
}

/// The words that speak of leaving things alone.
pub open spec fn words_of_leaving() -> Seq<Seq<char>> {
    seq!["leave"@, "ignore"@, "skip"@, "outrun"@, "refuse"@, "continue"@]
}

/// A text speaks of leaving things alone just if one of these words stands in it.
pub proof fn a_word_makes_it_safe(text: Seq<char>)
    ensures
        is_safe(text) <==> exists|k: int|
            0 <= k < words_of_leaving().len() && holds_text(text, #[trigger] words_of_leaving()[k]),
{
    let words = words_of_leaving();
    assert(words[0] == "leave"@);
    assert(words[1] == "ignore"@);
    assert(words[2] == "skip"@);
    assert(words[3] == "outrun"@);
    assert(words[4] == "refuse"@);
    assert(words[5] == "continue"@);
}

/// In a fight the fighter picks, as it would alone; outside it the fighter is not asked, and stays
/// as it was.
pub proof fn fights_go_to_the_fighter<C: CombatAgent, S: Score>(
    before: FullRunAgent<C, S>,
    game: Game,
    after: FullRunAgent<C, S>,
    i: usize,
)
    requires
        FullRunAgent::<C, S>::picks(before, game, after, i),
    ensures
        game.in_combat ==> C::picks(before.combat, game, after.combat, i),
        !game.in_combat ==> after.combat == before.combat && i == outside_pick(game, before.w),
        after.w == before.w,
{
}

} // verus!
