//! What the player that looks at the current turn only can be relied on for, told from the board
//! and the hand alone.

use crate::agent::CombatAgent;
use crate::cards::{cost_of, CardClass, CardName, CardType, HandCard};
use crate::game::{Game, Intent, Monster};
use crate::greedy::{
    aim, aim_among, attacks_in, bash_from, by_damage, damage_known, decision, incoming_fits,
    incoming_of, insert_by_damage, judgeable, plays, potential, potential_fits, power_from, purpose,
    reachable_from, spend, threats, way_to_play, GreedyAgent, Play, Purpose,
};
use crate::step::{offered, StepKind};
use crate::sums::{an_element_counts_anywhere, floored, one_more_adds_to_the_total, total_of};
use vstd::prelude::*;

verus! {

/// An attack is among what the monster is about to do.
pub open spec fn about_to_attack(m: Monster) -> bool {
    match m.intent {
        Intent::Attack(_, _) => true,
        Intent::AttackBuff(_, _) => true,
        Intent::AttackDebuff(_, _) => true,
        Intent::AttackDefend(_, _) => true,
        Intent::Sleep => false,
        Intent::Other => false,
    }
}

/// Monster `t` takes part in the fight, and has no more health and block together than any other
/// that does. Of those that have as much, one that is about to attack goes before one that is not,
/// and an earlier one before a later.
pub open spec fn is_weakest(monsters: Seq<Monster>, t: int) -> bool {
    &&& 0 <= t < monsters.len()
    &&& monsters[t].creature.actionable
    &&& forall|i: int|
        0 <= i < monsters.len() && (#[trigger] monsters[i]).creature.actionable ==> {
            let mine = monsters[t].creature.cur_hp + monsters[t].creature.block;
            let other = monsters[i].creature.cur_hp + monsters[i].creature.block;
            &&& mine <= other
            &&& mine == other && about_to_attack(monsters[i]) ==> about_to_attack(monsters[t])
            &&& mine == other && i < t ==> about_to_attack(monsters[t]) && !about_to_attack(
                monsters[i],
            )
        }
}

proof fn lemma_aim(monsters: Seq<Monster>, n: int)
    requires
        0 <= n <= monsters.len(),
    ensures
        match aim_among(monsters, n) {
            None => forall|i: int| 0 <= i < n ==> !(#[trigger] monsters[i]).creature.actionable,
            Some(t) => is_weakest(monsters.take(n), t),
        },
    decreases n,
{
    if n > 0 {
        lemma_aim(monsters, n - 1);
        let row = monsters.take(n);
        let before = monsters.take(n - 1);
        assert forall|i: int| 0 <= i < n - 1 implies #[trigger] before[i] == row[i] by {}
        if let Some(t) = aim_among(monsters, n - 1) {
            assert(before[t] == row[t]);
            assert forall|i: int| 0 <= i < n - 1 && (#[trigger] row[i]).creature.actionable implies {
                let mine = row[t].creature.cur_hp + row[t].creature.block;
                let other = row[i].creature.cur_hp + row[i].creature.block;
                &&& mine <= other
                &&& mine == other && about_to_attack(row[i]) ==> about_to_attack(row[t])
                &&& mine == other && i < t ==> about_to_attack(row[t]) && !about_to_attack(row[i])
            } by {
                assert(before[i].creature.actionable);
            }
        }
    }
}

/// The player aims at the weakest monster of the fight, and at none only where none takes part.
pub proof fn the_weakest_is_aimed_at(game: Game)
    ensures
        aim(game) matches Some(t) ==> is_weakest(game.monsters@, t),
        aim(game) is None <==> forall|i: int|
            0 <= i < game.monsters@.len() ==> !(#[trigger] game.monsters@[i]).creature.actionable,
{
    let monsters = game.monsters@;
    lemma_aim(monsters, monsters.len() as int);
    assert(monsters.take(monsters.len() as int) =~= monsters);
}

/// The damage that a monster is about to do: that of each hit, as often as it hits, where it takes
/// part in the fight and attacks.
pub open spec fn blow() -> spec_fn(Monster) -> int {
    |m: Monster|
        if !m.creature.actionable {
            0
        } else {
            match m.intent {
                Intent::Attack(_, times) => m.hit * times,
                Intent::AttackBuff(_, times) => m.hit * times,
                Intent::AttackDebuff(_, times) => m.hit * times,
                Intent::AttackDefend(_, times) => m.hit * times,
                Intent::Sleep => 0,
                Intent::Other => 0,
            }
        }
}

proof fn lemma_threats(monsters: Seq<Monster>, n: int)
    requires
        0 <= n <= monsters.len(),
    ensures
        threats(monsters, n) == total_of(monsters.take(n), blow()),
    decreases n,
{
    if n == 0 {
        assert(monsters.take(0) =~= Seq::empty());
        one_more_adds_to_the_total(monsters, blow(), arbitrary());
    } else {
        lemma_threats(monsters, n - 1);
        one_more_adds_to_the_total(monsters.take(n - 1), blow(), monsters[n - 1]);
        assert(monsters.take(n - 1).push(monsters[n - 1]) =~= monsters.take(n));
    }
}

/// What gets through is what all the blows come to, less the player's block, and at least nothing.
pub proof fn every_blow_counts(game: Game, agent: GreedyAgent, r: i32)
    requires
        incoming_fits(game),
        call_ensures(GreedyAgent::incoming, (&agent, &game), r),
    ensures
        r == floored(total_of(game.monsters@, blow()) - game.player.block),
        r == incoming_of(game),
{
    lemma_threats(game.monsters@, game.monsters@.len() as int);
    assert(game.monsters@.take(game.monsters@.len() as int) =~= game.monsters@);
}

/// What gets through, whether or not it fits: all the blows, less the player's block.
pub proof fn what_gets_through(game: Game)
    ensures
        incoming_of(game) == floored(total_of(game.monsters@, blow()) - game.player.block),
{
    lemma_threats(game.monsters@, game.monsters@.len() as int);
    assert(game.monsters@.take(game.monsters@.len() as int) =~= game.monsters@);
}

/// One more attacker, wherever it stands, adds its hits to what comes in; without block in the
/// way, all of them get through.
pub proof fn one_more_attacker_adds_its_hits(game: Game, larger: Game, i: int, m: Monster)
    requires
        0 <= i <= game.monsters@.len(),
        larger.monsters@ == game.monsters@.insert(i, m),
        larger.player == game.player,
        game.player.block <= 0,
        total_of(game.monsters@, blow()) >= 0,
        m.hit >= 0,
    ensures
        !m.creature.actionable || !about_to_attack(m) ==> incoming_of(larger) == incoming_of(game),
        m.creature.actionable && (m.intent matches Intent::Attack(_, times) && times >= 0)
            ==> incoming_of(larger) == incoming_of(game) + m.hit * m.intent->Attack_1,
{
    what_gets_through(game);
    what_gets_through(larger);
    an_element_counts_anywhere(game.monsters@, blow(), i, m);
    if m.intent matches Intent::Attack(_, times) && times >= 0 {
        let times = m.intent->Attack_1;
        assert(m.hit * times >= 0) by (nonlinear_arith)
            requires
                m.hit >= 0,
                times >= 0,
        ;
    }
}

/// Card `i` of the hand is an attack.
pub open spec fn is_attack_at(hand: Seq<HandCard>, i: int) -> bool {
    0 <= i < hand.len() && hand[i].class.ty == CardType::Attack
}

/// Card `i` of the hand is the attack that does the most damage to `target`, the first of equals.
pub open spec fn is_strongest(hand: Seq<HandCard>, target: int, i: int) -> bool {
    &&& is_attack_at(hand, i)
    &&& forall|j: int| #[trigger]
        is_attack_at(hand, j) ==> {
            &&& hand[j].damage@[target] <= hand[i].damage@[target]
            &&& j < i ==> hand[j].damage@[target] < hand[i].damage@[target]
        }
}

proof fn lemma_insert_in_front(s: Seq<(i32, i32)>, x: (i32, i32))
    requires
        forall|j: int| 0 <= j < s.len() ==> (#[trigger] s[j]).1 < x.1,
    ensures
        insert_by_damage(s, x) == seq![x] + s,
    decreases s.len(),
{
    if s.len() == 0 {
        assert(seq![x] + s =~= seq![x]);
    } else {
        assert(s[s.len() - 1].1 < x.1);
        lemma_insert_in_front(s.drop_last(), x);
        assert((seq![x] + s.drop_last()).push(s.last()) =~= seq![x] + s);
    }
}

proof fn lemma_insert_behind_the_first(s: Seq<(i32, i32)>, y: (i32, i32))
    requires
        s.len() > 0,
        s[0].1 >= y.1,
    ensures
        insert_by_damage(s, y) == seq![s[0]] + insert_by_damage(s.skip(1), y),
    decreases s.len(),
{
    let rest = s.skip(1);
    if s.last().1 >= y.1 {
        if rest.len() == 0 {
            assert(s.push(y) =~= seq![s[0]] + seq![y]);
        } else {
            assert(rest.last() == s.last());
            assert(s.push(y) =~= seq![s[0]] + rest.push(y));
        }
    } else {
        assert(s.len() > 1);
        lemma_insert_behind_the_first(s.drop_last(), y);
        assert(s.drop_last().skip(1) =~= rest.drop_last());
        assert(rest.last() == s.last());
        assert((seq![s[0]] + insert_by_damage(rest.drop_last(), y)).push(s.last()) =~= seq![s[0]]
            + insert_by_damage(rest.drop_last(), y).push(s.last()));
    }
}

proof fn lemma_ranking_keeps(s: Seq<(i32, i32)>)
    ensures
        forall|j: int| 0 <= j < by_damage(s).len() ==> s.contains(#[trigger] by_damage(s)[j]),
    decreases s.len(),
{
    if s.len() > 0 {
        lemma_ranking_keeps(s.drop_last());
        lemma_insert_keeps(by_damage(s.drop_last()), s.last());
        let ranked = by_damage(s);
        assert forall|j: int| 0 <= j < ranked.len() implies s.contains(#[trigger] ranked[j]) by {
            if ranked[j] == s.last() {
                assert(s[s.len() - 1] == ranked[j]);
            } else {
                let before = by_damage(s.drop_last());
                let k = choose|k: int| 0 <= k < before.len() && #[trigger] before[k] == ranked[j];
                let m = choose|m: int|
                    0 <= m < s.drop_last().len() && #[trigger] s.drop_last()[m] == before[k];
                assert(s[m] == ranked[j]);
            }
        }
    }
}

proof fn lemma_insert_keeps(s: Seq<(i32, i32)>, x: (i32, i32))
    ensures
        forall|j: int|
            0 <= j < insert_by_damage(s, x).len() ==> #[trigger] insert_by_damage(s, x)[j] == x
                || exists|k: int| 0 <= k < s.len() && #[trigger] s[k] == insert_by_damage(s, x)[j],
    decreases s.len(),
{
    let r = insert_by_damage(s, x);
    if s.len() > 0 && s.last().1 < x.1 {
        lemma_insert_keeps(s.drop_last(), x);
        let inner = insert_by_damage(s.drop_last(), x);
        assert forall|j: int| 0 <= j < r.len() implies (#[trigger] r[j] == x || exists|k: int|
            0 <= k < s.len() && #[trigger] s[k] == r[j]) by {
            if j < inner.len() {
                assert(r[j] == inner[j]);
                if inner[j] != x {
                    let k = choose|k: int|
                        0 <= k < s.drop_last().len() && #[trigger] s.drop_last()[k] == inner[j];
                    assert(s[k] == r[j]);
                }
            } else {
                assert(s[s.len() - 1] == r[j]);
            }
        }
    } else {
        assert forall|j: int| 0 <= j < r.len() implies (#[trigger] r[j] == x || exists|k: int|
            0 <= k < s.len() && #[trigger] s[k] == r[j]) by {
            if j < s.len() {
                assert(s[j] == r[j]);
            }
        }
    }
}

proof fn lemma_strongest_ranks_first(s: Seq<(i32, i32)>, k: int)
    requires
        0 <= k < s.len(),
        forall|j: int| 0 <= j < s.len() ==> (#[trigger] s[j]).1 <= s[k].1,
        forall|j: int| 0 <= j < k ==> (#[trigger] s[j]).1 < s[k].1,
    ensures
        by_damage(s) == seq![s[k]] + by_damage(s.remove(k)),
    decreases s.len(),
{
    let shorter = s.drop_last();
    let last = s.last();
    if k == s.len() - 1 {
        assert(s.remove(k) =~= shorter);
        lemma_ranking_keeps(shorter);
        assert forall|j: int| 0 <= j < by_damage(shorter).len() implies (
        #[trigger] by_damage(shorter)[j]).1 < last.1 by {
            let m = choose|m: int|
                0 <= m < shorter.len() && #[trigger] shorter[m] == by_damage(shorter)[j];
            assert(s[m] == shorter[m]);
        }
        lemma_insert_in_front(by_damage(shorter), last);
    } else {
        assert forall|j: int| 0 <= j < shorter.len() implies (#[trigger] shorter[j]).1
            <= shorter[k].1 by {
            assert(s[j] == shorter[j]);
        }
        assert forall|j: int| 0 <= j < k implies (#[trigger] shorter[j]).1 < shorter[k].1 by {
            assert(s[j] == shorter[j]);
        }
        lemma_strongest_ranks_first(shorter, k);
        assert(s.remove(k).drop_last() =~= shorter.remove(k));
        assert(s.remove(k).last() == last);
        let ranked = by_damage(shorter);
        assert(ranked[0] == s[k]);
        assert(ranked.skip(1) =~= by_damage(shorter.remove(k)));
        assert(s[s.len() - 1].1 <= s[k].1);
        lemma_insert_behind_the_first(ranked, last);
    }
}

proof fn lemma_attacks_of_prefix(a: Seq<HandCard>, b: Seq<HandCard>, target: int, n: int)
    requires
        0 <= n <= a.len(),
        n <= b.len(),
        forall|j: int| 0 <= j < n ==> #[trigger] a[j] == b[j],
    ensures
        attacks_in(a, target, n) == attacks_in(b, target, n),
    decreases n,
{
    if n > 0 {
        lemma_attacks_of_prefix(a, b, target, n - 1);
        assert(a[n - 1] == b[n - 1]);
    }
}

/// One of the first `n` cards of the hand is an attack that does `damage` to `target`.
spec fn some_attack_does(hand: Seq<HandCard>, target: int, n: int, damage: i32) -> bool {
    exists|j: int|
        0 <= j < n && #[trigger] is_attack_at(hand, j) && damage == hand[j].damage@[target]
}

/// Where an attack stands among the attacks of the hand, and what is left without it.
proof fn lemma_attack_taken_out(hand: Seq<HandCard>, target: int, i: int, n: int)
    requires
        is_attack_at(hand, i),
        i < n <= hand.len(),
    ensures
        ({
            let k = attacks_in(hand, target, i).len() as int;
            let all = attacks_in(hand, target, n);
            &&& k < all.len()
            &&& all[k] == (cost_of(hand[i].class), hand[i].damage@[target])
            &&& all.remove(k) == attacks_in(hand.remove(i), target, n - 1)
            &&& forall|m: int|
                0 <= m < k ==> some_attack_does(hand, target, i, (#[trigger] all[m]).1)
        }),
    decreases n,
{
    let k = attacks_in(hand, target, i).len() as int;
    let all = attacks_in(hand, target, n);
    let rest = hand.remove(i);
    if n == i + 1 {
        lemma_attacks_come_from_cards(hand, target, i);
        lemma_attacks_of_prefix(hand, rest, target, i);
        assert(all.remove(k) =~= attacks_in(hand, target, i));
        assert forall|m: int| 0 <= m < k implies some_attack_does(
            hand,
            target,
            i,
            (#[trigger] all[m]).1,
        ) by {
            assert(attacks_in(hand, target, i)[m] == all[m]);
        }
    } else {
        lemma_attack_taken_out(hand, target, i, n - 1);
        let before = attacks_in(hand, target, n - 1);
        assert(rest[n - 2] == hand[n - 1]);
        assert forall|m: int| 0 <= m < before.len() implies #[trigger] all[m] == before[m] by {}
        if hand[n - 1].class.ty == CardType::Attack {
            assert(is_attack_at(hand, n - 1));
            assert(all.remove(k) =~= before.remove(k).push(all.last()));
        }
        assert forall|m: int| 0 <= m < k implies some_attack_does(
            hand,
            target,
            i,
            (#[trigger] all[m]).1,
        ) by {
            assert(all[m] == before[m]);
        }
    }
}

proof fn lemma_attacks_come_from_cards(hand: Seq<HandCard>, target: int, n: int)
    requires
        0 <= n <= hand.len(),
    ensures
        forall|m: int|
            0 <= m < attacks_in(hand, target, n).len() ==> some_attack_does(
                hand,
                target,
                n,
                (#[trigger] attacks_in(hand, target, n)[m]).1,
            ),
    decreases n,
{
    if n > 0 {
        lemma_attacks_come_from_cards(hand, target, n - 1);
        let all = attacks_in(hand, target, n);
        let before = attacks_in(hand, target, n - 1);
        assert forall|m: int| 0 <= m < all.len() implies some_attack_does(
            hand,
            target,
            n,
            (#[trigger] all[m]).1,
        ) by {
            if m < before.len() {
                assert(all[m] == before[m]);
                assert(some_attack_does(hand, target, n - 1, before[m].1));
            } else {
                assert(is_attack_at(hand, n - 1));
            }
        }
    }
}

proof fn lemma_spend_the_first(x: (i32, i32), s: Seq<(i32, i32)>, energy: int, n: int)
    requires
        0 <= n <= s.len(),
    ensures
        ({
            let paid = x.0 <= energy;
            let left = if paid {
                energy - x.0
            } else {
                energy
            };
            let done = if paid {
                x.1 as int
            } else {
                0
            };
            let later = spend(s, left, n);
            spend(seq![x] + s, energy, n + 1) == (later.0, done + later.1)
        }),
    decreases n,
{
    let all = seq![x] + s;
    if n == 0 {
        assert(all[0] == x);
        assert(spend(all, energy, 0) == (energy, 0int));
    } else {
        lemma_spend_the_first(x, s, energy, n - 1);
        assert(all[n] == s[n - 1]);
    }
}

/// The strongest attack is counted first: where it can be paid for, the hand can do its damage and
/// what the rest of the hand can do with the energy that is left; where it cannot, only what the
/// rest can do with all of the energy.
pub proof fn the_strongest_attack_counts_first(game: Game, rest: Game, target: int, i: int)
    requires
        is_strongest(game.hand@, target, i),
        rest.hand@ == game.hand@.remove(i),
        rest.energy == (if cost_of(game.hand@[i].class) <= game.energy {
            game.energy - cost_of(game.hand@[i].class)
        } else {
            game.energy as int
        }),
    ensures
        potential(game, target) == potential(rest, target) + (if cost_of(game.hand@[i].class)
            <= game.energy {
            game.hand@[i].damage@[target] as int
        } else {
            0
        }),
{
    let hand = game.hand@;
    let n = hand.len() as int;
    let all = attacks_in(hand, target, n);
    let k = attacks_in(hand, target, i).len() as int;
    lemma_attack_taken_out(hand, target, i, n);
    lemma_attacks_come_from_cards(hand, target, n);
    assert forall|m: int| 0 <= m < all.len() implies (#[trigger] all[m]).1 <= all[k].1 by {
        assert(some_attack_does(hand, target, n, all[m].1));
    }
    assert forall|m: int| 0 <= m < k implies (#[trigger] all[m]).1 < all[k].1 by {
        assert(some_attack_does(hand, target, i, all[m].1));
    }
    lemma_strongest_ranks_first(all, k);
    let ranked = by_damage(all.remove(k));
    lemma_spend_the_first(all[k], ranked, game.energy as int, ranked.len() as int);
}

/// A hand without an attack can do no damage.
pub proof fn no_attack_does_no_damage(game: Game, target: int)
    requires
        forall|i: int| !#[trigger] is_attack_at(game.hand@, i),
    ensures
        potential(game, target) == 0,
{
    lemma_attacks_come_from_cards(game.hand@, target, game.hand@.len() as int);
    let all = attacks_in(game.hand@, target, game.hand@.len() as int);
    if all.len() > 0 {
        assert(some_attack_does(game.hand@, target, game.hand@.len() as int, all[0].1));
    }
}

/// The player's own reckoning of the damage that the hand can do is the one that these laws are
/// about.
pub proof fn potential_is_reckoned(game: Game, agent: GreedyAgent, target: usize, r: i32)
    requires
        damage_known(game),
        target < game.monsters@.len(),
        potential_fits(game, target as int),
        call_ensures(GreedyAgent::attack_potential, (&agent, &game, target), r),
    ensures
        r == potential(game, target as int),
{
}

/// Card `ci` can be played at `target`, with monster `t` aimed at: a card without a target just so;
/// one with a target at `t` where that is on offer, and otherwise at the first monster of the fight
/// at which it is.
pub open spec fn can_play_at(game: Game, t: int, ci: int, target: Option<usize>) -> bool {
    let at = |m: int| StepKind::PlayCard { hand_index: ci as usize, target: Some(m as usize) };
    &&& 0 <= ci < game.hand@.len()
    &&& offered(game.steps@, StepKind::PlayCard { hand_index: ci as usize, target })
    &&& game.hand@[ci].has_target <==> target is Some
    &&& target matches Some(m) ==> {
        ||| m == t
        ||| {
            &&& !offered(game.steps@, at(t))
            &&& m < game.monsters@.len()
            &&& game.monsters@[m as int].creature.actionable
            &&& forall|j: int|
                0 <= j < m && (#[trigger] game.monsters@[j]).creature.actionable ==> !offered(
                    game.steps@,
                    at(j),
                )
        }
    }
}

/// Card `ci` can be played.
pub open spec fn can_play(game: Game, t: int, ci: int) -> bool {
    exists|target: Option<usize>| #[trigger] can_play_at(game, t, ci, target)
}

/// A card of the hand that `f` holds of can be played.
pub open spec fn has_play(game: Game, t: int, f: spec_fn(CardClass) -> bool) -> bool {
    exists|ci: int| #[trigger] can_play(game, t, ci) && f(game.hand@[ci].class)
}

/// The step plays the first card of the hand that can be played and that `f` holds of.
pub open spec fn plays_first(
    game: Game,
    t: int,
    step: StepKind,
    f: spec_fn(CardClass) -> bool,
) -> bool {
    step matches StepKind::PlayCard { hand_index, target } && {
        &&& can_play_at(game, t, hand_index as int, target)
        &&& f(game.hand@[hand_index as int].class)
        &&& forall|ci: int| #[trigger]
            can_play(game, t, ci) && f(game.hand@[ci].class) ==> hand_index <= ci
    }
}

/// Holds of attacks.
pub open spec fn attacking() -> spec_fn(CardClass) -> bool {
    |class: CardClass| class.ty == CardType::Attack
}

/// Holds of Bash.
pub open spec fn bashing() -> spec_fn(CardClass) -> bool {
    |class: CardClass| class.ty == CardType::Attack && class.name == CardName::Bash
}

/// Holds of the cards that are played to block.
pub open spec fn blocking() -> spec_fn(CardClass) -> bool {
    |class: CardClass|
        class.ty != CardType::Attack && (class.name == CardName::Defend || class.name
            == CardName::ShrugItOff || class.name == CardName::IronWave || class.name
            == CardName::TrueGrit)
}

/// Holds of the cards that are neither attacks nor played to block.
pub open spec fn assisting() -> spec_fn(CardClass) -> bool {
    |class: CardClass| class.ty != CardType::Attack && !(blocking())(class)
}

/// Holds of powers.
pub open spec fn empowering() -> spec_fn(CardClass) -> bool {
    |class: CardClass| class.ty == CardType::Power && !(blocking())(class)
}

proof fn lemma_reach(game: Game, ci: int, from: int)
    requires
        0 <= from,
    ensures
        match reachable_from(game, ci, from) {
            Some(m) => {
                &&& from <= m < game.monsters@.len()
                &&& game.monsters@[m as int].creature.actionable
                &&& offered(
                    game.steps@,
                    StepKind::PlayCard { hand_index: ci as usize, target: Some(m) },
                )
                &&& forall|j: int|
                    from <= j < m && (#[trigger] game.monsters@[j]).creature.actionable ==> !offered(
                        game.steps@,
                        StepKind::PlayCard { hand_index: ci as usize, target: Some(j as usize) },
                    )
            },
            None => forall|j: int|
                from <= j < game.monsters@.len() && (
                #[trigger] game.monsters@[j]).creature.actionable ==> !offered(
                    game.steps@,
                    StepKind::PlayCard { hand_index: ci as usize, target: Some(j as usize) },
                ),
        },
    decreases game.monsters@.len() - from,
{
    assert(game.monsters@.len() == game.monsters.len());
    if from < game.monsters@.len() {
        lemma_reach(game, ci, from + 1);
    }
}

proof fn lemma_way(game: Game, t: int, ci: int)
    requires
        0 <= ci < game.hand@.len(),
        is_weakest(game.monsters@, t),
    ensures
        way_to_play(game, t, ci) is Some <==> can_play(game, t, ci),
        way_to_play(game, t, ci) matches Some(target) ==> can_play_at(game, t, ci, target),
{
    assert(game.monsters@.len() == game.monsters.len());
    lemma_reach(game, ci, 0);
    if let Some(target) = way_to_play(game, t, ci) {
        if target is Some && target != Some(t as usize) {
            let m = target.unwrap();
            assert forall|j: int|
                0 <= j < m && (#[trigger] game.monsters@[j]).creature.actionable implies !offered(
                game.steps@,
                StepKind::PlayCard { hand_index: ci as usize, target: Some(j as usize) },
            ) by {}
        }
        assert(can_play_at(game, t, ci, target));
    }
    if can_play(game, t, ci) {
        let target = choose|target: Option<usize>| #[trigger] can_play_at(game, t, ci, target);
        if target is Some {
            let m = target.unwrap();
            if m != t {
                assert(game.monsters@[m as int].creature.actionable);
            }
        }
    }
}

/// The plays for a purpose are those of the cards that can be played for it, in the order of the
/// hand.
proof fn lemma_plays_in_order(game: Game, t: int, wanted: Purpose, n: int)
    requires
        0 <= n <= game.hand@.len(),
        is_weakest(game.monsters@, t),
    ensures
        ({
            let row = plays(game, t, wanted, n);
            &&& forall|k: int|
                0 <= k < row.len() ==> {
                    let p = #[trigger] row[k];
                    &&& p.0 < n
                    &&& p.1 == game.hand@[p.0 as int].class
                    &&& purpose(p.1) == wanted
                    &&& can_play_at(game, t, p.0 as int, p.2)
                }
            &&& forall|k: int, l: int|
                0 <= k < l < row.len() ==> (#[trigger] row[k]).0 < (#[trigger] row[l]).0
            &&& forall|ci: int|
                #[trigger] can_play(game, t, ci) && ci < n && purpose(game.hand@[ci].class)
                    == wanted ==> exists|k: int| 0 <= k < row.len() && #[trigger] row[k].0 == ci
        }),
    decreases n,
{
    assert(game.hand@.len() == game.hand.len());
    if n > 0 {
        lemma_plays_in_order(game, t, wanted, n - 1);
        lemma_way(game, t, n - 1);
        let before = plays(game, t, wanted, n - 1);
        let row = plays(game, t, wanted, n);
        assert forall|k: int| 0 <= k < row.len() implies {
            let p = #[trigger] row[k];
            &&& p.0 < n
            &&& p.1 == game.hand@[p.0 as int].class
            &&& purpose(p.1) == wanted
            &&& can_play_at(game, t, p.0 as int, p.2)
        } by {
            if k < before.len() {
                assert(row[k] == before[k]);
            }
        }
        assert forall|k: int, l: int| 0 <= k < l < row.len() implies (#[trigger] row[k]).0 < (
        #[trigger] row[l]).0 by {
            assert(row[k] == before[k]);
            if l < before.len() {
                assert(row[l] == before[l]);
            }
        }
        assert forall|ci: int|
            #[trigger] can_play(game, t, ci) && ci < n && purpose(game.hand@[ci].class)
                == wanted implies exists|k: int| 0 <= k < row.len() && #[trigger] row[k].0 == ci by {
            if ci < n - 1 {
                let k = choose|k: int| 0 <= k < before.len() && #[trigger] before[k].0 == ci;
                assert(row[k].0 == ci);
            } else {
                let target = choose|target: Option<usize>| #[trigger]
                    can_play_at(game, t, ci, target);
                assert(ci == n - 1);
                assert(row[row.len() - 1].0 == ci);
            }
        }
    }
}

/// Of a row of plays in order, the one at `k` is the first that `f` holds of.
proof fn lemma_first_play(
    game: Game,
    t: int,
    wanted: Purpose,
    f: spec_fn(CardClass) -> bool,
    k: int,
)
    requires
        is_weakest(game.monsters@, t),
        0 <= k < plays(game, t, wanted, game.hand@.len() as int).len(),
        f(plays(game, t, wanted, game.hand@.len() as int)[k].1),
        forall|j: int|
            0 <= j < k ==> !f((#[trigger] plays(game, t, wanted, game.hand@.len() as int)[j]).1),
        forall|class: CardClass| #[trigger] f(class) ==> purpose(class) == wanted,
    ensures
        ({
            let p = plays(game, t, wanted, game.hand@.len() as int)[k];
            plays_first(
                game,
                t,
                StepKind::PlayCard { hand_index: p.0, target: p.2 },
                f,
            )
        }),
        has_play(game, t, f),
{
    let n = game.hand@.len() as int;
    let row = plays(game, t, wanted, n);
    let p = row[k];
    lemma_plays_in_order(game, t, wanted, n);
    assert(can_play_at(game, t, p.0 as int, p.2));
    assert(can_play(game, t, p.0 as int));
    assert forall|ci: int| #[trigger]
        can_play(game, t, ci) && f(game.hand@[ci].class) implies p.0 <= ci by {
        let target = choose|target: Option<usize>| #[trigger] can_play_at(game, t, ci, target);
        assert(f(game.hand@[ci].class));
        let j = choose|j: int| 0 <= j < row.len() && #[trigger] row[j].0 == ci;
        assert(row[j].1 == game.hand@[ci].class);
        if j < k {
            assert(!f(row[j].1));
        }
    }
}

proof fn lemma_no_play(game: Game, t: int, wanted: Purpose, f: spec_fn(CardClass) -> bool)
    requires
        is_weakest(game.monsters@, t),
        forall|j: int|
            0 <= j < plays(game, t, wanted, game.hand@.len() as int).len() ==> !f(
                (#[trigger] plays(game, t, wanted, game.hand@.len() as int)[j]).1,
            ),
        forall|class: CardClass| #[trigger] f(class) ==> purpose(class) == wanted,
    ensures
        !has_play(game, t, f),
{
    let n = game.hand@.len() as int;
    let row = plays(game, t, wanted, n);
    lemma_plays_in_order(game, t, wanted, n);
    if has_play(game, t, f) {
        let ci = choose|ci: int| #[trigger] can_play(game, t, ci) && f(game.hand@[ci].class);
        let target = choose|target: Option<usize>| #[trigger] can_play_at(game, t, ci, target);
        assert(f(game.hand@[ci].class));
        let j = choose|j: int| 0 <= j < row.len() && #[trigger] row[j].0 == ci;
        assert(row[j].1 == game.hand@[ci].class);
    }
}

proof fn lemma_bash_found(s: Seq<Play>, from: int) -> (k: int)
    requires
        0 <= from <= s.len(),
    ensures
        from <= k <= s.len(),
        forall|j: int| from <= j < k ==> (#[trigger] s[j]).1.name != CardName::Bash,
        k < s.len() ==> bash_from(s, from) == Some(s[k]) && s[k].1.name == CardName::Bash,
        k == s.len() ==> bash_from(s, from) is None,
    decreases s.len() - from,
{
    if from < s.len() && s[from].1.name != CardName::Bash {
        lemma_bash_found(s, from + 1)
    } else {
        from
    }
}

proof fn lemma_power_found(s: Seq<Play>, from: int) -> (k: int)
    requires
        0 <= from <= s.len(),
    ensures
        from <= k <= s.len(),
        forall|j: int| from <= j < k ==> (#[trigger] s[j]).1.ty != CardType::Power,
        k < s.len() ==> power_from(s, from) == Some(s[k]) && s[k].1.ty == CardType::Power,
        k == s.len() ==> power_from(s, from) is None,
    decreases s.len() - from,
{
    if from < s.len() && s[from].1.ty != CardType::Power {
        lemma_power_found(s, from + 1)
    } else {
        from
    }
}

/// What the player does, first things first, with monster `t` aimed at:
/// where it can be killed and an attack played, the first Bash or else the first attack;
/// otherwise the first power, unless a monster is enraged or the blow to come would kill;
/// otherwise nothing against a sleeper that cannot be killed;
/// otherwise the first block card, where damage would get through and nobody is enraged;
/// otherwise the first Bash, where the aim is not vulnerable;
/// otherwise the first attack; otherwise, where nobody is enraged, the first other card; and
/// otherwise it ends its turn.
pub proof fn first_things_come_first(game: Game, agent: GreedyAgent, t: int, r: StepKind)
    requires
        judgeable(game),
        aim(game) == Some(t),
        call_ensures(GreedyAgent::decide, (&agent, &game), r),
    ensures
        is_weakest(game.monsters@, t),
        ({
            let target = game.monsters@[t];
            let kill = potential(game, t) >= target.creature.cur_hp + target.creature.block;
            let raced = exists|i: int|
                0 <= i < game.monsters@.len() && (#[trigger] game.monsters@[i]).creature.actionable
                    && game.monsters@[i].creature.enraged;
            let through = total_of(game.monsters@, blow()) - game.player.block;
            let safe = floored(through) < game.player.cur_hp;
            let asleep = target.intent == Intent::Sleep && !kill;
            let goes_all_in = kill && has_play(game, t, attacking());
            let grows = !goes_all_in && !raced && safe && has_play(game, t, empowering());
            let waits = !goes_all_in && !grows && asleep;
            let covers = !goes_all_in && !grows && !waits && !raced && through > 0 && has_play(
                game,
                t,
                blocking(),
            );
            let free = !goes_all_in && !grows && !waits && !covers;
            let opens = free && !target.creature.vulnerable && has_play(game, t, bashing());
            let hits = free && !opens && has_play(game, t, attacking());
            let helps = free && !opens && !hits && !raced && has_play(game, t, assisting());
            &&& goes_all_in ==> plays_first(game, t, r, if has_play(game, t, bashing()) {
                bashing()
            } else {
                attacking()
            })
            &&& grows ==> plays_first(game, t, r, empowering())
            &&& waits ==> r == StepKind::EndTurn
            &&& covers ==> plays_first(game, t, r, blocking())
            &&& opens ==> plays_first(game, t, r, bashing())
            &&& hits ==> plays_first(game, t, r, attacking())
            &&& helps ==> plays_first(game, t, r, assisting())
            &&& free && !opens && !hits && !helps ==> r == StepKind::EndTurn
        }),
{
    the_weakest_is_aimed_at(game);
    what_gets_through(game);
    let n = game.hand@.len() as int;
    let attacks = plays(game, t, Purpose::Attack, n);
    let block_plays = plays(game, t, Purpose::Block, n);
    let others = plays(game, t, Purpose::Other, n);
    lemma_plays_in_order(game, t, Purpose::Attack, n);
    lemma_plays_in_order(game, t, Purpose::Block, n);
    lemma_plays_in_order(game, t, Purpose::Other, n);
    let b = lemma_bash_found(attacks, 0);
    let p = lemma_power_found(others, 0);
    if b < attacks.len() {
        lemma_first_play(game, t, Purpose::Attack, bashing(), b);
    } else {
        lemma_no_play(game, t, Purpose::Attack, bashing());
    }
    if attacks.len() > 0 {
        lemma_first_play(game, t, Purpose::Attack, attacking(), 0);
    } else {
        lemma_no_play(game, t, Purpose::Attack, attacking());
    }
    if p < others.len() {
        lemma_first_play(game, t, Purpose::Other, empowering(), p);
    } else {
        lemma_no_play(game, t, Purpose::Other, empowering());
    }
    if block_plays.len() > 0 {
        lemma_first_play(game, t, Purpose::Block, blocking(), 0);
    } else {
        lemma_no_play(game, t, Purpose::Block, blocking());
    }
    if others.len() > 0 {
        lemma_first_play(game, t, Purpose::Other, assisting(), 0);
    } else {
        lemma_no_play(game, t, Purpose::Other, assisting());
    }
    assert(r == decision(game));
}

/// Without a monster in the fight the player ends its turn.
pub proof fn nobody_to_fight_ends_the_turn(game: Game, agent: GreedyAgent, r: StepKind)
    requires
        judgeable(game),
        forall|i: int|
            0 <= i < game.monsters@.len() ==> !(#[trigger] game.monsters@[i]).creature.actionable,
        call_ensures(GreedyAgent::decide, (&agent, &game), r),
    ensures
        r == StepKind::EndTurn,
{
    the_weakest_is_aimed_at(game);
}

/// The step that the player picks is the first on offer that does what it decided on; the very
/// first where none does.
pub proof fn the_decision_is_picked(game: Game, before: GreedyAgent, after: GreedyAgent, i: usize)
    requires
        GreedyAgent::picks(before, game, after, i),
    ensures
        offered(game.steps@, decision(game)) ==> {
            &&& i < game.steps@.len()
            &&& game.steps@[i as int].kind == decision(game)
            &&& forall|j: int| 0 <= j < i ==> (#[trigger] game.steps@[j]).kind != decision(game)
        },
        !offered(game.steps@, decision(game)) ==> i == 0,
{
    assert(game.steps@.len() == game.steps.len());
    crate::step::the_first_offer_is_found(game.steps@, decision(game), 0);
}

} // verus!
