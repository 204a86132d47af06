//! The player that looks at the current turn only: it aims at one monster, kills it where it can,
//! and otherwise balances set-up, block and damage.

use crate::agent::CombatAgent;
use crate::cards::{
    blocks, card_base_damage, card_cost, cost_of, is_block_card, CardClass, CardName,
    CardType, HandCard,
};
use crate::game::{Creature, Game, Intent, Monster, Status};
use crate::step::{index_of, offer_from, offered, StepKind};
use vstd::prelude::*;

verus! {

/// The player that looks at the current turn only.
#[derive(Debug)]
pub struct GreedyAgent;

/// `n` is a value of `i32`.
pub open spec fn fits(n: int) -> bool {
    i32::MIN <= n <= i32::MAX
}

/// The damage that a monster is about to do, before the player's block.
pub open spec fn threat(m: Monster) -> int {
    match m.intent.hits() {
        Some(hits) if m.creature.actionable => m.hit * hits,
        _ => 0,
    }
}

/// The damage that the first `n` monsters are about to do, before the player's block.
pub open spec fn threats(monsters: Seq<Monster>, n: int) -> int
    decreases n,
{
    if n <= 0 {
        0
    } else {
        threats(monsters, n - 1) + threat(monsters[n - 1])
    }
}

/// The damage that is about to get through the player's block.
pub open spec fn incoming_of(game: Game) -> int {
    let through = threats(game.monsters@, game.monsters@.len() as int) - game.player.block;
    if through < 0 {
        0
    } else {
        through
    }
}

/// Adding up the damage stays within `i32`.
pub open spec fn incoming_fits(game: Game) -> bool {
    &&& forall|i: int| 0 <= i < game.monsters@.len() ==> fits(threat(#[trigger] game.monsters@[i]))
    &&& forall|n: int| 0 <= n <= game.monsters@.len() ==> fits(#[trigger] threats(game.monsters@, n))
    &&& fits(threats(game.monsters@, game.monsters@.len() as int) - game.player.block)
}

/// Cost and damage against `target` of the attacks among the first `n` cards of the hand.
pub open spec fn attacks_in(hand: Seq<HandCard>, target: int, n: int) -> Seq<(i32, i32)>
    decreases n,
{
    if n <= 0 {
        Seq::empty()
    } else if hand[n - 1].class.ty == CardType::Attack {
        attacks_in(hand, target, n - 1).push(
            (cost_of(hand[n - 1].class), hand[n - 1].damage@[target]),
        )
    } else {
        attacks_in(hand, target, n - 1)
    }
}

/// Puts an attack behind those that do at least as much damage and before those that do less.
pub open spec fn insert_by_damage(s: Seq<(i32, i32)>, x: (i32, i32)) -> Seq<(i32, i32)>
    decreases s.len(),
{
    if s.len() == 0 {
        seq![x]
    } else if s.last().1 >= x.1 {
        s.push(x)
    } else {
        insert_by_damage(s.drop_last(), x).push(s.last())
    }
}

/// The attacks from the most damage down; those that do the same keep their order.
pub open spec fn by_damage(s: Seq<(i32, i32)>) -> Seq<(i32, i32)>
    decreases s.len(),
{
    if s.len() == 0 {
        s
    } else {
        insert_by_damage(by_damage(s.drop_last()), s.last())
    }
}

/// The energy that is left and the damage that is done once each of the first `n` attacks has
/// been played that could still be paid for.
pub open spec fn spend(s: Seq<(i32, i32)>, energy: int, n: int) -> (int, int)
    decreases n,
{
    if n <= 0 {
        (energy, 0)
    } else {
        let (left, total) = spend(s, energy, n - 1);
        if s[n - 1].0 <= left {
            (left - s[n - 1].0, total + s[n - 1].1)
        } else {
            (left, total)
        }
    }
}

/// The attacks of the hand against `target`, from the most damage down.
pub open spec fn ranked_attacks(game: Game, target: int) -> Seq<(i32, i32)> {
    by_damage(attacks_in(game.hand@, target, game.hand@.len() as int))
}

/// The damage that the hand can do to `target` this turn, taking the strongest attacks first.
pub open spec fn potential(game: Game, target: int) -> int {
    let ranked = ranked_attacks(game, target);
    spend(ranked, game.energy as int, ranked.len() as int).1
}

/// Counting energy and damage stays within `i32`.
pub open spec fn potential_fits(game: Game, target: int) -> bool {
    let ranked = ranked_attacks(game, target);
    forall|n: int|
        0 <= n <= ranked.len() ==> fits((#[trigger] spend(ranked, game.energy as int, n)).0) && fits(
            spend(ranked, game.energy as int, n).1,
        )
}

/// Every attack in the hand knows its damage against every monster.
pub open spec fn damage_known(game: Game) -> bool {
    forall|i: int|
        0 <= i < game.hand@.len() && (#[trigger] game.hand@[i]).class.ty == CardType::Attack
            ==> game.hand@[i].damage@.len() == game.monsters@.len()
}

/// The ranking of the attacks keeps each of them and runs from the most damage down.
pub proof fn by_damage_is_a_descending_order(s: Seq<(i32, i32)>)
    ensures
        by_damage(s).to_multiset() == s.to_multiset(),
        by_damage(s).len() == s.len(),
        forall|i: int, j: int|
            0 <= i < j < by_damage(s).len() ==> #[trigger] by_damage(s)[i].1 >= #[trigger] by_damage(
                s,
            )[j].1,
    decreases s.len(),
{
    broadcast use vstd::seq_lib::group_to_multiset_ensures;

    if s.len() > 0 {
        by_damage_is_a_descending_order(s.drop_last());
        lemma_insert_by_damage(by_damage(s.drop_last()), s.last());
        assert(s.drop_last().push(s.last()) =~= s);
    }
}

proof fn lemma_insert_by_damage(s: Seq<(i32, i32)>, x: (i32, i32))
    requires
        forall|i: int, j: int| 0 <= i < j < s.len() ==> #[trigger] s[i].1 >= #[trigger] s[j].1,
    ensures
        insert_by_damage(s, x).to_multiset() == s.to_multiset().insert(x),
        insert_by_damage(s, x).len() == s.len() + 1,
        forall|i: int, j: int|
            0 <= i < j < s.len() + 1 ==> #[trigger] insert_by_damage(s, x)[i].1
                >= #[trigger] insert_by_damage(s, x)[j].1,
        forall|i: int|
            0 <= i < s.len() + 1 ==> (s.len() > 0 && #[trigger] insert_by_damage(s, x)[i].1
                >= s.last().1) || insert_by_damage(s, x)[i] == x,
    decreases s.len(),
{
    broadcast use vstd::seq_lib::group_to_multiset_ensures;

    if s.len() == 0 {
        assert(seq![x] =~= s.push(x));
    } else if s.last().1 >= x.1 {
    } else {
        let shorter = s.drop_last();
        lemma_insert_by_damage(shorter, x);
        assert(shorter.push(s.last()) =~= s);
        let r = insert_by_damage(shorter, x);
        assert forall|i: int| 0 <= i < r.len() implies #[trigger] r[i].1 >= s.last().1 by {
            if shorter.len() > 0 && r[i] != x {
                assert(r[i].1 >= shorter.last().1);
                assert(shorter.last() == s[s.len() - 2]);
                assert(s[s.len() - 2].1 >= s[s.len() - 1].1);
            }
        }
        assert(r.push(s.last()).to_multiset() =~= s.to_multiset().insert(x));
    }
}

proof fn lemma_insert_position(s: Seq<(i32, i32)>, x: (i32, i32), i: int)
    requires
        0 <= i <= s.len(),
        i > 0 ==> s[i - 1].1 >= x.1,
        forall|j: int| i <= j < s.len() ==> (#[trigger] s[j]).1 < x.1,
    ensures
        insert_by_damage(s, x) == s.insert(i, x),
    decreases s.len(),
{
    if s.len() == 0 {
        assert(s.insert(i, x) =~= seq![x]);
    } else if i == s.len() {
        assert(s.insert(i, x) =~= s.push(x));
    } else {
        assert(s[s.len() - 1].1 < x.1);
        lemma_insert_position(s.drop_last(), x, i);
        assert(s.drop_last().insert(i, x).push(s.last()) =~= s.insert(i, x));
    }
}

/// What a monster can take before it dies.
pub open spec fn toughness(m: Monster) -> int {
    m.creature.cur_hp + m.creature.block
}

/// `a` is the better aim: it can take less, or as much and is about to attack while `b` is not.
pub open spec fn better_aim(a: Monster, b: Monster) -> bool {
    ||| toughness(a) < toughness(b)
    ||| toughness(a) == toughness(b) && a.intent.hits() is Some && b.intent.hits() is None
}

/// The best aim among the first `n` monsters that take part in the fight, the first of equals.
pub open spec fn aim_among(monsters: Seq<Monster>, n: int) -> Option<int>
    decreases n,
{
    if n <= 0 {
        None
    } else {
        let earlier = aim_among(monsters, n - 1);
        if !monsters[n - 1].creature.actionable {
            earlier
        } else {
            match earlier {
                None => Some(n - 1),
                Some(best) => if better_aim(monsters[n - 1], monsters[best]) {
                    Some(n - 1)
                } else {
                    earlier
                },
            }
        }
    }
}

/// The monster that the player aims at, where one takes part in the fight.
pub open spec fn aim(game: Game) -> Option<int> {
    aim_among(game.monsters@, game.monsters@.len() as int)
}

/// The aim takes part in the fight, and no monster that does is a better one.
pub proof fn aim_is_best(monsters: Seq<Monster>, n: int)
    requires
        0 <= n <= monsters.len(),
    ensures
        match aim_among(monsters, n) {
            None => forall|i: int| 0 <= i < n ==> !(#[trigger] monsters[i]).creature.actionable,
            Some(t) => {
                &&& 0 <= t < n
                &&& monsters[t].creature.actionable
                &&& forall|i: int|
                    0 <= i < n && (#[trigger] monsters[i]).creature.actionable ==> !better_aim(
                        monsters[i],
                        monsters[t],
                    )
            },
        },
    decreases n,
{
    if n > 0 {
        aim_is_best(monsters, n - 1);
    }
}

/// Playing card `ci` of the hand at `target`.
pub open spec fn play(ci: int, target: Option<usize>) -> StepKind {
    StepKind::PlayCard { hand_index: ci as usize, target }
}

/// The first monster at or after `from` that takes part in the fight and at which the card can
/// be played.
pub open spec fn reachable_from(game: Game, ci: int, from: int) -> Option<usize>
    decreases game.monsters@.len() - from,
{
    if from < 0 || from >= game.monsters@.len() {
        None
    } else if game.monsters@[from].creature.actionable && offered(
        game.steps@,
        play(ci, Some(from as usize)),
    ) {
        Some(from as usize)
    } else {
        reachable_from(game, ci, from + 1)
    }
}

/// How card `ci` can be played now: at the aim where that is on offer, else at the first monster
/// at which it is; a card without a target, just so.
pub open spec fn way_to_play(game: Game, aim: int, ci: int) -> Option<Option<usize>> {
    if game.hand@[ci].has_target {
        if offered(game.steps@, play(ci, Some(aim as usize))) {
            Some(Some(aim as usize))
        } else {
            match reachable_from(game, ci, 0) {
                Some(mi) => Some(Some(mi)),
                None => None,
            }
        }
    } else if offered(game.steps@, play(ci, None)) {
        Some(None)
    } else {
        None
    }
}

/// What a card is played for.
#[derive(Clone, Copy, PartialEq, Eq, Debug, Structural)]
pub enum Purpose {
    Attack,
    Block,
    Other,
}

/// What a card is played for: an attack counts as one even where it also blocks.
pub open spec fn purpose(class: CardClass) -> Purpose {
    if class.ty == CardType::Attack {
        Purpose::Attack
    } else if blocks(class) {
        Purpose::Block
    } else {
        Purpose::Other
    }
}

/// A card that can be played: its place in the hand, its class and its target.
pub type Play = (usize, CardClass, Option<usize>);

/// The cards among the first `n` of the hand that can be played for `wanted`, in hand order.
pub open spec fn plays(game: Game, aim: int, wanted: Purpose, n: int) -> Seq<Play>
    decreases n,
{
    if n <= 0 {
        Seq::empty()
    } else {
        let earlier = plays(game, aim, wanted, n - 1);
        match way_to_play(game, aim, n - 1) {
            Some(target) if purpose(game.hand@[n - 1].class) == wanted => earlier.push(
                ((n - 1) as usize, game.hand@[n - 1].class, target),
            ),
            _ => earlier,
        }
    }
}

/// The first of the plays, from `from` on, that is a Bash.
pub open spec fn bash_from(s: Seq<Play>, from: int) -> Option<Play>
    decreases s.len() - from,
{
    if from < 0 || from >= s.len() {
        None
    } else if s[from].1.name == CardName::Bash {
        Some(s[from])
    } else {
        bash_from(s, from + 1)
    }
}

/// The first of the plays, from `from` on, that is a power.
pub open spec fn power_from(s: Seq<Play>, from: int) -> Option<Play>
    decreases s.len() - from,
{
    if from < 0 || from >= s.len() {
        None
    } else if s[from].1.ty == CardType::Power {
        Some(s[from])
    } else {
        power_from(s, from + 1)
    }
}

/// The step that plays `p`.
pub open spec fn step_of(p: Play) -> StepKind {
    play(p.0 as int, p.2)
}

/// A monster that takes part in the fight grows stronger when a card that is no attack is played.
pub open spec fn enraged(game: Game) -> bool {
    exists|i: int|
        0 <= i < game.monsters@.len() && (#[trigger] game.monsters@[i]).creature.actionable
            && game.monsters@[i].creature.enraged
}

/// The hand can kill the monster this turn.
pub open spec fn lethal(game: Game, aim: int) -> bool {
    potential(game, aim) >= toughness(game.monsters@[aim])
}

/// The damage that is worth blocking: none against an enraged monster, which is raced instead.
pub open spec fn block_wanted(game: Game) -> int {
    if enraged(game) {
        0
    } else {
        incoming_of(game)
    }
}

/// The step to take against the monster `aim`.
pub open spec fn decision_against(game: Game, aim: int) -> StepKind {
    let n = game.hand@.len() as int;
    let attacks = plays(game, aim, Purpose::Attack, n);
    let block_plays = plays(game, aim, Purpose::Block, n);
    let others = plays(game, aim, Purpose::Other, n);
    let target = game.monsters@[aim];
    let kill = lethal(game, aim);
    if kill && bash_from(attacks, 0) is Some {
        step_of(bash_from(attacks, 0).unwrap())
    } else if kill && attacks.len() > 0 {
        step_of(attacks[0])
    } else if !enraged(game) && block_wanted(game) < game.player.cur_hp && power_from(
        others,
        0,
    ) is Some {
        step_of(power_from(others, 0).unwrap())
    } else if target.intent == Intent::Sleep && !kill {
        StepKind::EndTurn
    } else if block_wanted(game) > 0 && block_plays.len() > 0 {
        step_of(block_plays[0])
    } else if !target.creature.vulnerable && bash_from(attacks, 0) is Some {
        step_of(bash_from(attacks, 0).unwrap())
    } else if attacks.len() > 0 {
        step_of(attacks[0])
    } else if !enraged(game) && others.len() > 0 {
        step_of(others[0])
    } else {
        StepKind::EndTurn
    }
}

/// The step that the player wants to take.
pub open spec fn decision(game: Game) -> StepKind {
    match aim(game) {
        None => StepKind::EndTurn,
        Some(t) => decision_against(game, t),
    }
}

proof fn lemma_reachable(game: Game, ci: int, from: int)
    ensures
        reachable_from(game, ci, from) matches Some(mi) ==> offered(
            game.steps@,
            play(ci, Some(mi)),
        ),
    decreases game.monsters@.len() - from,
{
    assert(game.monsters@.len() == game.monsters.len());
    if 0 <= from < game.monsters@.len() {
        lemma_reachable(game, ci, from + 1);
    }
}

proof fn lemma_plays(game: Game, aim: int, wanted: Purpose, n: int)
    requires
        0 <= n <= game.hand@.len(),
    ensures
        forall|k: int|
            0 <= k < plays(game, aim, wanted, n).len() ==> is_play(
                game,
                wanted,
                #[trigger] plays(game, aim, wanted, n)[k],
            ),
    decreases n,
{
    assert(game.hand@.len() == game.hand.len());
    if n > 0 {
        lemma_plays(game, aim, wanted, n - 1);
        lemma_reachable(game, n - 1, 0);
        let before = plays(game, aim, wanted, n - 1);
        let now = plays(game, aim, wanted, n);
        assert forall|k: int| 0 <= k < now.len() implies is_play(
            game,
            wanted,
            #[trigger] now[k],
        ) by {
            if k < before.len() {
                assert(now[k] == before[k]);
            }
        }
    }
}

/// The play is on offer, and its card is in the hand and is played for `wanted`.
pub open spec fn is_play(game: Game, wanted: Purpose, p: Play) -> bool {
    &&& p.0 < game.hand@.len()
    &&& p.1 == game.hand@[p.0 as int].class
    &&& purpose(p.1) == wanted
    &&& offered(game.steps@, step_of(p))
}

proof fn lemma_bash(s: Seq<Play>, from: int)
    ensures
        bash_from(s, from) matches Some(p) ==> p.1.name == CardName::Bash && exists|k: int|
            0 <= k < s.len() && #[trigger] s[k] == p,
    decreases s.len() - from,
{
    if 0 <= from < s.len() {
        lemma_bash(s, from + 1);
    }
}

proof fn lemma_power(s: Seq<Play>, from: int)
    ensures
        power_from(s, from) matches Some(p) ==> p.1.ty == CardType::Power && exists|k: int|
            0 <= k < s.len() && #[trigger] s[k] == p,
    decreases s.len() - from,
{
    if 0 <= from < s.len() {
        lemma_power(s, from + 1);
    }
}

/// The step plays a card that is in the hand and is played for `wanted`.
pub open spec fn plays_for(game: Game, step: StepKind, wanted: Purpose) -> bool {
    step matches StepKind::PlayCard { hand_index, target } && hand_index < game.hand@.len()
        && purpose(game.hand@[hand_index as int].class) == wanted
}

/// The player ends its turn or plays a card in a way that is on offer.
pub proof fn decision_is_on_offer(game: Game)
    ensures
        decision(game) == StepKind::EndTurn || offered(game.steps@, decision(game)),
{
    if let Some(t) = aim(game) {
        let n = game.hand@.len() as int;
        lemma_plays(game, t, Purpose::Attack, n);
        lemma_plays(game, t, Purpose::Block, n);
        lemma_plays(game, t, Purpose::Other, n);
        lemma_bash(plays(game, t, Purpose::Attack, n), 0);
        lemma_power(plays(game, t, Purpose::Other, n), 0);
    }
}

/// Against an enraged monster the player plays attacks or nothing.
pub proof fn enraged_monsters_meet_attacks_only(game: Game)
    requires
        enraged(game),
    ensures
        decision(game) == StepKind::EndTurn || plays_for(game, decision(game), Purpose::Attack),
{
    if let Some(t) = aim(game) {
        let n = game.hand@.len() as int;
        lemma_plays(game, t, Purpose::Attack, n);
        lemma_bash(plays(game, t, Purpose::Attack, n), 0);
    }
}

/// Where the hand can kill the aim and holds an attack that can be played, an attack is played,
/// and a Bash where one can be.
pub proof fn a_kill_is_taken(game: Game, t: int)
    requires
        aim(game) == Some(t),
        lethal(game, t),
        plays(game, t, Purpose::Attack, game.hand@.len() as int).len() > 0,
    ensures
        plays_for(game, decision(game), Purpose::Attack),
        bash_from(plays(game, t, Purpose::Attack, game.hand@.len() as int), 0) matches Some(p)
            ==> decision(game) == step_of(p) && p.1.name == CardName::Bash,
{
    let n = game.hand@.len() as int;
    lemma_plays(game, t, Purpose::Attack, n);
    lemma_bash(plays(game, t, Purpose::Attack, n), 0);
}

/// A sleeping aim that cannot be killed now is left asleep: the player plays a power or ends its
/// turn.
pub proof fn sleepers_are_not_woken(game: Game, t: int)
    requires
        aim(game) == Some(t),
        game.monsters@[t].intent == Intent::Sleep,
        !lethal(game, t),
    ensures
        decision(game) == StepKind::EndTurn || (plays_for(game, decision(game), Purpose::Other)
            && game.hand@[decision(game)->PlayCard_hand_index as int].class.ty == CardType::Power),
{
    let n = game.hand@.len() as int;
    lemma_plays(game, t, Purpose::Other, n);
    lemma_power(plays(game, t, Purpose::Other, n), 0);
}

/// A blow that would kill is blocked before all else but a kill: where it can be met with a block
/// card, against an aim that is awake, the player plays one.
pub proof fn a_deadly_blow_is_blocked(game: Game, t: int)
    requires
        aim(game) == Some(t),
        !lethal(game, t),
        !enraged(game),
        game.monsters@[t].intent != Intent::Sleep,
        incoming_of(game) >= game.player.cur_hp > 0,
        plays(game, t, Purpose::Block, game.hand@.len() as int).len() > 0,
    ensures
        plays_for(game, decision(game), Purpose::Block),
{
    lemma_plays(game, t, Purpose::Block, game.hand@.len() as int);
}

/// The numbers that the player works out on the way to its decision stay within `i32`.
pub open spec fn judgeable(game: Game) -> bool {
    &&& toughness_fits(game)
    &&& aim(game) matches Some(t) ==> {
        &&& damage_known(game)
        &&& potential_fits(game, t)
        &&& !enraged(game) ==> incoming_fits(game)
    }
}

/// What each monster that takes part in the fight can take fits.
pub open spec fn toughness_fits(game: Game) -> bool {
    forall|i: int|
        0 <= i < game.monsters@.len() && (#[trigger] game.monsters@[i]).creature.actionable
            ==> fits(toughness(game.monsters@[i]))
}

/// The attacks of the hand against `target`, from the most damage down.
fn rank_attacks(game: &Game, target: usize) -> (attacks: Vec<(i32, i32)>)
    requires
        damage_known(*game),
        target < game.monsters@.len(),
    ensures
        attacks@ == ranked_attacks(*game, target as int),
{
    let mut attacks: Vec<(i32, i32)> = Vec::new();
    let mut ci: usize = 0;
    let ghost listed = attacks_in(game.hand@, target as int, 0);
    assert(attacks@ =~= by_damage(listed));
    while ci < game.hand.len()
        invariant
            damage_known(*game),
            target < game.monsters@.len(),
            ci <= game.hand@.len(),
            attacks@ == by_damage(attacks_in(game.hand@, target as int, ci as int)),
        decreases game.hand@.len() - ci,
    {
        let class: CardClass = game.hand[ci].class;
        if card_base_damage(class).is_some() {
            let x: (i32, i32) = (card_cost(class), game.hand[ci].damage[target]);
            let ghost before = attacks@;
            let mut at: usize = attacks.len();
            while at > 0 && attacks[at - 1].1 < x.1
                invariant
                    attacks@ == before,
                    at <= before.len(),
                    forall|j: int| at <= j < before.len() ==> (#[trigger] before[j]).1 < x.1,
                decreases at,
            {
                at = at - 1;
            }
            attacks.insert(at, x);
            proof {
                lemma_insert_position(before, x, at as int);
                let listed = attacks_in(game.hand@, target as int, ci as int);
                assert(listed.push(x).drop_last() =~= listed);
            }
        }
        ci = ci + 1;
    }
    attacks
}

/// Whether what the first `n` monsters are about to do, for every `n`, can be added up.
fn can_add_threats(game: &Game) -> (r: bool)
    ensures
        r == incoming_fits(*game),
{
    let mut total: i64 = 0;
    let mut i: usize = 0;
    while i < game.monsters.len()
        invariant
            i <= game.monsters@.len(),
            total == threats(game.monsters@, i as int),
            forall|j: int| 0 <= j < i ==> fits(threat(#[trigger] game.monsters@[j])),
            forall|n: int| 0 <= n <= i ==> fits(#[trigger] threats(game.monsters@, n)),
        decreases game.monsters@.len() - i,
    {
        let m: Monster = game.monsters[i];
        let damage: i64 = match m.intent.attack_hits() {
            Some(hits) => if m.creature.actionable {
                let each: i64 = m.hit as i64;
                let times: i64 = hits as i64;
                assert(-0x4000_0000_0000_0000 <= each * times <= 0x4000_0000_0000_0000)
                    by (nonlinear_arith)
                    requires
                        -0x8000_0000 <= each <= 0x7fff_ffff,
                        -0x8000_0000 <= times <= 0x7fff_ffff,
                ;
                each * times
            } else {
                0
            },
            None => 0,
        };
        assert(damage == threat(game.monsters@[i as int]));
        if damage < i32::MIN as i64 || damage > i32::MAX as i64 {
            return false;
        }
        total = total + damage;
        assert(total == threats(game.monsters@, i + 1));
        if total < i32::MIN as i64 || total > i32::MAX as i64 {
            return false;
        }
        i = i + 1;
    }
    let through: i64 = total - game.player.block as i64;
    i32::MIN as i64 <= through && through <= i32::MAX as i64
}

/// Whether the damage that the hand can do to `target` can be added up.
fn can_add_potential(game: &Game, target: usize) -> (r: bool)
    requires
        damage_known(*game),
        target < game.monsters@.len(),
    ensures
        r == potential_fits(*game, target as int),
{
    let attacks: Vec<(i32, i32)> = rank_attacks(game, target);
    let mut energy: i64 = game.energy as i64;
    let mut total: i64 = 0;
    let mut k: usize = 0;
    while k < attacks.len()
        invariant
            attacks@ == ranked_attacks(*game, target as int),
            k <= attacks@.len(),
            energy == spend(attacks@, game.energy as int, k as int).0,
            total == spend(attacks@, game.energy as int, k as int).1,
            forall|n: int|
                0 <= n <= k ==> fits((#[trigger] spend(attacks@, game.energy as int, n)).0) && fits(
                    spend(attacks@, game.energy as int, n).1,
                ),
        decreases attacks@.len() - k,
    {
        let (cost, damage) = attacks[k];
        assert(fits(spend(attacks@, game.energy as int, k as int).0));
        if cost as i64 <= energy {
            energy = energy - cost as i64;
            total = total + damage as i64;
        }
        k = k + 1;
        assert(energy == spend(attacks@, game.energy as int, k as int).0);
        if energy < i32::MIN as i64 || energy > i32::MAX as i64 || total < i32::MIN as i64 || total
            > i32::MAX as i64 {
            return false;
        }
    }
    true
}

/// Whether the player can judge the game: every number on the way to its decision fits.
pub fn can_judge(game: &Game) -> (r: bool)
    ensures
        r == judgeable(*game),
{
    let mut k: usize = 0;
    while k < game.monsters.len()
        invariant
            k <= game.monsters@.len(),
            forall|j: int|
                0 <= j < k && (#[trigger] game.monsters@[j]).creature.actionable ==> fits(
                    toughness(game.monsters@[j]),
                ),
        decreases game.monsters@.len() - k,
    {
        let c: Creature = game.monsters[k].creature;
        let taken: i64 = c.cur_hp as i64 + c.block as i64;
        if c.actionable && (taken < i32::MIN as i64 || taken > i32::MAX as i64) {
            assert(!fits(toughness(game.monsters@[k as int])));
            return false;
        }
        k = k + 1;
    }
    let target: usize = match choose_aim(game) {
        Some(t) => t,
        None => {
            return true;
        },
    };
    let mut i: usize = 0;
    while i < game.hand.len()
        invariant
            i <= game.hand@.len(),
            aim(*game) == Some(target as int),
            forall|j: int|
                0 <= j < i && (#[trigger] game.hand@[j]).class.ty == CardType::Attack
                    ==> game.hand@[j].damage@.len() == game.monsters@.len(),
        decreases game.hand@.len() - i,
    {
        if game.hand[i].class.ty == CardType::Attack && game.hand[i].damage.len()
            != game.monsters.len() {
            assert(game.hand@[i as int].damage@.len() != game.monsters@.len());
            return false;
        }
        i = i + 1;
    }
    (any_enraged(game) || can_add_threats(game)) && can_add_potential(game, target)
}

impl GreedyAgent {
    /// The damage that is about to get through the player's block.
    pub fn incoming(&self, game: &Game) -> (r: i32)
        requires
            incoming_fits(*game),
        ensures
            r == incoming_of(*game),
    {
        let mut total: i32 = 0;
        let mut i: usize = 0;
        while i < game.monsters.len()
            invariant
                incoming_fits(*game),
                i <= game.monsters@.len(),
                total == threats(game.monsters@, i as int),
            decreases game.monsters@.len() - i,
        {
            let m: &Monster = &game.monsters[i];
            assert(fits(threat(game.monsters@[i as int])));
            assert(fits(threats(game.monsters@, i + 1)));
            if m.creature.is_actionable() {
                match m.intent.attack_hits() {
                    Some(hits) => {
                        total = total + m.hit * hits;
                    },
                    None => {},
                }
            }
            i = i + 1;
        }
        let through: i32 = total - game.player.block;
        if through < 0 {
            0
        } else {
            through
        }
    }

    /// The damage that the hand can do to `target` this turn, taking the strongest attacks first.
    pub fn attack_potential(&self, game: &Game, target: usize) -> (r: i32)
        requires
            damage_known(*game),
            target < game.monsters@.len(),
            potential_fits(*game, target as int),
        ensures
            r == potential(*game, target as int),
    {
        let attacks: Vec<(i32, i32)> = rank_attacks(game, target);
        let mut energy: i32 = game.energy;
        let mut total: i32 = 0;
        let mut k: usize = 0;
        while k < attacks.len()
            invariant
                potential_fits(*game, target as int),
                attacks@ == ranked_attacks(*game, target as int),
                k <= attacks@.len(),
                energy == spend(attacks@, game.energy as int, k as int).0,
                total == spend(attacks@, game.energy as int, k as int).1,
            decreases attacks@.len() - k,
        {
            let (cost, damage) = attacks[k];
            assert(fits(spend(attacks@, game.energy as int, k + 1).0));
            if cost <= energy {
                energy = energy - cost;
                total = total + damage;
            }
            k = k + 1;
        }
        total
    }

    /// The step that the player wants to take.
    pub fn decide(&self, game: &Game) -> (r: StepKind)
        requires
            judgeable(*game),
        ensures
            r == decision(*game),
    {
        let target: usize = match choose_aim(game) {
            None => {
                return StepKind::EndTurn;
            },
            Some(t) => t,
        };
        proof {
            aim_is_best(game.monsters@, game.monsters@.len() as int);
        }
        let mut attacks: Vec<Play> = Vec::new();
        let mut block_plays: Vec<Play> = Vec::new();
        let mut others: Vec<Play> = Vec::new();
        let mut ci: usize = 0;
        while ci < game.hand.len()
            invariant
                target < game.monsters@.len(),
                ci <= game.hand@.len(),
                attacks@ == plays(*game, target as int, Purpose::Attack, ci as int),
                block_plays@ == plays(*game, target as int, Purpose::Block, ci as int),
                others@ == plays(*game, target as int, Purpose::Other, ci as int),
            decreases game.hand@.len() - ci,
        {
            let class: CardClass = game.hand[ci].class;
            match find_way(game, target, ci) {
                Some(t) => {
                    push_card(&mut attacks, &mut block_plays, &mut others, ci, class, t);
                },
                None => {},
            }
            ci = ci + 1;
        }
        let aimed: &Monster = &game.monsters[target];
        assert(fits(toughness(game.monsters@[target as int])));
        let tough: i32 = aimed.creature.cur_hp + aimed.creature.block;
        let kill: bool = self.attack_potential(game, target) >= tough;
        let enrage: bool = any_enraged(game);
        let need_block: i32 = if enrage {
            0
        } else {
            self.incoming(game)
        };
        // If the aim can be killed this turn, go all in, Bash first.
        if kill {
            match find_bash(&attacks) {
                Some(p) => {
                    return StepKind::PlayCard { hand_index: p.0, target: p.2 };
                },
                None => {},
            }
            if attacks.len() > 0 {
                return StepKind::PlayCard { hand_index: attacks[0].0, target: attacks[0].2 };
            }
        }
        // Powers early, for they compound; not against an enraged monster, and not when the hit
        // to come could kill.
        if !enrage && need_block < game.player.cur_hp {
            match find_power(&others) {
                Some(p) => {
                    return StepKind::PlayCard { hand_index: p.0, target: p.2 };
                },
                None => {},
            }
        }
        // A sleeping monster is not woken unless it can be killed now.
        if aimed.intent == Intent::Sleep && !kill {
            return StepKind::EndTurn;
        }
        if need_block > 0 && block_plays.len() > 0 {
            return StepKind::PlayCard { hand_index: block_plays[0].0, target: block_plays[0].2 };
        }
        // Bash first where its effect is not on the aim yet.
        if !aimed.creature.has_status(Status::Vulnerable) {
            match find_bash(&attacks) {
                Some(p) => {
                    return StepKind::PlayCard { hand_index: p.0, target: p.2 };
                },
                None => {},
            }
        }
        if attacks.len() > 0 {
            return StepKind::PlayCard { hand_index: attacks[0].0, target: attacks[0].2 };
        }
        if !enrage && others.len() > 0 {
            return StepKind::PlayCard { hand_index: others[0].0, target: others[0].2 };
        }
        StepKind::EndTurn
    }
}

fn choose_aim(game: &Game) -> (r: Option<usize>)
    requires
        toughness_fits(*game),
    ensures
        match r {
            None => aim(*game) is None,
            Some(t) => aim(*game) == Some(t as int) && t < game.monsters@.len(),
        },
{
    let mut best: Option<usize> = None;
    let mut i: usize = 0;
    while i < game.monsters.len()
        invariant
            toughness_fits(*game),
            i <= game.monsters@.len(),
            match best {
                None => aim_among(game.monsters@, i as int) is None,
                Some(t) => aim_among(game.monsters@, i as int) == Some(t as int) && t < i
                    && game.monsters@[t as int].creature.actionable,
            },
        decreases game.monsters@.len() - i,
    {
        let m: &Monster = &game.monsters[i];
        if m.creature.is_actionable() {
            match best {
                None => {
                    best = Some(i);
                },
                Some(t) => {
                    let b: &Monster = &game.monsters[t];
                    assert(fits(toughness(game.monsters@[i as int])));
                    assert(fits(toughness(game.monsters@[t as int])));
                    let tough: i32 = m.creature.cur_hp + m.creature.block;
                    let best_tough: i32 = b.creature.cur_hp + b.creature.block;
                    if tough < best_tough || (tough == best_tough && m.intent.is_attack()
                        && !b.intent.is_attack()) {
                        best = Some(i);
                    }
                },
            }
        }
        i = i + 1;
    }
    best
}

fn find_way(game: &Game, aim: usize, ci: usize) -> (r: Option<Option<usize>>)
    requires
        ci < game.hand@.len(),
    ensures
        r == way_to_play(*game, aim as int, ci as int),
{
    if game.hand[ci].has_target {
        if index_of(&game.steps, StepKind::PlayCard { hand_index: ci, target: Some(aim) }).is_some() {
            return Some(Some(aim));
        }
        let mut mi: usize = 0;
        while mi < game.monsters.len()
            invariant
                ci < game.hand@.len(),
                game.hand@[ci as int].has_target,
                !offered(game.steps@, play(ci as int, Some(aim))),
                mi <= game.monsters@.len(),
                reachable_from(*game, ci as int, 0) == reachable_from(*game, ci as int, mi as int),
            decreases game.monsters@.len() - mi,
        {
            if game.monsters[mi].creature.is_actionable() && index_of(
                &game.steps,
                StepKind::PlayCard { hand_index: ci, target: Some(mi) },
            ).is_some() {
                return Some(Some(mi));
            }
            mi = mi + 1;
        }
        None
    } else if index_of(&game.steps, StepKind::PlayCard { hand_index: ci, target: None }).is_some() {
        Some(None)
    } else {
        None
    }
}

fn any_enraged(game: &Game) -> (r: bool)
    ensures
        r == enraged(*game),
{
    let mut i: usize = 0;
    while i < game.monsters.len()
        invariant
            i <= game.monsters@.len(),
            forall|j: int|
                0 <= j < i && (#[trigger] game.monsters@[j]).creature.actionable
                    ==> !game.monsters@[j].creature.enraged,
        decreases game.monsters@.len() - i,
    {
        let m: &Monster = &game.monsters[i];
        if m.creature.is_actionable() && m.creature.has_status(Status::Enrage) {
            assert(game.monsters@[i as int].creature.enraged);
            return true;
        }
        i = i + 1;
    }
    false
}

fn find_bash(s: &Vec<Play>) -> (r: Option<Play>)
    ensures
        r == bash_from(s@, 0),
{
    let mut i: usize = 0;
    while i < s.len()
        invariant
            i <= s@.len(),
            bash_from(s@, 0) == bash_from(s@, i as int),
        decreases s@.len() - i,
    {
        if s[i].1.name == CardName::Bash {
            return Some(s[i]);
        }
        i = i + 1;
    }
    None
}

fn find_power(s: &Vec<Play>) -> (r: Option<Play>)
    ensures
        r == power_from(s@, 0),
{
    let mut i: usize = 0;
    while i < s.len()
        invariant
            i <= s@.len(),
            power_from(s@, 0) == power_from(s@, i as int),
        decreases s@.len() - i,
    {
        if s[i].1.ty == CardType::Power {
            return Some(s[i]);
        }
        i = i + 1;
    }
    None
}

/// Files a card that can be played with the others that are played for the same.
pub fn push_card(
    attacks: &mut Vec<Play>,
    block_plays: &mut Vec<Play>,
    others: &mut Vec<Play>,
    ci: usize,
    class: CardClass,
    target: Option<usize>,
)
    ensures
        final(attacks)@ == (if purpose(class) == Purpose::Attack {
            old(attacks)@.push((ci, class, target))
        } else {
            old(attacks)@
        }),
        final(block_plays)@ == (if purpose(class) == Purpose::Block {
            old(block_plays)@.push((ci, class, target))
        } else {
            old(block_plays)@
        }),
        final(others)@ == (if purpose(class) == Purpose::Other {
            old(others)@.push((ci, class, target))
        } else {
            old(others)@
        }),
{
    if class.ty == CardType::Attack {
        attacks.push((ci, class, target));
    } else if is_block_card(class) {
        block_plays.push((ci, class, target));
    } else {
        others.push((ci, class, target));
    }
}

/// Where `want` stands among the steps; the first step where it is not offered.
pub open spec fn index_or_first(game: Game, want: StepKind) -> usize {
    if offered(game.steps@, want) {
        offer_from(game.steps@, want, 0) as usize
    } else {
        0
    }
}

impl CombatAgent for GreedyAgent {
    open spec fn can_act(&self, game: Game) -> bool {
        judgeable(game)
    }

    /// The step that the player wants is picked, or the first where it is not offered.
    open spec fn picks(before: GreedyAgent, game: Game, after: GreedyAgent, i: usize) -> bool {
        i == index_or_first(game, decision(game))
    }

    fn act(&mut self, game: &Game) -> usize {
        let want: StepKind = self.decide(game);
        match index_of(&game.steps, want) {
            Some(i) => i,
            None => 0,
        }
    }
}

} // verus!
