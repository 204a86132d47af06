//! Forking a game: a copy to look ahead on, which leaves the game itself as it is.

use crate::cards::{CardClass, HandCard};
use crate::game::{ActionQueue, Game, Pools, Rewards, Shop};
use crate::map::{Map2d, MapNode};
use crate::step::OfferedStep;
use vstd::prelude::*;

verus! {

/// The two cards agree in everything.
pub open spec fn same_hand_card(a: HandCard, b: HandCard) -> bool {
    &&& a.class == b.class
    &&& a.upgrade_count == b.upgrade_count
    &&& a.has_target == b.has_target
    &&& a.damage@ == b.damage@
}

/// The two steps agree in everything.
pub open spec fn same_step(a: OfferedStep, b: OfferedStep) -> bool {
    &&& a.kind == b.kind
    &&& a.debug@ == b.debug@
    &&& a.description@ == b.description@
}

/// The two maps agree in everything.
pub open spec fn same_map(a: Map2d, b: Map2d) -> bool {
    &&& a.height == b.height
    &&& a.nodes@.len() == b.nodes@.len()
    &&& forall|x: int| 0 <= x < a.nodes@.len() ==> same_column((#[trigger] a.nodes@[x])@, b.nodes@[x]@)
}

/// The two columns of a map agree in everything.
pub open spec fn same_column(a: Seq<MapNode>, b: Seq<MapNode>) -> bool {
    &&& a.len() == b.len()
    &&& forall|y: int|
        0 <= y < a.len() ==> (#[trigger] a[y]).ty == b[y].ty && a[y].edges@ == b[y].edges@
}

/// The two games agree in everything that can be seen of them.
pub open spec fn same_game(a: Game, b: Game) -> bool {
    &&& a.status == b.status
    &&& a.in_combat == b.in_combat
    &&& a.turn == b.turn
    &&& a.energy == b.energy
    &&& a.player == b.player
    &&& a.monsters@ == b.monsters@
    &&& a.hand@.len() == b.hand@.len()
    &&& forall|i: int| 0 <= i < a.hand@.len() ==> same_hand_card(#[trigger] a.hand@[i], b.hand@[i])
    &&& a.potions@ == b.potions@
    &&& a.master_deck@ == b.master_deck@
    &&& a.gold == b.gold
    &&& a.floor == b.floor
    &&& a.rewards.cards@.len() == b.rewards.cards@.len()
    &&& forall|p: int|
        0 <= p < a.rewards.cards@.len() ==> (#[trigger] a.rewards.cards@[p])@
            == b.rewards.cards@[p]@
    &&& a.shop.relics@ == b.shop.relics@
    &&& a.shop.cards@ == b.shop.cards@
    &&& same_map(a.map, b.map)
    &&& a.steps@.len() == b.steps@.len()
    &&& forall|i: int| 0 <= i < a.steps@.len() ==> same_step(#[trigger] a.steps@[i], b.steps@[i])
    &&& a.pools.rare_cards@ == b.pools.rare_cards@
    &&& a.pools.common_potions@ == b.pools.common_potions@
    &&& a.pools.common_relics@ == b.pools.common_relics@
    &&& a.rng == b.rng
    &&& a.state@ == b.state@
    &&& a.state.traced() == b.state.traced()
    &&& a.action_queue@ == b.action_queue@
}

fn copy_of<T: Copy>(v: &Vec<T>) -> (r: Vec<T>)
    ensures
        r@ == v@,
{
    let mut r: Vec<T> = Vec::new();
    let mut i: usize = 0;
    while i < v.len()
        invariant
            i <= v@.len(),
            r@ == v@.take(i as int),
        decreases v@.len() - i,
    {
        r.push(v[i]);
        i = i + 1;
        assert(r@ =~= v@.take(i as int));
    }
    assert(v@.take(i as int) =~= v@);
    r
}

fn copy_of_hand(hand: &Vec<HandCard>) -> (r: Vec<HandCard>)
    ensures
        r@.len() == hand@.len(),
        forall|i: int| 0 <= i < hand@.len() ==> same_hand_card(#[trigger] hand@[i], r@[i]),
{
    let mut r: Vec<HandCard> = Vec::new();
    let mut i: usize = 0;
    while i < hand.len()
        invariant
            i <= hand@.len(),
            r@.len() == i,
            forall|j: int| 0 <= j < i ==> same_hand_card(#[trigger] hand@[j], r@[j]),
        decreases hand@.len() - i,
    {
        let card: &HandCard = &hand[i];
        r.push(
            HandCard {
                class: card.class,
                upgrade_count: card.upgrade_count,
                has_target: card.has_target,
                damage: copy_of(&card.damage),
            },
        );
        i = i + 1;
    }
    r
}

fn copy_of_steps(steps: &Vec<OfferedStep>) -> (r: Vec<OfferedStep>)
    ensures
        r@.len() == steps@.len(),
        forall|i: int| 0 <= i < steps@.len() ==> same_step(#[trigger] steps@[i], r@[i]),
{
    let mut r: Vec<OfferedStep> = Vec::new();
    let mut i: usize = 0;
    while i < steps.len()
        invariant
            i <= steps@.len(),
            r@.len() == i,
            forall|j: int| 0 <= j < i ==> same_step(#[trigger] steps@[j], r@[j]),
        decreases steps@.len() - i,
    {
        let step: &OfferedStep = &steps[i];
        r.push(
            OfferedStep {
                kind: step.kind,
                debug: step.debug.as_str().to_owned(),
                description: step.description.as_str().to_owned(),
            },
        );
        i = i + 1;
    }
    r
}

fn copy_of_column(column: &Vec<MapNode>) -> (r: Vec<MapNode>)
    ensures
        same_column(column@, r@),
{
    let mut r: Vec<MapNode> = Vec::new();
    let mut y: usize = 0;
    while y < column.len()
        invariant
            y <= column@.len(),
            r@.len() == y,
            forall|j: int|
                0 <= j < y ==> (#[trigger] column@[j]).ty == r@[j].ty && column@[j].edges@
                    == r@[j].edges@,
        decreases column@.len() - y,
    {
        r.push(MapNode { ty: column[y].ty, edges: copy_of(&column[y].edges) });
        y = y + 1;
    }
    r
}

fn copy_of_map(map: &Map2d) -> (r: Map2d)
    ensures
        same_map(*map, r),
{
    let mut nodes: Vec<Vec<MapNode>> = Vec::new();
    let mut x: usize = 0;
    while x < map.nodes.len()
        invariant
            x <= map.nodes@.len(),
            nodes@.len() == x,
            forall|j: int| 0 <= j < x ==> same_column((#[trigger] map.nodes@[j])@, nodes@[j]@),
        decreases map.nodes@.len() - x,
    {
        nodes.push(copy_of_column(&map.nodes[x]));
        x = x + 1;
    }
    Map2d { height: map.height, nodes }
}

fn copy_of_rewards(rewards: &Rewards) -> (r: Rewards)
    ensures
        r.cards@.len() == rewards.cards@.len(),
        forall|p: int|
            0 <= p < rewards.cards@.len() ==> (#[trigger] rewards.cards@[p])@ == r.cards@[p]@,
{
    let mut cards: Vec<Vec<CardClass>> = Vec::new();
    let mut p: usize = 0;
    while p < rewards.cards.len()
        invariant
            p <= rewards.cards@.len(),
            cards@.len() == p,
            forall|j: int| 0 <= j < p ==> (#[trigger] rewards.cards@[j])@ == cards@[j]@,
        decreases rewards.cards@.len() - p,
    {
        cards.push(copy_of(&rewards.cards[p]));
        p = p + 1;
    }
    Rewards { cards }
}

impl Game {
    /// A copy of the game to look ahead on. Every state on the stack must be one that can lie
    /// there while a fight waits for the player.
    pub fn clone_for_search(&self) -> (r: Game)
        requires
            forall|i: int| 0 <= i < self.state@.len() ==> (#[trigger] self.state@[i]).can_fork(),
        ensures
            same_game(*self, r),
    {
        Game {
            status: self.status,
            in_combat: self.in_combat,
            turn: self.turn,
            energy: self.energy,
            player: self.player,
            monsters: copy_of(&self.monsters),
            hand: copy_of_hand(&self.hand),
            potions: copy_of(&self.potions),
            master_deck: copy_of(&self.master_deck),
            gold: self.gold,
            floor: self.floor,
            rewards: copy_of_rewards(&self.rewards),
            shop: Shop { relics: copy_of(&self.shop.relics), cards: copy_of(&self.shop.cards) },
            map: copy_of_map(&self.map),
            steps: copy_of_steps(&self.steps),
            pools: Pools {
                rare_cards: copy_of(&self.pools.rare_cards),
                common_potions: copy_of(&self.pools.common_potions),
                common_relics: copy_of(&self.pools.common_relics),
            },
            rng: self.rng.clone(),
            state: self.state.clone_for_search(),
            action_queue: ActionQueue { actions: copy_of(&self.action_queue.actions) },
        }
    }
}

/// Everything that can be seen of a game can be seen of its fork, field by field.
pub proof fn a_fork_shows_all_that_the_game_shows(game: Game, fork: Game)
    requires
        forall|i: int| 0 <= i < game.state@.len() ==> (#[trigger] game.state@[i]).can_fork(),
        call_ensures(Game::clone_for_search, (&game,), fork),
    ensures
        fork.status == game.status,
        fork.in_combat == game.in_combat,
        fork.turn == game.turn,
        fork.energy == game.energy,
        fork.player == game.player,
        fork.monsters@ == game.monsters@,
        fork.hand@.len() == game.hand@.len(),
        forall|i: int|
            0 <= i < game.hand@.len() ==> {
                let (a, b) = (#[trigger] game.hand@[i], fork.hand@[i]);
                &&& a.class == b.class
                &&& a.upgrade_count == b.upgrade_count
                &&& a.has_target == b.has_target
                &&& a.damage@ == b.damage@
            },
        fork.potions@ == game.potions@,
        fork.master_deck@ == game.master_deck@,
        fork.gold == game.gold,
        fork.floor == game.floor,
        fork.rewards.cards@.len() == game.rewards.cards@.len(),
        forall|p: int|
            0 <= p < game.rewards.cards@.len() ==> (#[trigger] game.rewards.cards@[p])@
                == fork.rewards.cards@[p]@,
        fork.shop.relics@ == game.shop.relics@,
        fork.shop.cards@ == game.shop.cards@,
        fork.map.height == game.map.height,
        fork.map.nodes@.len() == game.map.nodes@.len(),
        forall|x: int, y: int|
            0 <= x < game.map.nodes@.len() && 0 <= y < game.map.nodes@[x]@.len() ==> {
                let (a, b) = (#[trigger] game.map.nodes@[x]@[y], fork.map.nodes@[x]@[y]);
                &&& fork.map.nodes@[x]@.len() == game.map.nodes@[x]@.len()
                &&& a.ty == b.ty
                &&& a.edges@ == b.edges@
            },
        fork.steps@.len() == game.steps@.len(),
        forall|i: int|
            0 <= i < game.steps@.len() ==> {
                let (a, b) = (#[trigger] game.steps@[i], fork.steps@[i]);
                &&& a.kind == b.kind
                &&& a.debug@ == b.debug@
                &&& a.description@ == b.description@
            },
        fork.pools.rare_cards@ == game.pools.rare_cards@,
        fork.pools.common_potions@ == game.pools.common_potions@,
        fork.pools.common_relics@ == game.pools.common_relics@,
        fork.rng == game.rng,
        fork.state@ == game.state@,
        fork.state.traced() == game.state.traced(),
        fork.action_queue@ == game.action_queue@,
{
    assert forall|i: int| 0 <= i < game.hand@.len() implies same_hand_card(
        #[trigger] game.hand@[i],
        fork.hand@[i],
    ) by {}
    assert forall|i: int| 0 <= i < game.steps@.len() implies same_step(
        #[trigger] game.steps@[i],
        fork.steps@[i],
    ) by {}
    assert forall|x: int| 0 <= x < game.map.nodes@.len() implies same_column(
        (#[trigger] game.map.nodes@[x])@,
        fork.map.nodes@[x]@,
    ) by {}
}

} // verus!
