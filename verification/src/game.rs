//! What the engine shows of a game, as plain values.

use crate::cards::{CardClass, DeckCard, HandCard};
use crate::map::Map2d;
use crate::rng::Rand;
use crate::state::GameStateManager;
use crate::step::OfferedStep;
use vstd::prelude::*;

verus! {

/// How a game stands.
#[derive(Clone, Copy, PartialEq, Eq, Debug, Structural)]
pub enum GameStatus {
    Combat,
    Victory,
    Defeat,
}

/// The conditions on a creature that a player looks at.
#[derive(Clone, Copy, PartialEq, Eq, Debug, Structural)]
pub enum Status {
    Enrage,
    Vulnerable,
}

/// The player's character or a monster.
#[derive(Clone, Copy, PartialEq, Eq, Debug, Structural)]
pub struct Creature {
    pub cur_hp: i32,
    pub max_hp: i32,
    pub block: i32,
    /// The creature is alive and takes part in the fight.
    pub actionable: bool,
    pub enraged: bool,
    pub vulnerable: bool,
}

impl Creature {
    /// Whether the creature is under `status`.
    pub open spec fn under(&self, status: Status) -> bool {
        match status {
            Status::Enrage => self.enraged,
            Status::Vulnerable => self.vulnerable,
        }
    }

    /// Whether the creature takes part in the fight.
    pub fn is_actionable(&self) -> (r: bool)
        ensures
            r == self.actionable,
    {
        self.actionable
    }

    /// Whether the creature is under `status`.
    pub fn has_status(&self, status: Status) -> (r: bool)
        ensures
            r == self.under(status),
    {
        match status {
            Status::Enrage => self.enraged,
            Status::Vulnerable => self.vulnerable,
        }
    }

    /// A creature at full health, in the fight and under no condition.
    pub fn healthy(hp: i32) -> (c: Creature)
        ensures
            c.cur_hp == hp,
            c.max_hp == hp,
            c.block == 0,
            c.actionable,
            !c.enraged,
            !c.vulnerable,
    {
        Creature {
            cur_hp: hp,
            max_hp: hp,
            block: 0,
            actionable: true,
            enraged: false,
            vulnerable: false,
        }
    }
}

/// What a monster is about to do. An attack gives its base damage and its number of hits.
#[derive(Clone, Copy, PartialEq, Eq, Debug, Structural)]
pub enum Intent {
    Attack(i32, i32),
    AttackBuff(i32, i32),
    AttackDebuff(i32, i32),
    AttackDefend(i32, i32),
    Sleep,
    Other,
}

impl Intent {
    /// The number of hits, where an attack is among what the monster is about to do.
    pub open spec fn hits(&self) -> Option<i32> {
        match *self {
            Intent::Attack(_, hits) => Some(hits),
            Intent::AttackBuff(_, hits) => Some(hits),
            Intent::AttackDebuff(_, hits) => Some(hits),
            Intent::AttackDefend(_, hits) => Some(hits),
            _ => None,
        }
    }

    /// The number of hits, where an attack is among what the monster is about to do.
    pub fn attack_hits(&self) -> (r: Option<i32>)
        ensures
            r == self.hits(),
    {
        match *self {
            Intent::Attack(_, hits) => Some(hits),
            Intent::AttackBuff(_, hits) => Some(hits),
            Intent::AttackDebuff(_, hits) => Some(hits),
            Intent::AttackDefend(_, hits) => Some(hits),
            _ => None,
        }
    }

    /// Whether an attack is among what the monster is about to do.
    pub fn is_attack(&self) -> (r: bool)
        ensures
            r == (self.hits() is Some),
    {
        self.attack_hits().is_some()
    }
}

/// A monster of the current fight.
#[derive(Clone, Copy, PartialEq, Eq, Debug, Structural)]
pub struct Monster {
    pub creature: Creature,
    pub intent: Intent,
    /// What the base damage of the intended attack comes to against the player, for one hit and
    /// after everything that raises or lowers it.
    pub hit: i32,
}

/// A potion, by the engine's number for it.
#[derive(Clone, Copy, PartialEq, Eq, Debug, Structural)]
pub struct Potion(pub u32);

/// A relic; all but the one that a blessing names go by the engine's number for them.
#[derive(Clone, Copy, PartialEq, Eq, Debug, Structural)]
pub enum RelicClass {
    NeowsLament,
    Other(u32),
}

/// Something that the engine is to do to the game.
#[derive(Clone, Copy, PartialEq, Eq, Debug, Structural)]
pub enum Action {
    AddCardClassToMasterDeck(CardClass),
    GainPotion(Potion),
    GainRelic(RelicClass),
    IncreaseMaxHP(i32),
    GainGold(i32),
}

/// The actions that wait to be done, the next one first.
#[derive(Debug)]
pub struct ActionQueue {
    pub actions: Vec<Action>,
}

impl View for ActionQueue {
    type V = Seq<Action>;

    open spec fn view(&self) -> Seq<Action> {
        self.actions@
    }
}

impl ActionQueue {
    /// Adds an action that is done after all that wait already.
    pub fn push_bot(&mut self, action: Action)
        ensures
            final(self)@ == old(self)@.push(action),
    {
        self.actions.push(action);
    }
}

/// The cards on offer after a fight, pack by pack.
#[derive(Debug)]
pub struct Rewards {
    pub cards: Vec<Vec<CardClass>>,
}

/// The goods of a shop, each with its price.
#[derive(Debug)]
pub struct Shop {
    pub relics: Vec<(RelicClass, i32)>,
    pub cards: Vec<(CardClass, i32)>,
}

/// What random gifts are drawn from.
#[derive(Debug)]
pub struct Pools {
    /// The rare cards of the character's colour.
    pub rare_cards: Vec<CardClass>,
    pub common_potions: Vec<Potion>,
    /// The common relics not yet handed out, the next one first.
    pub common_relics: Vec<RelicClass>,
}

/// A game at a moment at which a step is to be picked.
#[derive(Debug)]
pub struct Game {
    pub status: GameStatus,
    /// A fight is on.
    pub in_combat: bool,
    pub turn: i32,
    pub energy: i32,
    pub player: Creature,
    pub monsters: Vec<Monster>,
    pub hand: Vec<HandCard>,
    pub potions: Vec<Option<Potion>>,
    pub master_deck: Vec<DeckCard>,
    pub gold: i32,
    pub floor: i32,
    pub rewards: Rewards,
    pub shop: Shop,
    pub map: Map2d,
    /// The steps that may be taken now.
    pub steps: Vec<OfferedStep>,
    pub pools: Pools,
    pub rng: Rand,
    pub state: GameStateManager,
    pub action_queue: ActionQueue,
}

/// The two games agree in everything but the states, the waiting actions, the pools and the
/// random source.
pub open spec fn same_board(a: Game, b: Game) -> bool {
    &&& a.status == b.status
    &&& a.in_combat == b.in_combat
    &&& a.turn == b.turn
    &&& a.energy == b.energy
    &&& a.player == b.player
    &&& a.monsters == b.monsters
    &&& a.hand == b.hand
    &&& a.potions == b.potions
    &&& a.master_deck == b.master_deck
    &&& a.gold == b.gold
    &&& a.floor == b.floor
    &&& a.rewards == b.rewards
    &&& a.shop == b.shop
    &&& a.map == b.map
    &&& a.steps == b.steps
}

impl Game {
    /// A game outside any fight, with an empty board around the player.
    pub fn new(player: Creature, rng: Rand) -> (g: Game)
        ensures
            g.status == GameStatus::Combat,
            !g.in_combat,
            g.turn == 0,
            g.energy == 0,
            g.player == player,
            g.monsters@.len() == 0,
            g.hand@.len() == 0,
            g.potions@.len() == 0,
            g.master_deck@.len() == 0,
            g.gold == 0,
            g.floor == 0,
            g.rewards.cards@.len() == 0,
            g.shop.relics@.len() == 0,
            g.shop.cards@.len() == 0,
            g.map.wf(),
            g.map.nodes@.len() == 0,
            g.steps@.len() == 0,
            g.pools.rare_cards@.len() == 0,
            g.pools.common_potions@.len() == 0,
            g.pools.common_relics@.len() == 0,
            g.rng == rng,
            g.state@.len() == 0,
            !g.state.traced(),
            g.action_queue@.len() == 0,
    {
        Game {
            status: GameStatus::Combat,
            in_combat: false,
            turn: 0,
            energy: 0,
            player,
            monsters: Vec::new(),
            hand: Vec::new(),
            potions: Vec::new(),
            master_deck: Vec::new(),
            gold: 0,
            floor: 0,
            rewards: Rewards { cards: Vec::new() },
            shop: Shop { relics: Vec::new(), cards: Vec::new() },
            map: Map2d::empty(),
            steps: Vec::new(),
            pools: Pools {
                rare_cards: Vec::new(),
                common_potions: Vec::new(),
                common_relics: Vec::new(),
            },
            rng,
            state: GameStateManager::default(),
            action_queue: ActionQueue { actions: Vec::new() },
        }
    }
}

} // verus!
