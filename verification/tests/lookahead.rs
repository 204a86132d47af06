use spire::agent::CombatAgent;
use spire::cards::{
    card_base_damage, CardClass, CardColor, CardCost, CardName, CardType, HandCard,
};
use spire::game::{Creature, Game, GameStatus, Intent, Monster};
use spire::greedy::{can_judge, GreedyAgent};
use spire::lookahead::{IsmctsAgent, RolloutAgent, Trial, SEED_MIX};
use spire::moves::{legal_moves, MoveKey};
use spire::playout::{rollout_value, Outcome, PlayOut, LOOKAHEAD_TURNS, MAX_FIGHT_STEPS};
use spire::rng::Rand;
use spire::score::{Fixed, Score};
use spire::search::{Descent, Search};
use spire::state::{BoxedState, EngineGameState};
use spire::step::{OfferedStep, StepKind};
use spire::tree::{Edge, MctsNode};
use spire::value::{value01, Standing};

fn class(name: CardName, ty: CardType, cost: i32) -> CardClass {
    CardClass { name, ty, color: CardColor::Red, base_cost: CardCost::Cost { base_cost: cost } }
}

/// A fight against one monster that hits every turn; each turn brings the next five cards of the
/// deck.
struct Toy {
    game: Game,
    draw_pile: Vec<CardClass>,
}

impl Toy {
    fn new(monster_hp: i32, hit: i32) -> Toy {
        let mut game = Game::new(Creature::healthy(40), Rand::seed_from_u64(3));
        game.in_combat = true;
        game.energy = 3;
        game.monsters =
            vec![Monster { creature: Creature::healthy(monster_hp), intent: Intent::Attack(hit, 1), hit }];
        game.state.push_boxed_state(BoxedState::Engine(EngineGameState { id: 1, forkable: true }));
        let strike = class(CardName::Strike, CardType::Attack, 1);
        let defend = class(CardName::Defend, CardType::Skill, 1);
        let bash = class(CardName::Bash, CardType::Attack, 2);
        let draw_pile = vec![
            strike, defend, bash, strike, defend, strike, strike, defend, defend, strike,
        ];
        let mut toy = Toy { game, draw_pile };
        toy.draw();
        toy.offer();
        toy
    }

    fn draw(&mut self) {
        self.game.hand.clear();
        for _ in 0..5 {
            let class = self.draw_pile.remove(0);
            self.draw_pile.push(class);
            self.game.hand.push(HandCard {
                class,
                upgrade_count: 0,
                has_target: class.ty == CardType::Attack,
                damage: vec![card_base_damage(class).unwrap_or(0)],
            });
        }
    }

    fn cost(class: CardClass) -> i32 {
        spire::cards::card_cost(class)
    }

    fn offer(&mut self) {
        self.game.steps.clear();
        if !self.game.in_combat || self.game.status == GameStatus::Defeat {
            return;
        }
        let mut kinds = vec![StepKind::EndTurn];
        for (ci, card) in self.game.hand.iter().enumerate() {
            if Toy::cost(card.class) <= self.game.energy {
                let target = if card.has_target { Some(0) } else { None };
                kinds.push(StepKind::PlayCard { hand_index: ci, target });
            }
        }
        for kind in kinds {
            self.game.steps.push(OfferedStep {
                kind,
                debug: format!("{kind:?}"),
                description: String::new(),
            });
        }
    }

    fn fork(&self, seed: u64) -> Toy {
        let mut game = self.game.clone_for_search();
        game.rng = Rand::seed_from_u64(seed);
        Toy { game, draw_pile: self.draw_pile.clone() }
    }

    fn step(&mut self, i: usize) {
        match self.game.steps[i].kind {
            StepKind::EndTurn => {
                let through = (self.game.monsters[0].hit - self.game.player.block).max(0);
                self.game.player.cur_hp -= through;
                self.game.player.block = 0;
                self.game.energy = 3;
                self.game.turn += 1;
                if self.game.player.cur_hp <= 0 {
                    self.game.status = GameStatus::Defeat;
                }
                self.draw();
            }
            StepKind::PlayCard { hand_index, .. } => {
                let card = self.game.hand.remove(hand_index);
                self.game.energy -= Toy::cost(card.class);
                if card.has_target {
                    let monster = &mut self.game.monsters[0];
                    monster.creature.cur_hp -= card.damage[0];
                    if monster.creature.cur_hp <= 0 {
                        monster.creature.actionable = false;
                        self.game.in_combat = false;
                    }
                } else {
                    self.game.player.block += 5;
                }
            }
            _ => panic!("no such step is offered"),
        }
        self.offer();
    }
}

fn play_out(toy: &mut Toy, max_turns: i32) -> Outcome {
    let mut agent = GreedyAgent;
    let mut play = PlayOut::begin(&toy.game, max_turns);
    loop {
        if let Some(outcome) = play.check(&toy.game) {
            return outcome;
        }
        assert!(can_judge(&toy.game));
        let wanted = agent.act(&toy.game);
        let (i, given_up) = play.take(&toy.game, wanted);
        toy.step(i);
        if let Some(outcome) = given_up {
            return outcome;
        }
    }
}

fn milli(standing: Standing) -> Fixed {
    let (n, d) = standing.fraction();
    Fixed::Of(1000 * n / d)
}

/// The upper bound, in thousandths.
fn bound(edge: Edge<Fixed>) -> Fixed {
    let total = match edge.total {
        Fixed::Of(n) => n as f64,
        Fixed::NegInfinity => panic!("a move that was made has a value"),
    };
    let visits = edge.visits as f64;
    let ucb = total / 1000.0 / visits + ((edge.avail as f64).ln() / visits).sqrt();
    Fixed::Of((ucb * 1000.0) as i128)
}

fn search(toy: &Toy, agent: &mut IsmctsAgent) -> usize {
    let mut search: Search<Fixed> = match agent.begin(&toy.game) {
        None => return 0,
        Some(search) => search,
    };
    while !search.is_done() {
        let seed = agent.reseed();
        let mut sim = toy.fork(seed);
        loop {
            match search.descend(&sim.game, agent.rng(), &bound) {
                Descent::Ended => break,
                Descent::Expand(i) => {
                    sim.step(i);
                    play_out(&mut sim, LOOKAHEAD_TURNS);
                    break;
                }
                Descent::Follow(i) => sim.step(i),
            }
        }
        search.back_up(milli(value01(&sim.game)));
    }
    agent.conclude(&search, &toy.game)
}

fn roll(toy: &Toy, agent: &mut RolloutAgent) -> usize {
    let mut rollouts = match agent.begin(&toy.game) {
        None => return 0,
        Some(rollouts) => rollouts,
    };
    loop {
        match rollouts.next() {
            Trial::Pick(i) => return i,
            Trial::Try(i) => {
                let mut sim = toy.fork(agent.reseed());
                sim.step(i);
                let outcome = play_out(&mut sim, LOOKAHEAD_TURNS);
                rollouts.record(rollout_value(&sim.game, outcome));
            }
        }
    }
}

#[test]
fn test_clone_for_search_isolated() {
    let mut toy = Toy::new(82, 12);
    let orig_hp = toy.game.player.cur_hp;
    let orig_hand: Vec<CardClass> = toy.game.hand.iter().map(|c| c.class).collect();
    let orig_monster_hp = toy.game.monsters[0].creature.cur_hp;
    let orig_draw_len = toy.draw_pile.len();

    let mut sim = toy.fork(5);
    let _ = play_out(&mut sim, i32::MAX);

    assert_eq!(toy.game.player.cur_hp, orig_hp);
    assert_eq!(toy.game.monsters[0].creature.cur_hp, orig_monster_hp);
    assert_eq!(toy.draw_pile.len(), orig_draw_len);
    let now_hand: Vec<CardClass> = toy.game.hand.iter().map(|c| c.class).collect();
    assert_eq!(orig_hand, now_hand);

    assert!(!toy.game.steps.is_empty());
    toy.step(0);
}

#[test]
fn a_fork_shows_what_the_game_shows() {
    let toy = Toy::new(30, 6);
    let fork = toy.game.clone_for_search();
    assert_eq!(format!("{fork:?}"), format!("{:?}", toy.game));
}

#[test]
fn a_weak_monster_is_beaten_and_a_strong_one_is_not() {
    let mut easy = Toy::new(12, 6);
    assert!(matches!(play_out(&mut easy, i32::MAX), Outcome::Win { hp_lost: 0, turns: 0 }));
    let mut hard = Toy::new(1000, 60);
    assert_eq!(play_out(&mut hard, i32::MAX), Outcome::Loss);
    let mut long = Toy::new(1000, 5);
    assert_eq!(play_out(&mut long, 3), Outcome::Stall);
    assert_eq!(long.game.turn, 3);
}

#[test]
fn a_fight_costs_what_is_missing_at_its_end() {
    let mut toy = Toy::new(40, 12);
    match play_out(&mut toy, i32::MAX) {
        Outcome::Win { hp_lost, turns } => {
            assert_eq!(hp_lost, 40 - toy.game.player.cur_hp);
            assert_eq!(turns, toy.game.turn);
            assert!(turns > 0);
        }
        other => panic!("{other:?}"),
    }
}

#[test]
fn a_fight_is_settled_in_this_order() {
    let mut toy = Toy::new(30, 6);
    let play = PlayOut::begin(&toy.game, 0);
    assert_eq!(play.check(&toy.game), Some(Outcome::Stall));
    let open = PlayOut::begin(&toy.game, 1);
    assert_eq!(open.check(&toy.game), None);
    toy.game.steps.clear();
    assert_eq!(open.check(&toy.game), Some(Outcome::Win { hp_lost: 0, turns: 0 }));
    assert_eq!(play.check(&toy.game), Some(Outcome::Stall));
    toy.game.in_combat = false;
    toy.game.player.cur_hp = 33;
    assert_eq!(play.check(&toy.game), Some(Outcome::Win { hp_lost: 7, turns: 0 }));
    toy.game.player.cur_hp = 0;
    assert_eq!(play.check(&toy.game), Some(Outcome::Loss));
    toy.game.player.cur_hp = 33;
    toy.game.status = GameStatus::Defeat;
    assert_eq!(play.check(&toy.game), Some(Outcome::Loss));
}

#[test]
fn a_fight_without_end_is_given_up() {
    let toy = Toy::new(30, 0);
    let mut play = PlayOut::begin(&toy.game, i32::MAX);
    let mut taken = 0;
    loop {
        assert_eq!(play.check(&toy.game), None);
        taken += 1;
        let (i, given_up) = play.take(&toy.game, usize::MAX);
        assert_eq!(i, toy.game.steps.len() - 1);
        if let Some(outcome) = given_up {
            assert_eq!(outcome, Outcome::Stall);
            break;
        }
    }
    assert_eq!(taken, MAX_FIGHT_STEPS + 1);
    assert_eq!(play.turns, 0);
}

#[test]
fn ends_are_worth_what_the_table_says() {
    let mut toy = Toy::new(30, 6);
    toy.game.turn = 7;
    toy.game.player.cur_hp = 25;
    toy.game.monsters[0].creature.block = 4;
    let won = Outcome::Win { hp_lost: 15, turns: 7 };
    assert_eq!(rollout_value(&toy.game, won), 1025);
    assert_eq!(rollout_value(&toy.game, Outcome::Loss), -993);
    assert_eq!(rollout_value(&toy.game, Outcome::Stall), -9);
    toy.game.monsters[0].creature.actionable = false;
    assert_eq!(rollout_value(&toy.game, Outcome::Stall), 25);
}

#[test]
fn boards_are_worth_between_nought_and_one() {
    let mut toy = Toy::new(40, 6);
    assert_eq!(value01(&toy.game), Standing::Unfinished { left: 40, of: 40 });
    assert_eq!(milli(value01(&toy.game)), Fixed::Of(0));
    toy.game.monsters[0].creature.cur_hp = 10;
    assert_eq!(value01(&toy.game).fraction(), (270, 800));
    toy.game.monsters[0].creature.cur_hp = -3;
    toy.game.player.cur_hp = 30;
    assert_eq!(value01(&toy.game), Standing::Won { hp: 30, most: 40 });
    assert_eq!(value01(&toy.game).fraction(), (70, 80));
    toy.game.status = GameStatus::Defeat;
    assert_eq!(value01(&toy.game).fraction(), (360, 800));
    toy.game.monsters.clear();
    assert_eq!(value01(&toy.game).fraction(), (9, 20));
    toy.game.status = GameStatus::Combat;
    toy.game.player.max_hp = 0;
    assert_eq!(value01(&toy.game), Standing::Won { hp: 30, most: 1 });
}

#[test]
fn trials_find_the_kill() {
    let toy = Toy::new(6, 30);
    let mut agent = RolloutAgent::new(2);
    let i = roll(&toy, &mut agent);
    assert!(matches!(toy.game.steps[i].kind, StepKind::PlayCard { target: Some(0), .. }));
}

#[test]
fn trials_go_step_by_step_and_the_first_of_equals_is_picked() {
    let mut toy = Toy::new(30, 6);
    toy.game.steps.truncate(3);
    let agent = RolloutAgent::new(2);
    let mut rollouts = agent.begin(&toy.game).unwrap();
    for (i, value) in [(0, 5), (0, -1), (1, 3), (1, 4), (2, 9), (2, -2)] {
        assert_eq!(rollouts.next(), Trial::Try(i));
        rollouts.record(value);
    }
    assert_eq!(rollouts.next(), Trial::Pick(1));
}

#[test]
fn without_trials_or_choice_the_first_step_is_picked() {
    let mut toy = Toy::new(30, 6);
    let none = RolloutAgent::new(0);
    assert_eq!(none.begin(&toy.game).unwrap().next(), Trial::Pick(0));
    toy.game.steps.truncate(1);
    assert!(RolloutAgent::new(4).begin(&toy.game).is_none());
    assert!(IsmctsAgent::new(4).begin::<Fixed>(&toy.game).is_none());
}

#[test]
fn the_search_finds_the_kill() {
    let toy = Toy::new(6, 40);
    let mut agent = IsmctsAgent::with_seed(60, 4);
    let i = search(&toy, &mut agent);
    assert!(matches!(toy.game.steps[i].kind, StepKind::PlayCard { target: Some(0), .. }));
}

#[test]
fn a_seeded_search_can_be_repeated() {
    let toy = Toy::new(60, 9);
    let first = search(&toy, &mut IsmctsAgent::with_seed(80, 17));
    for _ in 0..3 {
        assert_eq!(search(&toy, &mut IsmctsAgent::with_seed(80, 17)), first);
    }
    assert_eq!(IsmctsAgent::with_seed(1, 17).rng().made_from(), Some(17 ^ SEED_MIX));
    assert_eq!(IsmctsAgent::new(1).rng().made_from(), None);
}

#[test]
fn the_seeds_of_the_rounds_follow_from_the_source() {
    let mut agent = IsmctsAgent::with_seed(4, 17);
    let mut source = agent.rng().clone();
    for _ in 0..5 {
        assert_eq!(agent.reseed(), source.bits());
    }
}

#[test]
fn every_move_is_tried_before_any_is_repeated() {
    let toy = Toy::new(60, 9);
    let moves = legal_moves(&toy.game);
    let mut rng = Rand::seed_from_u64(2);
    let mut search: Search<Fixed> = Search::new(moves.len() as u32 + 1);
    let mut seen = vec![];
    for _ in 0..moves.len() {
        match search.descend(&toy.game, &mut rng, &bound) {
            Descent::Expand(i) => seen.push(i),
            other => panic!("{other:?}"),
        }
        search.back_up(Fixed::Of(100 + seen.len() as i128));
    }
    seen.sort();
    seen.dedup();
    assert_eq!(seen.len(), moves.len());
    assert!(!search.is_done());
    let followed = search.descend(&toy.game, &mut rng, &bound);
    assert!(matches!(followed, Descent::Follow(_)));
}

#[test]
fn the_best_bound_is_followed_and_the_last_of_the_most_visited_concluded() {
    let toy = Toy::new(60, 9);
    let moves = legal_moves(&toy.game);
    let mut search: Search<Fixed> = Search::new(2);
    assert_eq!(search.robust_child(&moves), moves.len() - 1);
    let found = search.arrive(&toy.game).unwrap();
    assert_eq!(found, moves);
    assert!(matches!(search.depart(&toy.game, &moves, 1), Descent::Expand(_)));
    search.back_up(Fixed::Of(500));
    assert_eq!(search.robust_child(&moves), 1);
    let agent = IsmctsAgent::new(2);
    let i = agent.conclude(&search, &toy.game);
    assert_eq!(toy.game.steps[i].kind, moves[1].1);
    search.arrive(&toy.game).unwrap();
    search.depart(&toy.game, &moves, 0);
    search.back_up(Fixed::Of(900));
    assert_eq!(search.robust_child(&moves), 1);
    assert!(search.is_done());
}

#[test]
fn a_round_in_a_fight_that_is_over_ends_at_once() {
    let mut toy = Toy::new(60, 9);
    toy.game.in_combat = false;
    let mut rng = Rand::seed_from_u64(2);
    let mut search: Search<Fixed> = Search::new(1);
    assert_eq!(search.descend(&toy.game, &mut rng, &bound), Descent::Ended);
    search.back_up(Fixed::Of(700));
    assert!(search.is_done());
}

#[test]
fn a_decision_keeps_count_of_its_moves() {
    let toy = Toy::new(60, 9);
    let moves = legal_moves(&toy.game);
    let mut node: MctsNode<Fixed> = MctsNode::new();
    node.note(&moves);
    node.note(&moves);
    let mut edge = node.get(moves[1].0);
    assert_eq!((edge.visits, edge.avail), (0, 2));
    edge.visits = 1;
    edge.total = Fixed::Of(250).plus(Fixed::Of(3));
    node.set(moves[1].0, edge);
    assert_eq!(node.get(moves[1].0).total, Fixed::Of(253));
    let untried = node.untried(&moves);
    assert_eq!(untried.len(), moves.len() - 1);
    assert!(!untried.contains(&1));
    let elsewhere = MoveKey::UsePotion { potion_index: 3, target: None };
    assert_eq!(node.get(elsewhere).avail, 0);
}

#[test]
fn the_untried_move_is_the_one_that_is_drawn() {
    let toy = Toy::new(60, 9);
    let moves = legal_moves(&toy.game);
    let mut rng = Rand::seed_from_u64(23);
    let mut by_hand = rng.clone();
    let mut search: Search<Fixed> = Search::new(moves.len() as u32 + 2);
    let mut untried: Vec<usize> = (0..moves.len()).collect();
    while !untried.is_empty() {
        let n = untried.len();
        let expected = untried.remove(by_hand.below(n));
        let i = match search.descend(&toy.game, &mut rng, &bound) {
            Descent::Expand(i) => i,
            other => panic!("{other:?}"),
        };
        assert_eq!(toy.game.steps[i].kind, moves[expected].1);
        search.back_up(Fixed::Of(100));
    }
    let mut over = toy.fork(1);
    over.game.in_combat = false;
    assert_eq!(search.descend(&over.game, &mut rng, &bound), Descent::Ended);
    search.back_up(Fixed::Of(0));
    search.arrive(&toy.game).unwrap();
    let chosen = search.choose_move(&moves, &mut rng, &bound);
    assert!(chosen < moves.len());
    assert_eq!(rng.bits(), by_hand.bits());
}
