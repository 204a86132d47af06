use spire::agent::{CombatAgent, RandomAgent};
use spire::cards::{
    card_base_damage, card_cost, card_value, is_block_card, removal_value, CardClass, CardColor,
    CardCost, CardName, CardType, HandCard,
};
use spire::game::{Creature, Game, Intent, Monster, Potion, Status};
use spire::greedy::{can_judge, push_card, GreedyAgent};
use spire::moves::{combat_over, legal_moves, step_move, MoveKey};
use spire::rng::Rand;
use spire::step::{OfferedStep, StepKind};

fn class(name: CardName, ty: CardType, cost: i32) -> CardClass {
    CardClass { name, ty, color: CardColor::Red, base_cost: CardCost::Cost { base_cost: cost } }
}

fn strike() -> CardClass {
    class(CardName::Strike, CardType::Attack, 1)
}

fn bash() -> CardClass {
    class(CardName::Bash, CardType::Attack, 2)
}

fn defend() -> CardClass {
    class(CardName::Defend, CardType::Skill, 1)
}

fn inflame() -> CardClass {
    class(CardName::Inflame, CardType::Power, 1)
}

fn flex() -> CardClass {
    class(CardName::Flex, CardType::Skill, 0)
}

fn monster(hp: i32, intent: Intent, hit: i32) -> Monster {
    Monster { creature: Creature::healthy(hp), intent, hit }
}

fn offer(kind: StepKind) -> OfferedStep {
    OfferedStep { kind, debug: format!("{kind:?}"), description: String::new() }
}

/// A fight in which every card of the hand can be played at every monster, and every potion used.
fn fight(monsters: Vec<Monster>, hand: Vec<CardClass>) -> Game {
    let mut game = Game::new(Creature::healthy(80), Rand::seed_from_u64(1));
    game.in_combat = true;
    game.energy = 3;
    game.steps.push(offer(StepKind::EndTurn));
    for (ci, class) in hand.iter().enumerate() {
        let has_target = class.ty == CardType::Attack;
        let damage = monsters.iter().map(|_| card_base_damage(*class).unwrap_or(0)).collect();
        game.hand.push(HandCard { class: *class, upgrade_count: 0, has_target, damage });
        if has_target {
            for mi in 0..monsters.len() {
                game.steps.push(offer(StepKind::PlayCard { hand_index: ci, target: Some(mi) }));
            }
        } else {
            game.steps.push(offer(StepKind::PlayCard { hand_index: ci, target: None }));
        }
    }
    game.monsters = monsters;
    game
}

fn decides(game: &Game) -> StepKind {
    assert!(can_judge(game));
    let kind = GreedyAgent.decide(game);
    let i = GreedyAgent.act(game);
    if game.steps.iter().any(|s| s.kind == kind) {
        assert_eq!(game.steps[i].kind, kind);
    } else {
        assert_eq!(i, 0);
    }
    kind
}

fn play(hand_index: usize, target: Option<usize>) -> StepKind {
    StepKind::PlayCard { hand_index, target }
}

#[test]
fn costs_and_damages_are_those_printed() {
    let x = CardClass { base_cost: CardCost::X, ..class(CardName::Whirlwind, CardType::Attack, 0) };
    let zero = CardClass { base_cost: CardCost::Zero, ..flex() };
    assert_eq!(card_cost(x), 3);
    assert_eq!(card_cost(zero), 0);
    assert_eq!(card_cost(bash()), 2);
    let damages = [
        (CardName::Strike, 6),
        (CardName::Bash, 8),
        (CardName::Clothesline, 12),
        (CardName::Cleave, 8),
        (CardName::Thunderclap, 4),
        (CardName::Anger, 6),
        (CardName::PommelStrike, 9),
        (CardName::TwinStrike, 10),
        (CardName::IronWave, 5),
        (CardName::Headbutt, 9),
        (CardName::Clash, 14),
        (CardName::Uppercut, 13),
        (CardName::Carnage, 20),
        (CardName::Hemokinesis, 15),
        (CardName::Feed, 6),
    ];
    for (name, damage) in damages {
        assert_eq!(card_base_damage(class(name, CardType::Attack, 1)), Some(damage));
    }
    assert_eq!(card_base_damage(defend()), None);
    assert!(is_block_card(defend()));
    assert!(is_block_card(class(CardName::TrueGrit, CardType::Skill, 1)));
    assert!(!is_block_card(flex()));
}

#[test]
fn values_rank_cards() {
    let values = [
        (CardName::DemonForm, CardType::Power, 10),
        (CardName::Corruption, CardType::Power, 9),
        (CardName::Inflame, CardType::Power, 8),
        (CardName::Evolve, CardType::Power, 7),
        (CardName::Reaper, CardType::Attack, 8),
        (CardName::FiendFire, CardType::Attack, 7),
        (CardName::Bash, CardType::Attack, 6),
        (CardName::SwordBoomerang, CardType::Attack, 5),
        (CardName::Bite, CardType::Attack, 4),
        (CardName::MindBlast, CardType::Attack, 3),
        (CardName::Impervious, CardType::Skill, 7),
        (CardName::Disarm, CardType::Skill, 6),
        (CardName::SpotWeakness, CardType::Skill, 5),
        (CardName::Flex, CardType::Skill, 4),
        (CardName::DeepBreath, CardType::Skill, 3),
        (CardName::Apotheosis, CardType::Skill, 9),
        (CardName::Strike, CardType::Attack, 1),
        (CardName::Defend, CardType::Skill, 1),
        (CardName::Other(1), CardType::Power, 7),
        (CardName::Other(2), CardType::Attack, 5),
        (CardName::Other(3), CardType::Skill, 4),
        (CardName::Other(4), CardType::Status, -100),
        (CardName::Other(5), CardType::Curse, -100),
    ];
    for (name, ty, value) in values {
        assert_eq!(card_value(class(name, ty, 1)), value);
    }
    assert_eq!(removal_value(class(CardName::Other(5), CardType::Curse, 1)), 1100);
    assert_eq!(removal_value(strike()), 499);
    assert_eq!(removal_value(defend()), 399);
    assert_eq!(removal_value(bash()), -6);
}

#[test]
fn incoming_damage_counts_hits_and_block() {
    let mut game = fight(
        vec![
            monster(20, Intent::AttackBuff(5, 2), 6),
            monster(20, Intent::Sleep, 9),
            monster(20, Intent::Attack(7, 1), 7),
        ],
        vec![],
    );
    assert_eq!(GreedyAgent.incoming(&game), 19);
    game.player.block = 4;
    assert_eq!(GreedyAgent.incoming(&game), 15);
    game.player.block = 40;
    assert_eq!(GreedyAgent.incoming(&game), 0);
    game.player.block = 0;
    game.monsters[2].creature.actionable = false;
    assert_eq!(GreedyAgent.incoming(&game), 12);
}

#[test]
fn the_strongest_attacks_are_counted_first() {
    let game = fight(
        vec![monster(50, Intent::Attack(5, 1), 5)],
        vec![strike(), bash(), defend(), strike()],
    );
    assert_eq!(GreedyAgent.attack_potential(&game, 0), 14);
}

#[test]
fn a_kill_is_taken_with_bash_first() {
    let game = fight(
        vec![monster(14, Intent::Attack(30, 1), 30)],
        vec![defend(), strike(), bash()],
    );
    assert_eq!(decides(&game), play(2, Some(0)));
    let plain = fight(vec![monster(6, Intent::Attack(30, 1), 30)], vec![defend(), strike()]);
    assert_eq!(decides(&plain), play(1, Some(0)));
}

#[test]
fn the_weakest_monster_is_aimed_at_and_an_attacker_among_equals() {
    let game = fight(
        vec![
            monster(30, Intent::Attack(0, 1), 0),
            monster(20, Intent::Other, 0),
            monster(20, Intent::Attack(0, 1), 0),
        ],
        vec![strike()],
    );
    assert_eq!(decides(&game), play(0, Some(2)));
    let mut blocked = fight(
        vec![monster(20, Intent::Other, 0), monster(18, Intent::Other, 0)],
        vec![strike()],
    );
    blocked.monsters[1].creature.block = 9;
    assert_eq!(decides(&blocked), play(0, Some(0)));
}

#[test]
fn a_power_comes_before_block_unless_the_blow_would_kill() {
    let mut game = fight(
        vec![monster(50, Intent::Attack(10, 1), 10)],
        vec![strike(), defend(), inflame()],
    );
    assert_eq!(decides(&game), play(2, None));
    game.player.cur_hp = 10;
    assert_eq!(decides(&game), play(1, None));
}

#[test]
fn block_is_raised_only_where_damage_comes_in() {
    let mut game = fight(vec![monster(50, Intent::Attack(9, 1), 9)], vec![strike(), defend()]);
    assert_eq!(decides(&game), play(1, None));
    game.monsters[0].intent = Intent::Other;
    assert_eq!(decides(&game), play(0, Some(0)));
}

#[test]
fn bash_opens_on_a_monster_that_is_not_vulnerable() {
    let mut game = fight(vec![monster(50, Intent::Other, 0)], vec![strike(), bash()]);
    assert_eq!(decides(&game), play(1, Some(0)));
    game.monsters[0].creature.vulnerable = true;
    assert!(game.monsters[0].creature.has_status(Status::Vulnerable));
    assert_eq!(decides(&game), play(0, Some(0)));
}

#[test]
fn enraged_monsters_are_raced() {
    let mut game = fight(
        vec![monster(80, Intent::Attack(14, 1), 14)],
        vec![defend(), inflame(), flex(), strike()],
    );
    game.monsters[0].creature.enraged = true;
    assert_eq!(decides(&game), play(3, Some(0)));
    let mut stuck = fight(vec![monster(80, Intent::Attack(14, 1), 14)], vec![defend(), flex()]);
    stuck.monsters[0].creature.enraged = true;
    assert_eq!(decides(&stuck), StepKind::EndTurn);
}

#[test]
fn sleepers_are_left_alone_until_they_can_be_killed() {
    let mut game = fight(vec![monster(100, Intent::Sleep, 0)], vec![strike(), defend(), inflame()]);
    assert_eq!(decides(&game), play(2, None));
    game.hand.pop();
    game.steps.pop();
    assert_eq!(decides(&game), StepKind::EndTurn);
    game.monsters[0].creature.cur_hp = 5;
    assert_eq!(decides(&game), play(0, Some(0)));
}

#[test]
fn another_target_is_tried_where_the_first_is_out_of_reach() {
    let mut game = fight(
        vec![monster(10, Intent::Other, 0), monster(40, Intent::Other, 0)],
        vec![strike()],
    );
    game.steps.retain(|s| s.kind != play(0, Some(0)));
    assert_eq!(decides(&game), play(0, Some(1)));
}

#[test]
fn without_a_monster_the_turn_ends() {
    let mut game = fight(vec![monster(10, Intent::Other, 0)], vec![strike()]);
    game.monsters[0].creature.actionable = false;
    assert_eq!(decides(&game), StepKind::EndTurn);
}

#[test]
fn what_is_neither_attack_nor_block_is_played_last() {
    let mut game = fight(vec![monster(50, Intent::Other, 0)], vec![flex()]);
    assert_eq!(decides(&game), play(0, None));
    game.steps.pop();
    assert_eq!(decides(&game), StepKind::EndTurn);
}

#[test]
fn numbers_that_run_over_cannot_be_judged() {
    let mut game = fight(vec![monster(50, Intent::Attack(1, 2), i32::MAX)], vec![strike()]);
    assert!(!can_judge(&game));
    game.monsters[0].hit = 5;
    assert!(can_judge(&game));
    game.monsters[0].creature.block = i32::MAX;
    assert!(!can_judge(&game));
    game.monsters[0].creature.block = 0;
    game.hand[0].damage.clear();
    assert!(!can_judge(&game));
}

#[test]
fn cards_are_filed_by_what_they_are_for() {
    let (mut attacks, mut blocks, mut others) = (vec![], vec![], vec![]);
    let wave = class(CardName::IronWave, CardType::Attack, 1);
    for (ci, class) in [strike(), defend(), flex(), wave].iter().enumerate() {
        push_card(&mut attacks, &mut blocks, &mut others, ci, *class, None);
    }
    assert_eq!(attacks, vec![(0, strike(), None), (3, wave, None)]);
    assert_eq!(blocks, vec![(1, defend(), None)]);
    assert_eq!(others, vec![(2, flex(), None)]);
}

#[test]
fn interchangeable_cards_make_one_move() {
    let mut game = fight(
        vec![monster(10, Intent::Other, 0), monster(20, Intent::Other, 0)],
        vec![strike(), defend(), strike()],
    );
    game.potions = vec![None, Some(Potion(3))];
    game.steps.push(offer(StepKind::UsePotion { potion_index: 1, target: Some(1) }));
    let moves = legal_moves(&game);
    let play_key = |class, target| MoveKey::Play { class, upgraded: false, target };
    assert_eq!(
        moves,
        vec![
            (MoveKey::EndTurn, StepKind::EndTurn),
            (play_key(strike(), Some(0)), play(0, Some(0))),
            (play_key(strike(), Some(1)), play(0, Some(1))),
            (play_key(defend(), None), play(1, None)),
            (
                MoveKey::UsePotion { potion_index: 1, target: Some(1) },
                StepKind::UsePotion { potion_index: 1, target: Some(1) },
            ),
        ]
    );
    assert_eq!(step_move(&game, play(1, None)), 3);
    game.hand[2].upgrade_count = 1;
    assert_eq!(legal_moves(&game).len(), 7);
    game.monsters[1].creature.actionable = false;
    assert_eq!(legal_moves(&game).len(), 4);
}

#[test]
fn a_fight_is_over_when_it_is_lost_or_left() {
    let mut game = fight(vec![monster(10, Intent::Other, 0)], vec![]);
    assert!(!combat_over(&game));
    game.in_combat = false;
    assert!(combat_over(&game));
    game.in_combat = true;
    game.status = spire::game::GameStatus::Defeat;
    assert!(combat_over(&game));
}

#[test]
fn the_random_player_comes_to_every_step() {
    let game = fight(vec![monster(10, Intent::Other, 0)], vec![strike(), defend()]);
    let mut agent = RandomAgent::new();
    let mut seen = vec![0; game.steps.len()];
    for _ in 0..300 {
        seen[agent.act(&game)] += 1;
    }
    assert!(seen.iter().all(|n| *n > 0), "{seen:?}");
}

#[test]
fn what_is_not_worked_out_need_not_fit() {
    let mut game = fight(
        vec![monster(50, Intent::Attack(1, 1), 5), monster(9, Intent::Attack(1, 2), i32::MAX)],
        vec![strike(), defend()],
    );
    game.hand[1].damage.clear();
    assert!(!can_judge(&game));
    game.monsters[1].creature.actionable = false;
    game.monsters[1].creature.block = i32::MAX;
    assert_eq!(decides(&game), play(1, None));
    game.monsters[0].hit = i32::MAX;
    game.monsters[0].intent = Intent::Attack(1, 2);
    assert!(!can_judge(&game));
    game.monsters[0].creature.enraged = true;
    assert_eq!(decides(&game), play(0, Some(0)));
    game.monsters[0].creature.actionable = false;
    game.hand[0].damage.clear();
    assert_eq!(decides(&game), StepKind::EndTurn);
}
