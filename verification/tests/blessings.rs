use spire::blessings::{
    tenth, Blessing, ChooseBlessingGameState, ChooseBlessingStep, BONUS_BLESSINGS, CARD_BLESSINGS,
};
use spire::cards::{CardClass, CardColor, CardCost, CardName, CardType, DeckCard};
use spire::game::{Action, Creature, Game, Potion, RelicClass};
use spire::rng::Rand;
use spire::state::{
    BoxedState, ChooseTransformMasterGameState, ContinueStep, GameState, Steps,
};
use spire::step::{Step, StepKind};

fn red(name: CardName, ty: CardType) -> CardClass {
    CardClass { name, ty, color: CardColor::Red, base_cost: CardCost::Cost { base_cost: 1 } }
}

/// A game outside any fight that offers one blessing, with three free potion slots.
fn build_with_blessing(b: Blessing) -> Game {
    let mut game = Game::new(Creature::healthy(80), Rand::seed_from_u64(7));
    game.gold = 99;
    game.potions = vec![None, None, None];
    game.pools.rare_cards = vec![red(CardName::Offering, CardType::Skill)];
    game.pools.common_potions = vec![Potion(1), Potion(2)];
    game.pools.common_relics = vec![RelicClass::Other(5), RelicClass::Other(6)];
    game.state.push_state(ChooseBlessingGameState { rewards: vec![b] });
    game
}

fn ironclad_deck() -> Vec<DeckCard> {
    let mut deck = vec![];
    for i in 0..10 {
        let class = if i < 5 {
            red(CardName::Strike, CardType::Attack)
        } else if i < 9 {
            red(CardName::Defend, CardType::Skill)
        } else {
            red(CardName::Bash, CardType::Attack)
        };
        deck.push(DeckCard { class, can_remove: true, can_upgrade: true });
    }
    deck
}

/// Takes the step, as an engine does: the state that offered it goes off the stack, the step
/// runs, and then what waits is done. Gives back the relics that were gained.
fn take(game: &mut Game, step: ChooseBlessingStep) -> Vec<RelicClass> {
    if step.should_pop_state() {
        game.state.pop_state();
    }
    step.run(game);
    assert!(matches!(game.state.pop_state(), Some(BoxedState::RunActions(_))));
    let mut relics = vec![];
    let actions = std::mem::take(&mut game.action_queue.actions);
    for action in actions {
        match action {
            Action::AddCardClassToMasterDeck(class) => {
                game.master_deck.push(DeckCard { class, can_remove: true, can_upgrade: true });
            }
            Action::GainPotion(p) => {
                let slot = game.potions.iter().position(|s| s.is_none()).unwrap();
                game.potions[slot] = Some(p);
            }
            Action::GainRelic(r) => relics.push(r),
            Action::IncreaseMaxHP(n) => {
                game.player.max_hp += n;
                game.player.cur_hp += n;
            }
            Action::GainGold(n) => game.gold += n,
        }
    }
    relics
}

#[test]
fn test_roll_offers_one_card_and_one_bonus_blessing() {
    let mut rng = Rand::seed_from_u64(0);
    let rewards = Blessing::roll(&mut rng);
    assert_eq!(rewards.len(), 2);
    assert!(CARD_BLESSINGS.contains(&rewards[0]));
    assert!(BONUS_BLESSINGS.contains(&rewards[1]));
}

#[test]
fn test_hundred_gold_blessing_adds_100_gold() {
    let mut g = build_with_blessing(Blessing::HundredGold);
    let gold = g.gold;
    take(&mut g, ChooseBlessingStep(Blessing::HundredGold));
    assert_eq!(g.gold, gold + 100);
}

#[test]
fn test_ten_percent_max_hp_blessing_adds_a_tenth_of_max_hp() {
    let mut g = build_with_blessing(Blessing::TenPercentMaxHp);
    let max_hp = g.player.max_hp;
    take(&mut g, ChooseBlessingStep(Blessing::TenPercentMaxHp));
    assert_eq!(g.player.max_hp, max_hp + (max_hp as f32 * 0.1) as i32);
}

#[test]
fn test_neows_lament_blessing_grants_the_relic() {
    let mut g = build_with_blessing(Blessing::NeowsLament);
    let relics = take(&mut g, ChooseBlessingStep(Blessing::NeowsLament));
    assert!(relics.contains(&RelicClass::NeowsLament));
}

#[test]
fn test_three_potions_blessing_fills_the_potion_slots() {
    let mut g = build_with_blessing(Blessing::ThreePotions);
    take(&mut g, ChooseBlessingStep(Blessing::ThreePotions));
    assert!(g.potions.iter().all(|p| p.is_some()));
}

#[test]
fn test_remove_card_blessing_shrinks_the_master_deck() {
    let mut g = build_with_blessing(Blessing::RemoveCard);
    g.master_deck = ironclad_deck();
    let size = g.master_deck.len();
    let step = ChooseBlessingStep(Blessing::RemoveCard);
    g.state.pop_state();
    step.run(&mut g);
    assert!(matches!(g.state.pop_state(), Some(BoxedState::RunActions(_))));
    match g.state.pop_state() {
        Some(BoxedState::ChooseRemoveFromMaster(state)) => {
            assert_eq!(state.num_cards_remaining, 1);
            g.master_deck.remove(0);
        }
        _ => panic!("a card is to be removed"),
    }
    assert_eq!(g.master_deck.len(), size - 1);
}

#[test]
fn upgrade_and_transform_ask_for_a_card() {
    let mut g = build_with_blessing(Blessing::UpgradeCard);
    Blessing::UpgradeCard.run(&mut g);
    assert!(matches!(g.state.peek(), BoxedState::ChooseUpgradeMaster(_)));
    Blessing::TransformCard.run(&mut g);
    let asked = match g.state.peek() {
        BoxedState::ChooseTransformMaster(state) => *state,
        _ => panic!("a card is to be transformed"),
    };
    assert_eq!(asked, ChooseTransformMasterGameState { num_cards_remaining: 1, upgrade: false });
    assert!(g.action_queue.actions.is_empty());
}

#[test]
fn the_rare_card_and_the_relic_come_from_the_pools() {
    let mut g = build_with_blessing(Blessing::RandomRareCard);
    Blessing::RandomRareCard.run(&mut g);
    Blessing::CommonRelic.run(&mut g);
    assert_eq!(
        g.action_queue.actions,
        vec![
            Action::AddCardClassToMasterDeck(red(CardName::Offering, CardType::Skill)),
            Action::GainRelic(RelicClass::Other(5)),
        ]
    );
    assert_eq!(g.pools.common_relics, vec![RelicClass::Other(6)]);
    assert_eq!(g.pools.rare_cards.len(), 1);
}

#[test]
fn potions_come_for_free_slots_only_and_three_at_most() {
    let mut g = build_with_blessing(Blessing::ThreePotions);
    g.potions = vec![Some(Potion(9)), None];
    Blessing::ThreePotions.run(&mut g);
    assert_eq!(g.action_queue.actions.len(), 1);
    let mut wide = build_with_blessing(Blessing::ThreePotions);
    wide.potions = vec![None, None, None, None, None];
    Blessing::ThreePotions.run(&mut wide);
    assert_eq!(wide.action_queue.actions.len(), 3);
    for action in &wide.action_queue.actions {
        assert!(matches!(action, Action::GainPotion(Potion(1)) | Action::GainPotion(Potion(2))));
    }
}

#[test]
fn a_tenth_is_what_single_precision_makes_of_it() {
    for hp in -300..3000 {
        assert_eq!(tenth(hp), (hp as f32 * 0.1) as i32, "{hp}");
    }
    for hp in [
        16_777_215,
        16_777_216,
        16_777_217,
        33_554_433,
        99_999_989,
        123_456_789,
        1_999_999_999,
        2_147_483_583,
        2_147_483_584,
        i32::MAX,
        i32::MIN,
        -16_777_219,
    ] {
        assert_eq!(tenth(hp), (hp as f32 * 0.1) as i32, "{hp}");
    }
    assert_eq!(tenth(80), 8);
    assert_eq!(tenth(79), 7);
}

#[test]
fn a_choice_of_blessings_offers_one_step_each() {
    let g = build_with_blessing(Blessing::NeowsLament);
    let state = ChooseBlessingGameState {
        rewards: vec![Blessing::TransformCard, Blessing::HundredGold],
    };
    let steps = state.valid_steps(&g).unwrap();
    assert_eq!(
        steps.steps,
        vec![
            StepKind::ChooseBlessing(Blessing::TransformCard),
            StepKind::ChooseBlessing(Blessing::HundredGold),
        ]
    );
    assert_eq!(ChooseBlessingStep(Blessing::HundredGold).description(&g), "HundredGold");
}

#[test]
fn a_blessing_describes_itself_by_its_name() {
    for b in CARD_BLESSINGS.iter().chain(BONUS_BLESSINGS.iter()) {
        assert_eq!(b.to_text(), format!("{b:?}"));
    }
}

#[test]
fn going_on_ends_the_state_and_changes_nothing() {
    let mut g = build_with_blessing(Blessing::NeowsLament);
    assert!(ContinueStep.should_pop_state());
    assert_eq!(ContinueStep.description(&g), "continue");
    ContinueStep.run(&mut g);
    assert_eq!(g.gold, 99);
    let mut steps = Steps::default();
    assert!(steps.steps.is_empty());
    steps.push(ContinueStep);
    steps.push(ChooseBlessingStep(Blessing::CommonRelic));
    assert_eq!(
        steps.steps,
        vec![StepKind::Continue, StepKind::ChooseBlessing(Blessing::CommonRelic)]
    );
}

#[test]
fn a_roll_is_two_draws() {
    let mut rng = Rand::seed_from_u64(3);
    let mut by_hand = rng.clone();
    for _ in 0..40 {
        let rolled = Blessing::roll(&mut rng);
        let card = CARD_BLESSINGS[by_hand.below(4)];
        let bonus = BONUS_BLESSINGS[by_hand.below(5)];
        assert_eq!(rolled, vec![card, bonus]);
    }
}

#[test]
fn gifts_are_drawn_one_by_one_and_the_others_draw_nothing() {
    let mut g = build_with_blessing(Blessing::ThreePotions);
    g.pools.rare_cards.push(red(CardName::Reaper, CardType::Attack));
    let mut by_hand = g.rng.clone();
    for _ in 0..10 {
        g.action_queue.actions.clear();
        Blessing::RandomRareCard.run(&mut g);
        Blessing::ThreePotions.run(&mut g);
        let card = g.pools.rare_cards[by_hand.below(2)];
        let mut expected = vec![Action::AddCardClassToMasterDeck(card)];
        for _ in 0..3 {
            expected.push(Action::GainPotion(g.pools.common_potions[by_hand.below(2)]));
        }
        assert_eq!(g.action_queue.actions, expected);
    }
    g.potions = vec![Some(Potion(1))];
    for b in [
        Blessing::RemoveCard,
        Blessing::UpgradeCard,
        Blessing::TransformCard,
        Blessing::ThreePotions,
        Blessing::CommonRelic,
        Blessing::TenPercentMaxHp,
        Blessing::NeowsLament,
        Blessing::HundredGold,
    ] {
        b.run(&mut g);
    }
    assert_eq!(g.rng.bits(), by_hand.bits());
}
