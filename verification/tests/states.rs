use spire::blessings::{Blessing, ChooseBlessingGameState};
use spire::state::{
    BoxedState, ChooseRemoveFromMasterGameState, ChooseUpgradeMasterGameState, EngineGameState,
    GameState, GameStateManager, RunActionsGameState,
};

fn engine(id: u64) -> BoxedState {
    BoxedState::Engine(EngineGameState { id, forkable: true })
}

fn blessing() -> ChooseBlessingGameState {
    ChooseBlessingGameState { rewards: vec![Blessing::CommonRelic] }
}

#[test]
fn the_last_state_in_is_the_first_out() {
    let mut manager = GameStateManager::default();
    assert!(manager.is_empty());
    assert!(manager.pop_state().is_none());
    manager.push_state(blessing());
    manager.push_boxed_state(BoxedState::ChooseRemoveFromMaster(
        ChooseRemoveFromMasterGameState { num_cards_remaining: 2 },
    ));
    manager.push_boxed_state(engine(4));
    assert!(matches!(manager.peek(), BoxedState::Engine(e) if e.id == 4));
    assert!(matches!(manager.pop_state(), Some(BoxedState::Engine(_))));
    assert!(matches!(
        manager.pop_state(),
        Some(BoxedState::ChooseRemoveFromMaster(s)) if s.num_cards_remaining == 2
    ));
    assert!(matches!(manager.pop_state(), Some(BoxedState::ChooseBlessing(_))));
    assert!(manager.is_empty());
}

#[test]
fn clearing_takes_every_state_off() {
    let mut manager = GameStateManager::default();
    manager.push_state(blessing());
    manager.push_boxed_state(BoxedState::ChooseUpgradeMaster(ChooseUpgradeMasterGameState));
    manager.clear();
    assert!(manager.is_empty());
}

#[test]
fn debugging_stays_switched_on() {
    let mut manager = GameStateManager::default();
    assert!(!manager.is_traced());
    manager.set_debug();
    manager.push_state(blessing());
    manager.clear();
    assert!(manager.is_traced());
}

#[test]
fn a_forked_stack_has_the_same_states_and_a_life_of_its_own() {
    let mut manager = GameStateManager::default();
    manager.push_boxed_state(engine(1));
    manager.push_boxed_state(BoxedState::RunActions(RunActionsGameState));
    let mut fork = manager.clone_for_search();
    assert_eq!(format!("{:?}", fork.states()), format!("{:?}", manager.states()));
    fork.pop_state();
    fork.push_boxed_state(engine(2));
    assert_eq!(manager.states().len(), 2);
    assert!(matches!(manager.peek(), BoxedState::RunActions(_)));
    assert!(matches!(fork.peek(), BoxedState::Engine(e) if e.id == 2));
}

#[test]
fn a_state_boxes_itself() {
    match blessing().boxed() {
        BoxedState::ChooseBlessing(state) => assert_eq!(state.rewards, vec![Blessing::CommonRelic]),
        _ => panic!("the state is that of a blessing"),
    }
}
