//! The stack of states that a game runs through, and the steps that a state offers.

use crate::blessings::ChooseBlessingGameState;
use crate::game::Game;
use crate::step::{Step, StepKind};
use vstd::prelude::*;

verus! {

/// The steps that a state offers, in the order in which it offers them.
#[derive(Debug)]
pub struct Steps {
    pub steps: Vec<StepKind>,
}

impl Default for Steps {
    fn default() -> (r: Steps)
        ensures
            r.steps@.len() == 0,
    {
        Steps { steps: Vec::new() }
    }
}

impl Steps {
    /// Offers one more step, after the others.
    pub fn push<T: Step>(&mut self, step: T)
        ensures
            final(self).steps@ == old(self).steps@.push(step.as_kind()),
    {
        self.steps.push(step.boxed());
    }
}

/// A state that a game can be in.
pub trait GameState: Sized {
    /// The state as it lies on the stack.
    spec fn as_boxed(&self) -> BoxedState;

    /// The state can lie on the stack while a fight waits for the player, so it can be forked.
    spec fn can_fork(&self) -> bool;

    /// Goes on with the game, where the state does so by itself. By default nothing happens.
    fn run(&self, game: &mut Game)
        default_ensures
            *final(game) == *old(game),
    {
    }

    /// The steps that the state offers; none, by default, where it asks nothing of the player.
    fn valid_steps(&self, game: &Game) -> (r: Option<Steps>)
        default_ensures
            r is None,
    {
        None
    }

    /// The state as it lies on the stack.
    fn boxed(self) -> (r: BoxedState)
        ensures
            r == self.as_boxed(),
    ;

    /// A copy of the state for a game that is forked.
    fn clone_box(&self) -> (r: BoxedState)
        requires
            self.can_fork(),
        ensures
            r == self.as_boxed(),
    ;
}

/// The player is to remove cards from the deck.
#[derive(Clone, Copy, PartialEq, Eq, Debug, Structural)]
pub struct ChooseRemoveFromMasterGameState {
    pub num_cards_remaining: usize,
}

/// The player is to upgrade a card of the deck.
#[derive(Clone, Copy, PartialEq, Eq, Debug, Structural)]
pub struct ChooseUpgradeMasterGameState;

/// The player is to transform cards of the deck.
#[derive(Clone, Copy, PartialEq, Eq, Debug, Structural)]
pub struct ChooseTransformMasterGameState {
    pub num_cards_remaining: usize,
    pub upgrade: bool,
}

/// The engine is to do the actions that wait.
#[derive(Clone, Copy, PartialEq, Eq, Debug, Structural)]
pub struct RunActionsGameState;

/// A state of the engine's own, by the engine's number for it.
#[derive(Clone, Copy, PartialEq, Eq, Debug, Structural)]
pub struct EngineGameState {
    pub id: u64,
    pub forkable: bool,
}

/// Any state, as it lies on the stack.
#[derive(Debug)]
pub enum BoxedState {
    ChooseBlessing(ChooseBlessingGameState),
    ChooseRemoveFromMaster(ChooseRemoveFromMasterGameState),
    ChooseUpgradeMaster(ChooseUpgradeMasterGameState),
    ChooseTransformMaster(ChooseTransformMasterGameState),
    RunActions(RunActionsGameState),
    Engine(EngineGameState),
}

impl BoxedState {
    /// The state can lie on the stack while a fight waits for the player. The choices that are
    /// made outside a fight cannot.
    pub open spec fn can_fork(&self) -> bool {
        match *self {
            BoxedState::ChooseBlessing(_) => false,
            BoxedState::ChooseRemoveFromMaster(_) => false,
            BoxedState::ChooseUpgradeMaster(_) => false,
            BoxedState::ChooseTransformMaster(_) => false,
            BoxedState::RunActions(_) => true,
            BoxedState::Engine(state) => state.forkable,
        }
    }

    /// A copy of the state for a game that is forked.
    pub fn clone_box(&self) -> (r: BoxedState)
        requires
            self.can_fork(),
        ensures
            r == *self,
    {
        match self {
            BoxedState::RunActions(state) => BoxedState::RunActions(*state),
            BoxedState::Engine(state) => BoxedState::Engine(*state),
            _ => unreached(),
        }
    }
}

/// The step that merely goes on.
#[derive(PartialEq, Eq, Debug, Structural)]
pub struct ContinueStep;

impl Step for ContinueStep {
    open spec fn pops(&self) -> bool {
        true
    }

    open spec fn as_kind(&self) -> StepKind {
        StepKind::Continue
    }

    open spec fn words(&self, game: Game) -> Seq<char> {
        "continue"@
    }

    open spec fn can_run(&self, game: Game) -> bool {
        true
    }

    fn should_pop_state(&self) -> bool {
        true
    }

    fn run(&self, game: &mut Game)
        ensures
            *final(game) == *old(game),
    {
    }

    fn description(&self, game: &Game) -> String {
        "continue".to_owned()
    }

    fn boxed(&self) -> StepKind {
        StepKind::Continue
    }
}

/// The states of a game, one on top of the other; the game is in the topmost.
#[derive(Debug)]
pub struct GameStateManager {
    stack: Vec<BoxedState>,
    debug: bool,
}

impl View for GameStateManager {
    type V = Seq<BoxedState>;

    closed spec fn view(&self) -> Seq<BoxedState> {
        self.stack@
    }
}

impl Default for GameStateManager {
    fn default() -> (r: GameStateManager)
        ensures
            r@.len() == 0,
            !r.traced(),
    {
        GameStateManager { stack: Vec::new(), debug: false }
    }
}

impl GameStateManager {
    /// What happens to the stack is to be reported.
    pub closed spec fn traced(&self) -> bool {
        self.debug
    }

    /// Takes every state off the stack.
    pub fn clear(&mut self)
        ensures
            final(self)@ == Seq::<BoxedState>::empty(),
            final(self).traced() == old(self).traced(),
    {
        self.stack.clear();
    }

    /// Whether no state is on the stack.
    pub fn is_empty(&self) -> (r: bool)
        ensures
            r == (self@.len() == 0),
    {
        self.stack.is_empty()
    }

    /// Asks for what happens to the stack to be reported from now on.
    pub fn set_debug(&mut self)
        ensures
            final(self).traced(),
            final(self)@ == old(self)@,
    {
        self.debug = true;
    }

    /// Whether what happens to the stack is to be reported.
    pub fn is_traced(&self) -> (r: bool)
        ensures
            r == self.traced(),
    {
        self.debug
    }

    /// The states, the topmost last.
    pub fn states(&self) -> (r: &Vec<BoxedState>)
        ensures
            r@ == self@,
    {
        &self.stack
    }

    /// Puts a state on top of the others.
    pub fn push_state<T: GameState>(&mut self, state: T)
        ensures
            final(self)@ == old(self)@.push(state.as_boxed()),
            final(self).traced() == old(self).traced(),
    {
        self.push_boxed_state(state.boxed());
    }

    /// Puts a state on top of the others.
    pub fn push_boxed_state(&mut self, state: BoxedState)
        ensures
            final(self)@ == old(self)@.push(state),
            final(self).traced() == old(self).traced(),
    {
        self.stack.push(state);
    }

    /// Takes the topmost state off the stack, where there is one.
    pub fn pop_state(&mut self) -> (r: Option<BoxedState>)
        ensures
            old(self)@.len() == 0 ==> r is None && final(self)@ == old(self)@,
            old(self)@.len() > 0 ==> r == Some(old(self)@.last()) && final(self)@ == old(
                self,
            )@.drop_last(),
            final(self).traced() == old(self).traced(),
    {
        self.stack.pop()
    }

    /// The topmost state.
    pub fn peek(&self) -> (r: &BoxedState)
        requires
            self@.len() > 0,
        ensures
            *r == self@.last(),
    {
        &self.stack[self.stack.len() - 1]
    }

    /// A copy of the stack for a game that is forked. Every state on it must be one that can lie
    /// there while a fight waits for the player.
    pub fn clone_for_search(&self) -> (r: GameStateManager)
        requires
            forall|i: int| 0 <= i < self@.len() ==> (#[trigger] self@[i]).can_fork(),
        ensures
            r@ == self@,
            r.traced() == self.traced(),
    {
        let mut stack: Vec<BoxedState> = Vec::new();
        let mut i: usize = 0;
        while i < self.stack.len()
            invariant
                i <= self.stack@.len(),
                self@ == self.stack@,
                stack@ == self.stack@.take(i as int),
                forall|j: int| 0 <= j < self@.len() ==> (#[trigger] self@[j]).can_fork(),
            decreases self.stack@.len() - i,
        {
            assert(self@[i as int].can_fork());
            stack.push(self.stack[i].clone_box());
            i = i + 1;
            assert(stack@ =~= self.stack@.take(i as int));
        }
        assert(self.stack@.take(i as int) =~= self.stack@);
        GameStateManager { stack, debug: self.debug }
    }
}

/// A state that was put on top comes off again first, and leaves the stack as it was.
pub proof fn pop_undoes_push(stack: Seq<BoxedState>, state: BoxedState)
    ensures
        stack.push(state).last() == state,
        stack.push(state).drop_last() == stack,
{
    assert(stack.push(state).drop_last() =~= stack);
}

} // verus!
