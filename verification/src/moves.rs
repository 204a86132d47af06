//! The moves of a fight, named so that the same move is recognised in every sampled future.

use crate::cards::CardClass;
use crate::game::{Game, GameStatus};
use crate::step::{index_of, offer_from, offered, StepKind};
use vstd::prelude::*;

verus! {

/// What a move is, whatever the order of the hand: cards of one class that are upgraded alike
/// make the same move. A potion keeps its place, so the place names it.
#[derive(Clone, Copy, PartialEq, Eq, Debug, Structural)]
pub enum MoveKey {
    EndTurn,
    Play { class: CardClass, upgraded: bool, target: Option<usize> },
    UsePotion { potion_index: usize, target: Option<usize> },
}

/// A move and the step that makes it.
pub type Move = (MoveKey, StepKind);

/// A move goes by `key`.
pub open spec fn has_key(moves: Seq<Move>, key: MoveKey) -> bool {
    exists|i: int| 0 <= i < moves.len() && #[trigger] moves[i].0 == key
}

/// The moves with one more, where its step is on offer and no move goes by its key yet.
pub open spec fn add_move(moves: Seq<Move>, game: Game, m: Move) -> Seq<Move> {
    if offered(game.steps@, m.1) && !has_key(moves, m.0) {
        moves.push(m)
    } else {
        moves
    }
}

/// Playing card `ci` of the hand at `target`.
pub open spec fn card_move(game: Game, ci: int, target: Option<usize>) -> Move {
    let card = game.hand@[ci];
    (
        MoveKey::Play { class: card.class, upgraded: card.upgrade_count > 0, target },
        StepKind::PlayCard { hand_index: ci as usize, target },
    )
}

/// Using the potion in slot `pi` at `target`.
pub open spec fn potion_move(pi: int, target: Option<usize>) -> Move {
    (
        MoveKey::UsePotion { potion_index: pi as usize, target },
        StepKind::UsePotion { potion_index: pi as usize, target },
    )
}

/// Adds card `ci` at each of the first `n` monsters that takes part in the fight.
pub open spec fn add_card_at(moves: Seq<Move>, game: Game, ci: int, n: int) -> Seq<Move>
    decreases n,
{
    if n <= 0 {
        moves
    } else {
        let earlier = add_card_at(moves, game, ci, n - 1);
        if game.monsters@[n - 1].creature.actionable {
            add_move(earlier, game, card_move(game, ci, Some((n - 1) as usize)))
        } else {
            earlier
        }
    }
}

/// Adds the moves of the first `n` cards of the hand.
pub open spec fn add_cards(moves: Seq<Move>, game: Game, n: int) -> Seq<Move>
    decreases n,
{
    if n <= 0 {
        moves
    } else {
        let earlier = add_cards(moves, game, n - 1);
        if game.hand@[n - 1].has_target {
            add_card_at(earlier, game, n - 1, game.monsters@.len() as int)
        } else {
            add_move(earlier, game, card_move(game, n - 1, None))
        }
    }
}

/// Adds the potion in slot `pi` without a target and then at each of the first `n` monsters that
/// takes part in the fight.
pub open spec fn add_potion_at(moves: Seq<Move>, game: Game, pi: int, n: int) -> Seq<Move>
    decreases n,
{
    if n <= 0 {
        add_move(moves, game, potion_move(pi, None))
    } else {
        let earlier = add_potion_at(moves, game, pi, n - 1);
        if game.monsters@[n - 1].creature.actionable {
            add_move(earlier, game, potion_move(pi, Some((n - 1) as usize)))
        } else {
            earlier
        }
    }
}

/// Adds the moves of the first `n` potion slots.
pub open spec fn add_potions(moves: Seq<Move>, game: Game, n: int) -> Seq<Move>
    decreases n,
{
    if n <= 0 {
        moves
    } else {
        let earlier = add_potions(moves, game, n - 1);
        if game.potions@[n - 1] is Some {
            add_potion_at(earlier, game, n - 1, game.monsters@.len() as int)
        } else {
            earlier
        }
    }
}

/// The moves of a fight: ending the turn, then the cards in hand order, then the potions; of
/// those that go by one key, the first.
pub open spec fn moves_of(game: Game) -> Seq<Move> {
    let first = add_move(Seq::empty(), game, (MoveKey::EndTurn, StepKind::EndTurn));
    let cards = add_cards(first, game, game.hand@.len() as int);
    add_potions(cards, game, game.potions@.len() as int)
}

/// No two moves go by one key.
pub open spec fn keys_differ(moves: Seq<Move>) -> bool {
    forall|i: int, j: int|
        0 <= i < j < moves.len() ==> #[trigger] moves[i].0 != #[trigger] moves[j].0
}

/// Every move is made by a step that is on offer.
pub open spec fn all_offered(game: Game, moves: Seq<Move>) -> bool {
    forall|i: int| 0 <= i < moves.len() ==> offered(game.steps@, (#[trigger] moves[i]).1)
}

/// `longer` begins with `shorter`.
pub open spec fn extends(longer: Seq<Move>, shorter: Seq<Move>) -> bool {
    &&& shorter.len() <= longer.len()
    &&& forall|i: int| 0 <= i < shorter.len() ==> #[trigger] longer[i] == shorter[i]
}

/// What adding moves keeps.
pub open spec fn sound(game: Game, moves: Seq<Move>) -> bool {
    keys_differ(moves) && all_offered(game, moves)
}

proof fn lemma_extends_keys(longer: Seq<Move>, shorter: Seq<Move>)
    requires
        extends(longer, shorter),
    ensures
        forall|key: MoveKey| has_key(shorter, key) ==> #[trigger] has_key(longer, key),
{
    assert forall|key: MoveKey| has_key(shorter, key) implies #[trigger] has_key(longer, key) by {
        let i = choose|i: int| 0 <= i < shorter.len() && #[trigger] shorter[i].0 == key;
        assert(longer[i].0 == key);
    }
}

proof fn lemma_add_move(moves: Seq<Move>, game: Game, m: Move)
    requires
        sound(game, moves),
    ensures
        sound(game, add_move(moves, game, m)),
        extends(add_move(moves, game, m), moves),
        offered(game.steps@, m.1) ==> has_key(add_move(moves, game, m), m.0),
{
    let now = add_move(moves, game, m);
    if offered(game.steps@, m.1) && !has_key(moves, m.0) {
        assert(now[moves.len() as int].0 == m.0);
    }
}

proof fn lemma_add_card_at(moves: Seq<Move>, game: Game, ci: int, n: int)
    requires
        sound(game, moves),
        0 <= n <= game.monsters@.len(),
    ensures
        sound(game, add_card_at(moves, game, ci, n)),
        extends(add_card_at(moves, game, ci, n), moves),
        forall|mi: usize|
            mi < n && game.monsters@[mi as int].creature.actionable && offered(
                game.steps@,
                (#[trigger] card_move(game, ci, Some(mi))).1,
            ) ==> has_key(add_card_at(moves, game, ci, n), card_move(game, ci, Some(mi)).0),
    decreases n,
{
    if n > 0 {
        lemma_add_card_at(moves, game, ci, n - 1);
        let earlier = add_card_at(moves, game, ci, n - 1);
        lemma_add_move(earlier, game, card_move(game, ci, Some((n - 1) as usize)));
        lemma_extends_keys(add_card_at(moves, game, ci, n), earlier);
    }
}

/// The ways in which card `ci` can be tried: just so, or at any monster in the fight.
pub open spec fn can_try_card(game: Game, ci: int, target: Option<usize>) -> bool {
    match target {
        None => !game.hand@[ci].has_target,
        Some(mi) => game.hand@[ci].has_target && mi < game.monsters@.len()
            && game.monsters@[mi as int].creature.actionable,
    }
}

proof fn lemma_add_cards(moves: Seq<Move>, game: Game, n: int)
    requires
        sound(game, moves),
        0 <= n <= game.hand@.len(),
    ensures
        sound(game, add_cards(moves, game, n)),
        extends(add_cards(moves, game, n), moves),
        forall|ci: int, target: Option<usize>|
            0 <= ci < n && can_try_card(game, ci, target) && offered(
                game.steps@,
                (#[trigger] card_move(game, ci, target)).1,
            ) ==> has_key(add_cards(moves, game, n), card_move(game, ci, target).0),
    decreases n,
{
    if n > 0 {
        lemma_add_cards(moves, game, n - 1);
        let earlier = add_cards(moves, game, n - 1);
        if game.hand@[n - 1].has_target {
            lemma_add_card_at(earlier, game, n - 1, game.monsters@.len() as int);
        } else {
            lemma_add_move(earlier, game, card_move(game, n - 1, None));
        }
        lemma_extends_keys(add_cards(moves, game, n), earlier);
    }
}

proof fn lemma_add_potion_at(moves: Seq<Move>, game: Game, pi: int, n: int)
    requires
        sound(game, moves),
        0 <= n <= game.monsters@.len(),
    ensures
        sound(game, add_potion_at(moves, game, pi, n)),
        extends(add_potion_at(moves, game, pi, n), moves),
        forall|target: Option<usize>|
            can_aim_potion(game, target, n) && offered(
                game.steps@,
                (#[trigger] potion_move(pi, target)).1,
            ) ==> has_key(add_potion_at(moves, game, pi, n), potion_move(pi, target).0),
    decreases n,
{
    if n > 0 {
        lemma_add_potion_at(moves, game, pi, n - 1);
        let earlier = add_potion_at(moves, game, pi, n - 1);
        lemma_add_move(earlier, game, potion_move(pi, Some((n - 1) as usize)));
        lemma_extends_keys(add_potion_at(moves, game, pi, n), earlier);
    } else {
        lemma_add_move(moves, game, potion_move(pi, None));
    }
}

/// The ways in which a potion can be tried: just so, or at any of the first `n` monsters that is
/// in the fight.
pub open spec fn can_aim_potion(game: Game, target: Option<usize>, n: int) -> bool {
    match target {
        None => true,
        Some(mi) => mi < n && game.monsters@[mi as int].creature.actionable,
    }
}

proof fn lemma_add_potions(moves: Seq<Move>, game: Game, n: int)
    requires
        sound(game, moves),
        0 <= n <= game.potions@.len(),
    ensures
        sound(game, add_potions(moves, game, n)),
        extends(add_potions(moves, game, n), moves),
        forall|pi: int, target: Option<usize>|
            0 <= pi < n && game.potions@[pi] is Some && can_aim_potion(
                game,
                target,
                game.monsters@.len() as int,
            ) && offered(game.steps@, (#[trigger] potion_move(pi, target)).1) ==> has_key(
                add_potions(moves, game, n),
                potion_move(pi, target).0,
            ),
    decreases n,
{
    if n > 0 {
        lemma_add_potions(moves, game, n - 1);
        let earlier = add_potions(moves, game, n - 1);
        if game.potions@[n - 1] is Some {
            lemma_add_potion_at(earlier, game, n - 1, game.monsters@.len() as int);
        }
        lemma_extends_keys(add_potions(moves, game, n), earlier);
    }
}

/// No two moves go by one key, and each is made by a step that is on offer. Nothing is missed:
/// ending the turn, playing a card and using a potion each have a move by their key wherever the
/// step that does so is on offer.
pub proof fn moves_are_sound_and_complete(game: Game)
    ensures
        keys_differ(moves_of(game)),
        all_offered(game, moves_of(game)),
        offered(game.steps@, StepKind::EndTurn) ==> has_key(moves_of(game), MoveKey::EndTurn),
        forall|ci: int, target: Option<usize>|
            0 <= ci < game.hand@.len() && can_try_card(game, ci, target) && offered(
                game.steps@,
                (#[trigger] card_move(game, ci, target)).1,
            ) ==> has_key(moves_of(game), card_move(game, ci, target).0),
        forall|pi: int, target: Option<usize>|
            0 <= pi < game.potions@.len() && game.potions@[pi] is Some && can_aim_potion(
                game,
                target,
                game.monsters@.len() as int,
            ) && offered(game.steps@, (#[trigger] potion_move(pi, target)).1) ==> has_key(
                moves_of(game),
                potion_move(pi, target).0,
            ),
{
    let none: Seq<Move> = Seq::empty();
    let end: Move = (MoveKey::EndTurn, StepKind::EndTurn);
    lemma_add_move(none, game, end);
    let first = add_move(none, game, end);
    let n = game.hand@.len() as int;
    lemma_add_cards(first, game, n);
    let cards = add_cards(first, game, n);
    lemma_extends_keys(cards, first);
    lemma_add_potions(cards, game, game.potions@.len() as int);
    lemma_extends_keys(moves_of(game), cards);
}

/// Adds a move, where its step is on offer and no move goes by its key yet.
fn try_move(moves: &mut Vec<Move>, game: &Game, m: Move)
    ensures
        final(moves)@ == add_move(old(moves)@, *game, m),
{
    if index_of(&game.steps, m.1).is_none() {
        return;
    }
    let mut i: usize = 0;
    while i < moves.len()
        invariant
            i <= moves@.len(),
            moves@ == old(moves)@,
            forall|j: int| 0 <= j < i ==> #[trigger] moves@[j].0 != m.0,
        decreases moves@.len() - i,
    {
        if moves[i].0 == m.0 {
            return;
        }
        i = i + 1;
    }
    moves.push(m);
}

/// The moves of a fight, each with the step that makes it. Cards that make the same move are one
/// move.
pub fn legal_moves(game: &Game) -> (moves: Vec<Move>)
    ensures
        moves@ == moves_of(*game),
        keys_differ(moves@),
        all_offered(*game, moves@),
{
    let mut moves: Vec<Move> = Vec::new();
    try_move(&mut moves, game, (MoveKey::EndTurn, StepKind::EndTurn));
    let ghost first = moves@;
    let mut ci: usize = 0;
    while ci < game.hand.len()
        invariant
            ci <= game.hand@.len(),
            moves@ == add_cards(first, *game, ci as int),
        decreases game.hand@.len() - ci,
    {
        let class: CardClass = game.hand[ci].class;
        let upgraded: bool = game.hand[ci].upgrade_count > 0;
        if game.hand[ci].has_target {
            let ghost earlier = moves@;
            let mut mi: usize = 0;
            while mi < game.monsters.len()
                invariant
                    ci < game.hand@.len(),
                    class == game.hand@[ci as int].class,
                    upgraded == (game.hand@[ci as int].upgrade_count > 0),
                    mi <= game.monsters@.len(),
                    moves@ == add_card_at(earlier, *game, ci as int, mi as int),
                decreases game.monsters@.len() - mi,
            {
                if game.monsters[mi].creature.is_actionable() {
                    try_move(
                        &mut moves,
                        game,
                        (
                            MoveKey::Play { class, upgraded, target: Some(mi) },
                            StepKind::PlayCard { hand_index: ci, target: Some(mi) },
                        ),
                    );
                }
                mi = mi + 1;
            }
        } else {
            try_move(
                &mut moves,
                game,
                (
                    MoveKey::Play { class, upgraded, target: None },
                    StepKind::PlayCard { hand_index: ci, target: None },
                ),
            );
        }
        ci = ci + 1;
    }
    let ghost cards = moves@;
    let mut pi: usize = 0;
    while pi < game.potions.len()
        invariant
            pi <= game.potions@.len(),
            moves@ == add_potions(cards, *game, pi as int),
        decreases game.potions@.len() - pi,
    {
        if game.potions[pi].is_some() {
            let ghost earlier = moves@;
            try_move(
                &mut moves,
                game,
                (
                    MoveKey::UsePotion { potion_index: pi, target: None },
                    StepKind::UsePotion { potion_index: pi, target: None },
                ),
            );
            let mut mi: usize = 0;
            while mi < game.monsters.len()
                invariant
                    mi <= game.monsters@.len(),
                    moves@ == add_potion_at(earlier, *game, pi as int, mi as int),
                decreases game.monsters@.len() - mi,
            {
                if game.monsters[mi].creature.is_actionable() {
                    try_move(
                        &mut moves,
                        game,
                        (
                            MoveKey::UsePotion { potion_index: pi, target: Some(mi) },
                            StepKind::UsePotion { potion_index: pi, target: Some(mi) },
                        ),
                    );
                }
                mi = mi + 1;
            }
        }
        pi = pi + 1;
    }
    proof {
        moves_are_sound_and_complete(*game);
    }
    moves
}

/// The position of a step that is known to be on offer.
pub fn step_move(game: &Game, step: StepKind) -> (i: usize)
    requires
        offered(game.steps@, step),
    ensures
        i == offer_from(game.steps@, step, 0),
        i < game.steps@.len(),
        game.steps@[i as int].kind == step,
{
    match index_of(&game.steps, step) {
        Some(i) => i,
        None => 0,
    }
}

/// The fight is decided.
pub open spec fn is_over(game: Game) -> bool {
    game.status == GameStatus::Defeat || !game.in_combat
}

/// Whether the fight is decided.
pub fn combat_over(game: &Game) -> (r: bool)
    ensures
        r == is_over(*game),
{
    game.status == GameStatus::Defeat || !game.in_combat
}

/// The target is one that takes part in the fight, where there is one.
pub open spec fn is_target(game: Game, target: Option<usize>) -> bool {
    target matches Some(mi) ==> mi < game.monsters@.len()
        && game.monsters@[mi as int].creature.actionable
}

/// Card `ci` of the hand is of the class and upgraded or not, and is played at a target or without
/// one as `target` has it.
pub open spec fn is_such_a_card(
    game: Game,
    ci: int,
    class: CardClass,
    upgraded: bool,
    target: Option<usize>,
) -> bool {
    &&& 0 <= ci < game.hand@.len()
    &&& game.hand@[ci].class == class
    &&& upgraded <==> game.hand@[ci].upgrade_count > 0
    &&& game.hand@[ci].has_target <==> target is Some
}

/// The key says what the step does: it ends the turn, plays the first such card of the hand that
/// can be played so, or uses a potion that is there.
pub open spec fn key_tells_the_step(game: Game, m: Move) -> bool {
    match m {
        (MoveKey::EndTurn, step) => step == StepKind::EndTurn,
        (MoveKey::Play { class, upgraded, target }, StepKind::PlayCard { hand_index, target: at }) => {
            &&& target == at
            &&& is_target(game, target)
            &&& is_such_a_card(game, hand_index as int, class, upgraded, target)
            &&& forall|ci: int|
                ci < hand_index && #[trigger] is_such_a_card(game, ci, class, upgraded, target)
                    ==> !offered(
                    game.steps@,
                    StepKind::PlayCard { hand_index: ci as usize, target },
                )
        },
        (
            MoveKey::UsePotion { potion_index, target },
            StepKind::UsePotion { potion_index: from, target: at },
        ) => {
            &&& potion_index == from
            &&& target == at
            &&& potion_index < game.potions@.len()
            &&& game.potions@[potion_index as int] is Some
            &&& is_target(game, target)
        },
        _ => false,
    }
}

/// Every key says what its step does.
pub open spec fn keys_tell(game: Game, moves: Seq<Move>) -> bool {
    forall|k: int| 0 <= k < moves.len() ==> key_tells_the_step(game, #[trigger] moves[k])
}

/// The cards before card `n` have moves by their keys wherever they can be played.
spec fn has_cards_before(game: Game, moves: Seq<Move>, n: int) -> bool {
    forall|ci: int, target: Option<usize>|
        0 <= ci < n && can_try_card(game, ci, target) && offered(
            game.steps@,
            (#[trigger] card_move(game, ci, target)).1,
        ) ==> has_key(moves, card_move(game, ci, target).0)
}

proof fn lemma_card_key_tells(moves: Seq<Move>, game: Game, ci: int, target: Option<usize>)
    requires
        0 <= ci < game.hand@.len(),
        can_try_card(game, ci, target),
        keys_tell(game, moves),
        has_cards_before(game, moves, ci),
    ensures
        keys_tell(game, add_move(moves, game, card_move(game, ci, target))),
{
    assert(game.hand@.len() == game.hand.len());
    let m = card_move(game, ci, target);
    let now = add_move(moves, game, m);
    if offered(game.steps@, m.1) && !has_key(moves, m.0) {
        let class = game.hand@[ci].class;
        let upgraded = game.hand@[ci].upgrade_count > 0;
        assert forall|cj: int|
            cj < ci && #[trigger] is_such_a_card(game, cj, class, upgraded, target) implies !offered(
            game.steps@,
            StepKind::PlayCard { hand_index: cj as usize, target },
        ) by {
            assert(card_move(game, cj, target).0 == m.0);
        }
        assert(key_tells_the_step(game, m));
        assert forall|k: int| 0 <= k < now.len() implies key_tells_the_step(
            game,
            #[trigger] now[k],
        ) by {
            if k < moves.len() {
                assert(now[k] == moves[k]);
            }
        }
    }
}

proof fn lemma_card_keys_at_tell(moves: Seq<Move>, game: Game, ci: int, n: int)
    requires
        0 <= ci < game.hand@.len(),
        game.hand@[ci].has_target,
        0 <= n <= game.monsters@.len(),
        sound(game, moves),
        keys_tell(game, moves),
        has_cards_before(game, moves, ci),
    ensures
        keys_tell(game, add_card_at(moves, game, ci, n)),
        has_cards_before(game, add_card_at(moves, game, ci, n), ci),
    decreases n,
{
    assert(game.monsters@.len() == game.monsters.len());
    if n > 0 {
        lemma_card_keys_at_tell(moves, game, ci, n - 1);
        lemma_add_card_at(moves, game, ci, n - 1);
        let earlier = add_card_at(moves, game, ci, n - 1);
        if game.monsters@[n - 1].creature.actionable {
            let target = Some((n - 1) as usize);
            lemma_card_key_tells(earlier, game, ci, target);
            lemma_add_move(earlier, game, card_move(game, ci, target));
            lemma_extends_keys(add_card_at(moves, game, ci, n), earlier);
        }
    }
}

proof fn lemma_card_keys_tell(moves: Seq<Move>, game: Game, n: int)
    requires
        0 <= n <= game.hand@.len(),
        sound(game, moves),
        keys_tell(game, moves),
    ensures
        keys_tell(game, add_cards(moves, game, n)),
    decreases n,
{
    if n > 0 {
        lemma_card_keys_tell(moves, game, n - 1);
        lemma_add_cards(moves, game, n - 1);
        let earlier = add_cards(moves, game, n - 1);
        assert(has_cards_before(game, earlier, n - 1));
        if game.hand@[n - 1].has_target {
            lemma_card_keys_at_tell(earlier, game, n - 1, game.monsters@.len() as int);
        } else {
            lemma_card_key_tells(earlier, game, n - 1, None);
        }
    }
}

proof fn lemma_potion_keys_at_tell(moves: Seq<Move>, game: Game, pi: int, n: int)
    requires
        0 <= pi < game.potions@.len(),
        game.potions@[pi] is Some,
        0 <= n <= game.monsters@.len(),
        keys_tell(game, moves),
    ensures
        keys_tell(game, add_potion_at(moves, game, pi, n)),
    decreases n,
{
    assert(game.potions@.len() == game.potions.len());
    assert(game.monsters@.len() == game.monsters.len());
    if n > 0 {
        lemma_potion_keys_at_tell(moves, game, pi, n - 1);
        let earlier = add_potion_at(moves, game, pi, n - 1);
        if game.monsters@[n - 1].creature.actionable {
            assert(key_tells_the_step(game, potion_move(pi, Some((n - 1) as usize))));
        }
    } else {
        assert(key_tells_the_step(game, potion_move(pi, None)));
    }
}

proof fn lemma_potion_keys_tell(moves: Seq<Move>, game: Game, n: int)
    requires
        0 <= n <= game.potions@.len(),
        keys_tell(game, moves),
    ensures
        keys_tell(game, add_potions(moves, game, n)),
    decreases n,
{
    if n > 0 {
        lemma_potion_keys_tell(moves, game, n - 1);
        if game.potions@[n - 1] is Some {
            lemma_potion_keys_at_tell(
                add_potions(moves, game, n - 1),
                game,
                n - 1,
                game.monsters@.len() as int,
            );
        }
    }
}

/// Every move is made by a step that is on offer and does what its key says; no two go by one key;
/// and each way to end the turn, play a card or use a potion that is on offer has its move.
pub proof fn moves_are_what_is_on_offer(game: Game, moves: Vec<Move>)
    requires
        call_ensures(legal_moves, (&game,), moves),
    ensures
        forall|k: int|
            0 <= k < moves@.len() ==> {
                &&& key_tells_the_step(game, #[trigger] moves@[k])
                &&& offered(game.steps@, moves@[k].1)
            },
        forall|k: int, l: int| 0 <= k < l < moves@.len() ==> moves@[k].0 != moves@[l].0,
        offered(game.steps@, StepKind::EndTurn) ==> has_key(moves@, MoveKey::EndTurn),
        forall|ci: int, target: Option<usize>|
            0 <= ci < game.hand@.len() && is_target(game, target) && (game.hand@[ci].has_target
                <==> target is Some) && #[trigger] offered(
                game.steps@,
                StepKind::PlayCard { hand_index: ci as usize, target },
            ) ==> has_key(
                moves@,
                MoveKey::Play {
                    class: game.hand@[ci].class,
                    upgraded: game.hand@[ci].upgrade_count > 0,
                    target,
                },
            ),
        forall|pi: int, target: Option<usize>|
            0 <= pi < game.potions@.len() && game.potions@[pi] is Some && is_target(game, target)
                && #[trigger] offered(
                game.steps@,
                StepKind::UsePotion { potion_index: pi as usize, target },
            ) ==> has_key(moves@, MoveKey::UsePotion { potion_index: pi as usize, target }),
{
    moves_are_sound_and_complete(game);
    let none: Seq<Move> = Seq::empty();
    let end: Move = (MoveKey::EndTurn, StepKind::EndTurn);
    let first = add_move(none, game, end);
    lemma_add_move(none, game, end);
    assert(keys_tell(game, first));
    let n = game.hand@.len() as int;
    lemma_card_keys_tell(first, game, n);
    lemma_add_cards(first, game, n);
    let cards = add_cards(first, game, n);
    lemma_potion_keys_tell(cards, game, game.potions@.len() as int);
    assert forall|ci: int, target: Option<usize>|
        0 <= ci < game.hand@.len() && is_target(game, target) && (game.hand@[ci].has_target
            <==> target is Some) && #[trigger] offered(
            game.steps@,
            StepKind::PlayCard { hand_index: ci as usize, target },
        ) implies has_key(
        moves@,
        MoveKey::Play {
            class: game.hand@[ci].class,
            upgraded: game.hand@[ci].upgrade_count > 0,
            target,
        },
    ) by {
        assert(has_key(moves_of(game), card_move(game, ci, target).0));
    }
    assert forall|pi: int, target: Option<usize>|
        0 <= pi < game.potions@.len() && game.potions@[pi] is Some && is_target(game, target)
            && #[trigger] offered(
            game.steps@,
            StepKind::UsePotion { potion_index: pi as usize, target },
        ) implies has_key(moves@, MoveKey::UsePotion { potion_index: pi as usize, target }) by {
        assert(has_key(moves_of(game), potion_move(pi, target).0));
    }
}

/// Where a step stands: ending the turn comes first, then the cards, then the potions, each by its
/// place.
pub open spec fn place_of(step: StepKind) -> (int, int) {
    match step {
        StepKind::EndTurn => (0, 0),
        StepKind::PlayCard { hand_index, .. } => (1, hand_index as int),
        StepKind::UsePotion { potion_index, .. } => (2, potion_index as int),
        _ => (3, 0),
    }
}

/// The one place does not come after the other.
pub open spec fn not_after(a: (int, int), b: (int, int)) -> bool {
    a.0 < b.0 || (a.0 == b.0 && a.1 <= b.1)
}

/// The moves stand in the order of their places.
pub open spec fn in_order(moves: Seq<Move>) -> bool {
    forall|k: int, l: int|
        0 <= k < l < moves.len() ==> not_after(
            place_of((#[trigger] moves[k]).1),
            place_of((#[trigger] moves[l]).1),
        )
}

/// No move stands after the place.
spec fn none_after(moves: Seq<Move>, place: (int, int)) -> bool {
    forall|k: int| 0 <= k < moves.len() ==> not_after(place_of((#[trigger] moves[k]).1), place)
}

proof fn lemma_order_kept(moves: Seq<Move>, game: Game, m: Move)
    requires
        in_order(moves),
        none_after(moves, place_of(m.1)),
    ensures
        in_order(add_move(moves, game, m)),
        none_after(add_move(moves, game, m), place_of(m.1)),
{
    let now = add_move(moves, game, m);
    if now.len() > moves.len() {
        assert forall|k: int, l: int| 0 <= k < l < now.len() implies not_after(
            place_of((#[trigger] now[k]).1),
            place_of((#[trigger] now[l]).1),
        ) by {
            assert(now[k] == moves[k]);
            if l < moves.len() {
                assert(now[l] == moves[l]);
            }
        }
        assert forall|k: int| 0 <= k < now.len() implies not_after(
            place_of((#[trigger] now[k]).1),
            place_of(m.1),
        ) by {
            if k < moves.len() {
                assert(now[k] == moves[k]);
            }
        }
    }
}

proof fn lemma_card_order(moves: Seq<Move>, game: Game, ci: int, n: int)
    requires
        0 <= ci < game.hand@.len(),
        in_order(moves),
        none_after(moves, (1, ci)),
    ensures
        in_order(add_card_at(moves, game, ci, n)),
        none_after(add_card_at(moves, game, ci, n), (1, ci)),
    decreases n,
{
    assert(game.hand@.len() == game.hand.len());
    if n > 0 {
        lemma_card_order(moves, game, ci, n - 1);
        lemma_order_kept(
            add_card_at(moves, game, ci, n - 1),
            game,
            card_move(game, ci, Some((n - 1) as usize)),
        );
    }
}

proof fn lemma_cards_order(moves: Seq<Move>, game: Game, n: int)
    requires
        0 <= n <= game.hand@.len(),
        in_order(moves),
        none_after(moves, (0, 0)),
    ensures
        in_order(add_cards(moves, game, n)),
        none_after(add_cards(moves, game, n), (1, n)),
    decreases n,
{
    assert(game.hand@.len() == game.hand.len());
    if n > 0 {
        lemma_cards_order(moves, game, n - 1);
        let earlier = add_cards(moves, game, n - 1);
        if game.hand@[n - 1].has_target {
            lemma_card_order(earlier, game, n - 1, game.monsters@.len() as int);
        } else {
            lemma_order_kept(earlier, game, card_move(game, n - 1, None));
        }
    }
}

proof fn lemma_potion_order(moves: Seq<Move>, game: Game, pi: int, n: int)
    requires
        0 <= pi < game.potions@.len(),
        in_order(moves),
        none_after(moves, (2, pi)),
    ensures
        in_order(add_potion_at(moves, game, pi, n)),
        none_after(add_potion_at(moves, game, pi, n), (2, pi)),
    decreases n,
{
    assert(game.potions@.len() == game.potions.len());
    if n > 0 {
        lemma_potion_order(moves, game, pi, n - 1);
        lemma_order_kept(
            add_potion_at(moves, game, pi, n - 1),
            game,
            potion_move(pi, Some((n - 1) as usize)),
        );
    } else {
        lemma_order_kept(moves, game, potion_move(pi, None));
    }
}

proof fn lemma_potions_order(moves: Seq<Move>, game: Game, n: int)
    requires
        0 <= n <= game.potions@.len(),
        in_order(moves),
        none_after(moves, (2, 0)),
    ensures
        in_order(add_potions(moves, game, n)),
        none_after(add_potions(moves, game, n), (2, n)),
    decreases n,
{
    if n > 0 {
        lemma_potions_order(moves, game, n - 1);
        if game.potions@[n - 1] is Some {
            lemma_potion_order(
                add_potions(moves, game, n - 1),
                game,
                n - 1,
                game.monsters@.len() as int,
            );
        }
    }
}

/// Ending the turn stands first among the moves, then the cards by their place in the hand, and
/// then the potions by theirs.
pub proof fn moves_stand_in_order(game: Game, moves: Vec<Move>)
    requires
        call_ensures(legal_moves, (&game,), moves),
    ensures
        in_order(moves@),
{
    let first = add_move(Seq::empty(), game, (MoveKey::EndTurn, StepKind::EndTurn));
    lemma_order_kept(Seq::empty(), game, (MoveKey::EndTurn, StepKind::EndTurn));
    let n = game.hand@.len() as int;
    lemma_cards_order(first, game, n);
    lemma_potions_order(add_cards(first, game, n), game, game.potions@.len() as int);
}

} // verus!
