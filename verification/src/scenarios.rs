//! The fights that players are measured by.

use crate::cards::CardName;
use vstd::prelude::*;

verus! {

/// A fight to be measured by: what the report calls it, after the one monster in it.
#[derive(Debug)]
pub struct Scenario {
    pub name: String,
    /// What the deck holds beyond the starting deck.
    pub extra_cards: Vec<CardName>,
}

/// What a deck has come to hold by the middle of the first act, beyond the starting deck, so that
/// the stronger monsters can be beaten.
pub open spec fn picked_up() -> Seq<CardName> {
    seq![
        CardName::Strike,
        CardName::Strike,
        CardName::TwinStrike,
        CardName::PommelStrike,
        CardName::Anger,
        CardName::ShrugItOff,
        CardName::Inflame,
    ]
}

/// The names of the fights, in the order in which they are reported.
pub open spec fn fight_names() -> Seq<Seq<char>> {
    seq!["JawWorm"@, "Cultist"@, "FungiBeast"@, "GremlinNob"@, "Lagavulin"@]
}

fn scenario(name: &str) -> (r: Scenario)
    ensures
        r.name@ == name@,
        r.extra_cards@ == picked_up(),
{
    let mut extra_cards: Vec<CardName> = Vec::new();
    extra_cards.push(CardName::Strike);
    extra_cards.push(CardName::Strike);
    extra_cards.push(CardName::TwinStrike);
    extra_cards.push(CardName::PommelStrike);
    extra_cards.push(CardName::Anger);
    extra_cards.push(CardName::ShrugItOff);
    extra_cards.push(CardName::Inflame);
    assert(extra_cards@ =~= picked_up());
    Scenario { name: name.to_owned(), extra_cards }
}

/// The fights that players are measured by.
pub fn scenarios() -> (r: Vec<Scenario>)
    ensures
        r@.len() == fight_names().len(),
        forall|i: int|
            0 <= i < r@.len() ==> (#[trigger] r@[i]).name@ == fight_names()[i]
                && r@[i].extra_cards@ == picked_up(),
{
    let mut r: Vec<Scenario> = Vec::new();
    r.push(scenario("JawWorm"));
    r.push(scenario("Cultist"));
    r.push(scenario("FungiBeast"));
    r.push(scenario("GremlinNob"));
    r.push(scenario("Lagavulin"));
    r
}

} // verus!
