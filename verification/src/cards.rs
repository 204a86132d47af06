//! Cards as the players see them, and the fixed judgements made about a card.

use vstd::prelude::*;

verus! {

/// Which card a class is. `Other` tells apart, by a number of the engine's choice, the cards that
/// no judgement below singles out.
#[derive(Clone, Copy, PartialEq, Eq, Debug, Structural)]
pub enum CardName {
    Strike,
    Defend,
    Bash,
    Anger,
    Armaments,
    BodySlam,
    Clash,
    Cleave,
    Clothesline,
    Flex,
    Havoc,
    Headbutt,
    HeavyBlade,
    IronWave,
    PerfectedStrike,
    PommelStrike,
    ShrugItOff,
    SwordBoomerang,
    Thunderclap,
    TrueGrit,
    TwinStrike,
    Warcry,
    WildStrike,
    BattleTrance,
    BloodForBlood,
    Bloodletting,
    BurningPact,
    Carnage,
    Combust,
    DarkEmbrace,
    Disarm,
    Dropkick,
    DualWield,
    Entrench,
    Evolve,
    FeelNoPain,
    FireBreathing,
    FlameBarrier,
    GhostlyArmor,
    Hemokinesis,
    InfernalBlade,
    Inflame,
    Intimidate,
    Metallicize,
    PowerThrough,
    Pummel,
    Rage,
    Rampage,
    RecklessCharge,
    Rupture,
    SearingBlow,
    SecondWind,
    SeeingRed,
    Sentinel,
    SeverSoul,
    Shockwave,
    SpotWeakness,
    Uppercut,
    Whirlwind,
    Barricade,
    Berserk,
    Bludgeon,
    Brutality,
    Corruption,
    DemonForm,
    Feed,
    FiendFire,
    Immolate,
    Impervious,
    Juggernaut,
    LimitBreak,
    Offering,
    Reaper,
    Apotheosis,
    Bite,
    DeepBreath,
    Finesse,
    MindBlast,
    Purity,
    Other(u32),
}

/// The type that is printed on a card.
#[derive(Clone, Copy, PartialEq, Eq, Debug, Structural)]
pub enum CardType {
    Attack,
    Skill,
    Power,
    Status,
    Curse,
}

/// The colour of a card; the colours of the other characters are not told apart.
#[derive(Clone, Copy, PartialEq, Eq, Debug, Structural)]
pub enum CardColor {
    Red,
    Colorless,
    Other,
}

/// What a card costs to play.
#[derive(Clone, Copy, PartialEq, Eq, Debug, Structural)]
pub enum CardCost {
    Cost { base_cost: i32 },
    Zero,
    X,
}

/// A class of cards, with what the engine says of the whole class.
#[derive(Clone, Copy, PartialEq, Eq, Debug, Structural)]
pub struct CardClass {
    pub name: CardName,
    pub ty: CardType,
    pub color: CardColor,
    pub base_cost: CardCost,
}

impl CardClass {
    /// The class is one that an engine can hold: a card that goes by a name of its own is neither
    /// a curse nor a status card.
    pub open spec fn is_valid(&self) -> bool {
        self.name is Other || (self.ty != CardType::Curse && self.ty != CardType::Status)
    }
}

/// A card in the hand.
#[derive(Debug)]
pub struct HandCard {
    pub class: CardClass,
    pub upgrade_count: i32,
    /// The card is played at one monster.
    pub has_target: bool,
    /// What the class's base damage comes to against each monster of the fight, in the monsters'
    /// order, after everything that raises or lowers it.
    pub damage: Vec<i32>,
}

/// A card in the master deck.
#[derive(Clone, Copy, PartialEq, Eq, Debug, Structural)]
pub struct DeckCard {
    pub class: CardClass,
    pub can_remove: bool,
    pub can_upgrade: bool,
}

/// The energy that a card of this class is expected to take.
pub open spec fn cost_of(class: CardClass) -> i32 {
    match class.base_cost {
        CardCost::Cost { base_cost } => base_cost,
        CardCost::Zero => 0,
        CardCost::X => 3,
    }
}

/// The energy that a card of this class is expected to take; an X card counts as three.
pub fn card_cost(class: CardClass) -> (r: i32)
    ensures
        r == cost_of(class),
{
    match class.base_cost {
        CardCost::Cost { base_cost } => base_cost,
        CardCost::Zero => 0,
        CardCost::X => 3,
    }
}

/// The base damage of an attack, before anything raises or lowers it.
pub open spec fn attack_damage(name: CardName) -> i32 {
    match name {
        CardName::Strike => 6,
        CardName::Bash => 8,
        CardName::Clothesline => 12,
        CardName::Cleave => 8,
        CardName::Thunderclap => 4,
        CardName::Anger => 6,
        CardName::PommelStrike => 9,
        CardName::TwinStrike => 10,
        CardName::IronWave => 5,
        CardName::Headbutt => 9,
        CardName::Clash => 14,
        CardName::Uppercut => 13,
        CardName::Carnage => 20,
        CardName::Hemokinesis => 15,
        _ => 6,
    }
}

/// The base damage of a card of this class; none for a card that is no attack.
pub fn card_base_damage(class: CardClass) -> (r: Option<i32>)
    ensures
        r == (if class.ty == CardType::Attack {
            Some(attack_damage(class.name))
        } else {
            None
        }),
{
    if class.ty != CardType::Attack {
        return None;
    }
    let damage: i32 = match class.name {
        CardName::Strike => 6,
        CardName::Bash => 8,
        CardName::Clothesline => 12,
        CardName::Cleave => 8,
        CardName::Thunderclap => 4,
        CardName::Anger => 6,
        CardName::PommelStrike => 9,
        CardName::TwinStrike => 10,
        CardName::IronWave => 5,
        CardName::Headbutt => 9,
        CardName::Clash => 14,
        CardName::Uppercut => 13,
        CardName::Carnage => 20,
        CardName::Hemokinesis => 15,
        _ => 6,
    };
    Some(damage)
}

/// A card that is played for its block.
pub open spec fn blocks(class: CardClass) -> bool {
    ||| class.name == CardName::Defend
    ||| class.name == CardName::ShrugItOff
    ||| class.name == CardName::IronWave
    ||| class.name == CardName::TrueGrit
}

/// Whether a card is played for its block.
pub fn is_block_card(class: CardClass) -> (r: bool)
    ensures
        r == blocks(class),
{
    matches!(
        class.name,
        CardName::Defend | CardName::ShrugItOff | CardName::IronWave | CardName::TrueGrit
    )
}

/// How much a deck wants a card: scaling powers and efficient damage or block rank high, the
/// basic cards low, curses and status cards below zero.
pub open spec fn value_of(class: CardClass) -> int {
    match class.name {
        CardName::DemonForm => 10,
        CardName::Corruption | CardName::Barricade => 9,
        CardName::Inflame | CardName::Metallicize | CardName::FeelNoPain
        | CardName::DarkEmbrace | CardName::Juggernaut => 8,
        CardName::Combust | CardName::FireBreathing | CardName::Berserk | CardName::Rupture
        | CardName::Brutality | CardName::Evolve => 7,
        CardName::Bludgeon | CardName::Reaper | CardName::Immolate => 8,
        CardName::Uppercut | CardName::Carnage | CardName::Hemokinesis
        | CardName::Whirlwind | CardName::Feed | CardName::FiendFire => 7,
        CardName::Bash | CardName::SeverSoul | CardName::Dropkick | CardName::Pummel
        | CardName::BloodForBlood => 6,
        CardName::Cleave | CardName::Thunderclap | CardName::Clothesline
        | CardName::TwinStrike | CardName::PommelStrike | CardName::Rampage
        | CardName::SearingBlow | CardName::BodySlam | CardName::HeavyBlade
        | CardName::RecklessCharge | CardName::SwordBoomerang => 5,
        CardName::Anger | CardName::IronWave | CardName::Headbutt | CardName::Clash
        | CardName::PerfectedStrike | CardName::Bite => 4,
        CardName::WildStrike | CardName::MindBlast => 3,
        CardName::Impervious => 7,
        CardName::Offering | CardName::LimitBreak | CardName::Disarm | CardName::Shockwave => 6,
        CardName::ShrugItOff | CardName::Armaments | CardName::Entrench
        | CardName::GhostlyArmor | CardName::FlameBarrier | CardName::SecondWind
        | CardName::SeeingRed | CardName::Bloodletting | CardName::BattleTrance
        | CardName::BurningPact | CardName::PowerThrough | CardName::SpotWeakness => 5,
        CardName::Intimidate | CardName::Warcry | CardName::Sentinel | CardName::DualWield
        | CardName::Rage | CardName::InfernalBlade | CardName::Finesse | CardName::Flex => 4,
        CardName::TrueGrit | CardName::Purity | CardName::Havoc | CardName::DeepBreath => 3,
        CardName::Apotheosis => 9,
        CardName::Strike | CardName::Defend => 1,
        _ => match class.ty {
            CardType::Power => 7,
            CardType::Attack => 5,
            CardType::Skill => 4,
            CardType::Status | CardType::Curse => -100,
        },
    }
}

/// How much a deck wants a card of this class.
pub fn card_value(class: CardClass) -> (r: i32)
    ensures
        r == value_of(class),
        -100 <= r <= 10,
{
    match class.name {
        // Scaling powers and build-arounds, attacks, then skills, each from the best down.
        CardName::DemonForm => 10,
        CardName::Corruption | CardName::Barricade => 9,
        CardName::Inflame | CardName::Metallicize | CardName::FeelNoPain
        | CardName::DarkEmbrace | CardName::Juggernaut => 8,
        CardName::Combust | CardName::FireBreathing | CardName::Berserk | CardName::Rupture
        | CardName::Brutality | CardName::Evolve => 7,
        CardName::Bludgeon | CardName::Reaper | CardName::Immolate => 8,
        CardName::Uppercut | CardName::Carnage | CardName::Hemokinesis
        | CardName::Whirlwind | CardName::Feed | CardName::FiendFire => 7,
        CardName::Bash | CardName::SeverSoul | CardName::Dropkick | CardName::Pummel
        | CardName::BloodForBlood => 6,
        CardName::Cleave | CardName::Thunderclap | CardName::Clothesline
        | CardName::TwinStrike | CardName::PommelStrike | CardName::Rampage
        | CardName::SearingBlow | CardName::BodySlam | CardName::HeavyBlade
        | CardName::RecklessCharge | CardName::SwordBoomerang => 5,
        CardName::Anger | CardName::IronWave | CardName::Headbutt | CardName::Clash
        | CardName::PerfectedStrike | CardName::Bite => 4,
        CardName::WildStrike | CardName::MindBlast => 3,
        CardName::Impervious => 7,
        CardName::Offering | CardName::LimitBreak | CardName::Disarm | CardName::Shockwave => 6,
        CardName::ShrugItOff | CardName::Armaments | CardName::Entrench
        | CardName::GhostlyArmor | CardName::FlameBarrier | CardName::SecondWind
        | CardName::SeeingRed | CardName::Bloodletting | CardName::BattleTrance
        | CardName::BurningPact | CardName::PowerThrough | CardName::SpotWeakness => 5,
        CardName::Intimidate | CardName::Warcry | CardName::Sentinel | CardName::DualWield
        | CardName::Rage | CardName::InfernalBlade | CardName::Finesse | CardName::Flex => 4,
        CardName::TrueGrit | CardName::Purity | CardName::Havoc | CardName::DeepBreath => 3,
        CardName::Apotheosis => 9,
        CardName::Strike | CardName::Defend => 1,
        _ => match class.ty {
            CardType::Power => 7,
            CardType::Attack => 5,
            CardType::Skill => 4,
            CardType::Status | CardType::Curse => -100,
        },
    }
}

/// How much a deck wants to be rid of a card: curses before all, then the basic cards.
pub open spec fn removal_of(class: CardClass) -> int {
    let curse: int = if class.ty == CardType::Curse {
        1000
    } else {
        0
    };
    let basic: int = if class.name == CardName::Strike {
        500
    } else if class.name == CardName::Defend {
        400
    } else {
        0
    };
    curse + basic - value_of(class)
}

/// How much a deck wants to be rid of a card of this class.
pub fn removal_value(class: CardClass) -> (r: i32)
    ensures
        r == removal_of(class),
        -10 <= r <= 1600,
{
    let curse: i32 = if class.ty == CardType::Curse {
        1000
    } else {
        0
    };
    let basic: i32 = match class.name {
        CardName::Strike => 500,
        CardName::Defend => 400,
        _ => 0,
    };
    curse + basic - card_value(class)
}

/// A deck would rather lose a curse than any card that is none, and, curses aside, a Strike or a
/// Defend than any other card.
pub proof fn curses_go_first_then_basics(a: CardClass, b: CardClass)
    ensures
        a.ty == CardType::Curse && b.ty != CardType::Curse ==> removal_of(a) > removal_of(b),
        (a.name == CardName::Strike || a.name == CardName::Defend) && b.ty != CardType::Curse
            && b.name != CardName::Strike && b.name != CardName::Defend ==> removal_of(a)
            > removal_of(b),
        a.name == CardName::Strike && b.name == CardName::Defend && b.ty != CardType::Curse
            ==> removal_of(a) > removal_of(b),
{
}

/// A curse or a status card is unwanted in a deck, and every other card is wanted; a card that goes
/// by a name of its own is wanted whatever its type.
pub proof fn only_curses_and_statuses_are_unwanted(class: CardClass)
    ensures
        class.is_valid() ==> (value_of(class) < 0 <==> class.ty == CardType::Curse || class.ty
            == CardType::Status),
        value_of(class) < 0 <==> class.name is Other && (class.ty == CardType::Curse || class.ty
            == CardType::Status),
        value_of(class) != 0,
{
}

/// The card that every deck wants most.
pub open spec fn crowning_cards() -> Seq<CardName> {
    seq![
        CardName::DemonForm,
    ]
}

/// The cards that a deck is built around.
pub open spec fn founding_cards() -> Seq<CardName> {
    seq![
        CardName::Corruption,
        CardName::Barricade,
        CardName::Apotheosis,
    ]
}

/// The powers that grow best, and the heaviest attacks.
pub open spec fn leading_cards() -> Seq<CardName> {
    seq![
        CardName::Inflame,
        CardName::Metallicize,
        CardName::FeelNoPain,
        CardName::DarkEmbrace,
        CardName::Juggernaut,
        CardName::Bludgeon,
        CardName::Reaper,
        CardName::Immolate,
    ]
}

/// Lesser powers, strong attacks and the best block.
pub open spec fn strong_cards() -> Seq<CardName> {
    seq![
        CardName::Combust,
        CardName::FireBreathing,
        CardName::Berserk,
        CardName::Rupture,
        CardName::Brutality,
        CardName::Evolve,
        CardName::Uppercut,
        CardName::Carnage,
        CardName::Hemokinesis,
        CardName::Whirlwind,
        CardName::Feed,
        CardName::FiendFire,
        CardName::Impervious,
    ]
}

/// Good attacks, and skills that set up a win.
pub open spec fn good_cards() -> Seq<CardName> {
    seq![
        CardName::Bash,
        CardName::SeverSoul,
        CardName::Dropkick,
        CardName::Pummel,
        CardName::BloodForBlood,
        CardName::Offering,
        CardName::LimitBreak,
        CardName::Disarm,
        CardName::Shockwave,
    ]
}

/// Sound attacks and block.
pub open spec fn sound_cards() -> Seq<CardName> {
    seq![
        CardName::Cleave,
        CardName::Thunderclap,
        CardName::Clothesline,
        CardName::TwinStrike,
        CardName::PommelStrike,
        CardName::Rampage,
        CardName::SearingBlow,
        CardName::BodySlam,
        CardName::HeavyBlade,
        CardName::RecklessCharge,
        CardName::SwordBoomerang,
        CardName::ShrugItOff,
        CardName::Armaments,
        CardName::Entrench,
        CardName::GhostlyArmor,
        CardName::FlameBarrier,
        CardName::SecondWind,
        CardName::SeeingRed,
        CardName::Bloodletting,
        CardName::BattleTrance,
        CardName::BurningPact,
        CardName::PowerThrough,
        CardName::SpotWeakness,
    ]
}

/// Cards of some use.
pub open spec fn useful_cards() -> Seq<CardName> {
    seq![
        CardName::Anger,
        CardName::IronWave,
        CardName::Headbutt,
        CardName::Clash,
        CardName::PerfectedStrike,
        CardName::Bite,
        CardName::Intimidate,
        CardName::Warcry,
        CardName::Sentinel,
        CardName::DualWield,
        CardName::Rage,
        CardName::InfernalBlade,
        CardName::Finesse,
        CardName::Flex,
    ]
}

/// Cards of little use.
pub open spec fn minor_cards() -> Seq<CardName> {
    seq![
        CardName::WildStrike,
        CardName::MindBlast,
        CardName::TrueGrit,
        CardName::Purity,
        CardName::Havoc,
        CardName::DeepBreath,
    ]
}

/// The basic cards.
pub open spec fn basic_cards() -> Seq<CardName> {
    seq![
        CardName::Strike,
        CardName::Defend,
    ]
}

/// Every card that goes by a name of its own stands in one rank, and all of a rank are worth the
/// same, whatever their type, colour and cost: each rank more than the ones below it, from ten down
/// to the basic cards' one.
pub proof fn cards_are_worth_their_rank(class: CardClass, r: i32)
    requires
        call_ensures(card_value, (class,), r),
    ensures
        r == value_of(class),
        crowning_cards().contains(class.name) ==> r == 10,
        founding_cards().contains(class.name) ==> r == 9,
        leading_cards().contains(class.name) ==> r == 8,
        strong_cards().contains(class.name) ==> r == 7,
        good_cards().contains(class.name) ==> r == 6,
        sound_cards().contains(class.name) ==> r == 5,
        useful_cards().contains(class.name) ==> r == 4,
        minor_cards().contains(class.name) ==> r == 3,
        basic_cards().contains(class.name) ==> r == 1,
        class.name is Other ==> r == (match class.ty {
            CardType::Power => 7,
            CardType::Attack => 5,
            CardType::Skill => 4,
            CardType::Status => -100,
            CardType::Curse => -100,
        }),
        class.name is Other || crowning_cards().contains(
            class.name,
        ) || founding_cards().contains(
            class.name,
        ) || leading_cards().contains(
            class.name,
        ) || strong_cards().contains(
            class.name,
        ) || good_cards().contains(
            class.name,
        ) || sound_cards().contains(
            class.name,
        ) || useful_cards().contains(
            class.name,
        ) || minor_cards().contains(
            class.name,
        ) || basic_cards().contains(
            class.name,
        ),
{
    lemma_ranks(class.name);
}

/// Which rank a name stands in follows from what the card is worth.
proof fn lemma_ranks(name: CardName)
    ensures
        crowning_cards().contains(name) <==> name !is Other && value_of(any_card(name)) == 10,
        founding_cards().contains(name) <==> name !is Other && value_of(any_card(name)) == 9,
        leading_cards().contains(name) <==> name !is Other && value_of(any_card(name)) == 8,
        strong_cards().contains(name) <==> name !is Other && value_of(any_card(name)) == 7,
        good_cards().contains(name) <==> name !is Other && value_of(any_card(name)) == 6,
        sound_cards().contains(name) <==> name !is Other && value_of(any_card(name)) == 5,
        useful_cards().contains(name) <==> name !is Other && value_of(any_card(name)) == 4,
        minor_cards().contains(name) <==> name !is Other && value_of(any_card(name)) == 3,
        basic_cards().contains(name) <==> name !is Other && value_of(any_card(name)) == 1,
{
    let s10 = crowning_cards();
    assert(s10[0] == CardName::DemonForm);
    let s9 = founding_cards();
    assert(s9[0] == CardName::Corruption);
    assert(s9[1] == CardName::Barricade);
    assert(s9[2] == CardName::Apotheosis);
    let s8 = leading_cards();
    assert(s8[0] == CardName::Inflame);
    assert(s8[1] == CardName::Metallicize);
    assert(s8[2] == CardName::FeelNoPain);
    assert(s8[3] == CardName::DarkEmbrace);
    assert(s8[4] == CardName::Juggernaut);
    assert(s8[5] == CardName::Bludgeon);
    assert(s8[6] == CardName::Reaper);
    assert(s8[7] == CardName::Immolate);
    let s7 = strong_cards();
    assert(s7[0] == CardName::Combust);
    assert(s7[1] == CardName::FireBreathing);
    assert(s7[2] == CardName::Berserk);
    assert(s7[3] == CardName::Rupture);
    assert(s7[4] == CardName::Brutality);
    assert(s7[5] == CardName::Evolve);
    assert(s7[6] == CardName::Uppercut);
    assert(s7[7] == CardName::Carnage);
    assert(s7[8] == CardName::Hemokinesis);
    assert(s7[9] == CardName::Whirlwind);
    assert(s7[10] == CardName::Feed);
    assert(s7[11] == CardName::FiendFire);
    assert(s7[12] == CardName::Impervious);
    let s6 = good_cards();
    assert(s6[0] == CardName::Bash);
    assert(s6[1] == CardName::SeverSoul);
    assert(s6[2] == CardName::Dropkick);
    assert(s6[3] == CardName::Pummel);
    assert(s6[4] == CardName::BloodForBlood);
    assert(s6[5] == CardName::Offering);
    assert(s6[6] == CardName::LimitBreak);
    assert(s6[7] == CardName::Disarm);
    assert(s6[8] == CardName::Shockwave);
    let s5 = sound_cards();
    assert(s5[0] == CardName::Cleave);
    assert(s5[1] == CardName::Thunderclap);
    assert(s5[2] == CardName::Clothesline);
    assert(s5[3] == CardName::TwinStrike);
    assert(s5[4] == CardName::PommelStrike);
    assert(s5[5] == CardName::Rampage);
    assert(s5[6] == CardName::SearingBlow);
    assert(s5[7] == CardName::BodySlam);
    assert(s5[8] == CardName::HeavyBlade);
    assert(s5[9] == CardName::RecklessCharge);
    assert(s5[10] == CardName::SwordBoomerang);
    assert(s5[11] == CardName::ShrugItOff);
    assert(s5[12] == CardName::Armaments);
    assert(s5[13] == CardName::Entrench);
    assert(s5[14] == CardName::GhostlyArmor);
    assert(s5[15] == CardName::FlameBarrier);
    assert(s5[16] == CardName::SecondWind);
    assert(s5[17] == CardName::SeeingRed);
    assert(s5[18] == CardName::Bloodletting);
    assert(s5[19] == CardName::BattleTrance);
    assert(s5[20] == CardName::BurningPact);
    assert(s5[21] == CardName::PowerThrough);
    assert(s5[22] == CardName::SpotWeakness);
    let s4 = useful_cards();
    assert(s4[0] == CardName::Anger);
    assert(s4[1] == CardName::IronWave);
    assert(s4[2] == CardName::Headbutt);
    assert(s4[3] == CardName::Clash);
    assert(s4[4] == CardName::PerfectedStrike);
    assert(s4[5] == CardName::Bite);
    assert(s4[6] == CardName::Intimidate);
    assert(s4[7] == CardName::Warcry);
    assert(s4[8] == CardName::Sentinel);
    assert(s4[9] == CardName::DualWield);
    assert(s4[10] == CardName::Rage);
    assert(s4[11] == CardName::InfernalBlade);
    assert(s4[12] == CardName::Finesse);
    assert(s4[13] == CardName::Flex);
    let s3 = minor_cards();
    assert(s3[0] == CardName::WildStrike);
    assert(s3[1] == CardName::MindBlast);
    assert(s3[2] == CardName::TrueGrit);
    assert(s3[3] == CardName::Purity);
    assert(s3[4] == CardName::Havoc);
    assert(s3[5] == CardName::DeepBreath);
    let s1 = basic_cards();
    assert(s1[0] == CardName::Strike);
    assert(s1[1] == CardName::Defend);
}

/// Some card that goes by the name.
spec fn any_card(name: CardName) -> CardClass {
    CardClass { name, ty: CardType::Skill, color: CardColor::Red, base_cost: CardCost::Zero }
}

/// Only attacks have damage printed on them; those of a name have the damage of that name, whatever
/// their colour and cost.
pub proof fn attacks_do_what_is_printed(class: CardClass, r: Option<i32>)
    requires
        call_ensures(card_base_damage, (class,), r),
    ensures
        r is Some <==> class.ty == CardType::Attack,
        r matches Some(damage) ==> {
            &&& damage == 4 <==> class.name == CardName::Thunderclap
            &&& damage == 5 <==> class.name == CardName::IronWave
            &&& damage == 8 <==> class.name == CardName::Bash || class.name == CardName::Cleave
            &&& damage == 9 <==> class.name == CardName::PommelStrike || class.name
                == CardName::Headbutt
            &&& damage == 10 <==> class.name == CardName::TwinStrike
            &&& damage == 12 <==> class.name == CardName::Clothesline
            &&& damage == 13 <==> class.name == CardName::Uppercut
            &&& damage == 14 <==> class.name == CardName::Clash
            &&& damage == 15 <==> class.name == CardName::Hemokinesis
            &&& damage == 20 <==> class.name == CardName::Carnage
            &&& damage == 4 || damage == 5 || damage == 6 || 8 <= damage <= 10 || 12 <= damage <= 15
                || damage == 20
        },
{
}

/// A card costs what is printed on it; one of no cost costs nothing, and one that takes all of the
/// energy counts as a whole turn's.
pub proof fn cards_cost_what_is_printed(class: CardClass, r: i32)
    requires
        call_ensures(card_cost, (class,), r),
    ensures
        class.base_cost matches CardCost::Cost { base_cost } ==> r == base_cost,
        class.base_cost == CardCost::Zero ==> r == 0,
        class.base_cost == CardCost::X ==> r == 3,
{
}

/// Of two cards of which neither is a curse or a basic card, the deck would rather lose the one
/// that it wants less; a curse counts a thousand, a Strike five hundred and a Defend four hundred
/// on top.
pub proof fn the_less_wanted_goes_first(a: CardClass, b: CardClass, r: i32, q: i32)
    requires
        call_ensures(removal_value, (a,), r),
        call_ensures(removal_value, (b,), q),
    ensures
        a.ty != CardType::Curse && b.ty != CardType::Curse && !basic_cards().contains(a.name)
            && !basic_cards().contains(b.name) ==> (r > q <==> value_of(a) < value_of(b)),
        r + value_of(a) == (if a.ty == CardType::Curse {
            1000int
        } else {
            0
        }) + (if a.name == CardName::Strike {
            500int
        } else if a.name == CardName::Defend {
            400
        } else {
            0
        }),
{
    assert(basic_cards()[0] == CardName::Strike);
    assert(basic_cards()[1] == CardName::Defend);
}

} // verus!
