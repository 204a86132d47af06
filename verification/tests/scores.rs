use spire::full_run::{campfire, rewards, FullRunAgent};
use spire::game::{Creature, Game};
use spire::greedy::GreedyAgent;
use spire::map::{Map2d, MapNode, RoomType};
use spire::rng::Rand;
use spire::score::{Fixed, Score, UNIT};
use spire::step::{OfferedStep, StepKind};
use spire::weights::{Weights, WEIGHT_BASE};

#[derive(Clone, Copy, Debug, PartialEq)]
struct Real(f64);

impl Score for Real {
    fn bottom() -> Real {
        Real(f64::NEG_INFINITY)
    }
    fn nil() -> Real {
        Real(0.0)
    }
    fn whole(n: i32) -> Real {
        Real(n as f64)
    }
    fn part(n: i32, d: i32) -> Real {
        Real(n as f64 / d as f64)
    }
    fn sum(a: Real, b: Real) -> Real {
        Real(a.0 + b.0)
    }
    fn above(a: Real, b: Real) -> bool {
        a.0 > b.0
    }
    fn reaches(a: Real, b: Real) -> bool {
        a.0 >= b.0
    }
    fn finite(a: Real) -> bool {
        a.0.is_finite()
    }
    fn upper(a: Real, b: Real) -> Real {
        Real(a.0.max(b.0))
    }
    fn neg_infinity() -> Real {
        Real(f64::NEG_INFINITY)
    }
    fn zero() -> Real {
        Real(0.0)
    }
    fn from_int(n: i32) -> Real {
        Real(n as f64)
    }
    fn ratio(n: i32, d: i32) -> Real {
        Real(n as f64 / d as f64)
    }
    fn plus(self, other: Real) -> Real {
        Real(self.0 + other.0)
    }
    fn exceeds(self, other: Real) -> bool {
        self.0 > other.0
    }
    fn at_least(self, other: Real) -> bool {
        self.0 >= other.0
    }
    fn is_finite(self) -> bool {
        self.0.is_finite()
    }
    fn larger(self, other: Real) -> Real {
        Real(self.0.max(other.0))
    }
}

fn real_weights() -> Weights<Real> {
    let p: Vec<Real> = WEIGHT_BASE.iter().map(|n| Real(*n as f64 / 1000.0)).collect();
    Weights::from_params(&p)
}

fn step(debug: &str, description: &str) -> OfferedStep {
    OfferedStep {
        kind: StepKind::Other,
        debug: debug.to_owned(),
        description: description.to_owned(),
    }
}

#[test]
fn floats_serve_as_scores() {
    assert_eq!(Real::ratio(1, 4).plus(Real::from_int(2)), Real(2.25));
    let w = real_weights();
    assert_eq!(w.score_treasure, Real(6.89));
    assert_eq!(w.score_elite_bad, Real(-100.0));
    assert_eq!(w.elite_hp, Real(0.921));
    assert_eq!(w.shop_card, Real(5.70));
}

#[test]
fn floats_and_fixed_point_choose_alike() {
    let rooms = [
        RoomType::Treasure,
        RoomType::Monster,
        RoomType::Shop,
        RoomType::Event,
        RoomType::Campfire,
        RoomType::Elite,
        RoomType::Boss,
    ];
    let mut rng = Rand::seed_from_u64(31);
    let real = FullRunAgent::with_weights(GreedyAgent, real_weights());
    let fixed: FullRunAgent<GreedyAgent, Fixed> = FullRunAgent::new(GreedyAgent);
    for _ in 0..200 {
        let mut game = Game::new(Creature::healthy(80), Rand::seed_from_u64(1));
        game.player.cur_hp = 1 + rng.below(80) as i32;
        let mut nodes = vec![];
        for _ in 0..4 {
            let mut column = vec![];
            for _ in 0..6 {
                let ty = if rng.below(5) == 0 { None } else { Some(rooms[rng.below(7)]) };
                let edges = (0..rng.below(3)).map(|_| rng.below(4)).collect();
                column.push(MapNode { ty, edges });
            }
            nodes.push(column);
        }
        game.map = Map2d { height: 6, nodes };
        for x in 0..4 {
            game.steps.push(step("AscendStep", &format!("ascend to ({x}, 0)")));
        }
        assert_eq!(real.choose_outside(&game), fixed.choose_outside(&game));
        game.steps = vec![step("CampfireRestStep", ""), step("CampfireUpgradeStep", "")];
        assert_eq!(campfire(&game, &real.w), campfire(&game, &fixed.w));
        game.steps = vec![step("CardRewardStep", ""), step("RewardExitStep", "")];
        assert_eq!(rewards(&game, &real.w), rewards(&game, &fixed.w));
    }
}

#[test]
fn fixed_point_adds_up_and_stops_at_the_end() {
    assert_eq!(Fixed::from_int(-3), Fixed::Of(-3 * UNIT));
    assert_eq!(Fixed::ratio(2, 3), Fixed::Of(666_666_666_666_666_666));
    assert_eq!(Fixed::ratio(-2, 3), Fixed::Of(-666_666_666_666_666_666));
    assert_eq!(Fixed::Of(5).plus(Fixed::Of(-7)), Fixed::Of(-2));
    assert_eq!(Fixed::Of(i128::MAX).plus(Fixed::Of(1)), Fixed::Of(i128::MAX));
    assert_eq!(Fixed::Of(i128::MIN).plus(Fixed::Of(-1)), Fixed::Of(i128::MIN));
    assert_eq!(Fixed::NegInfinity.plus(Fixed::Of(1)), Fixed::NegInfinity);
    assert!(Fixed::Of(i128::MIN).exceeds(Fixed::NegInfinity));
    assert!(!Fixed::NegInfinity.exceeds(Fixed::NegInfinity));
    assert!(Fixed::Of(4).at_least(Fixed::Of(4)));
    assert!(!Fixed::Of(3).at_least(Fixed::Of(4)));
    assert!(!Fixed::NegInfinity.is_finite());
    assert_eq!(Fixed::Of(3).larger(Fixed::Of(4)), Fixed::Of(4));
    assert_eq!(Fixed::zero(), Fixed::Of(0));
    assert_eq!(Fixed::neg_infinity(), Fixed::NegInfinity);
}
