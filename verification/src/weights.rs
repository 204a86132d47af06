//! What the choices outside a fight are weighed with, and how the weights are tuned.

use crate::score::Fixed;
use vstd::prelude::*;

verus! {

/// What the choices outside a fight are weighed with.
#[derive(Debug)]
pub struct Weights<S> {
    pub score_treasure: S,
    pub score_monster: S,
    pub score_shop: S,
    pub score_event: S,
    pub score_campfire_low: S,
    pub score_campfire_high: S,
    pub score_elite_ok: S,
    pub score_elite_bad: S,
    pub elite_hp: S,
    pub elite_deckpower: S,
    pub rest_hp: S,
    pub reward_take: S,
    pub shop_card: S,
}

impl<S: Copy> Clone for Weights<S> {
    fn clone(&self) -> (r: Weights<S>)
        ensures
            r == *self,
    {
        *self
    }
}

impl<S: Copy> Copy for Weights<S> {

}

/// The tuned weights, in thousandths, in the order of the fields.
pub const WEIGHT_BASE: [i64; 13] = [
    6890,
    -2450,
    8720,
    2420,
    6530,
    4310,
    7280,
    -100000,
    921,
    26200,
    876,
    2000,
    5700,
];

/// How far one unit of the search moves each weight, in thousandths.
pub const WEIGHT_RANGE: [i64; 13] = [
    6000,
    6000,
    6000,
    6000,
    6000,
    6000,
    8000,
    40000,
    300,
    40000,
    400,
    5000,
    5000,
];

/// The least that each weight may be, in thousandths.
pub const WEIGHT_LOW: [i64; 13] = [
    -20000,
    -20000,
    -20000,
    -20000,
    -20000,
    -20000,
    -20000,
    -100000,
    0,
    10000,
    0,
    2000,
    2000,
];

/// The most that each weight may be, in thousandths.
pub const WEIGHT_HIGH: [i64; 13] = [
    30000,
    30000,
    30000,
    30000,
    30000,
    30000,
    30000,
    10000,
    1000,
    150000,
    1000,
    10000,
    12000,
];

/// `n`, or the bound that it lies beyond.
pub open spec fn within(n: int, low: int, high: int) -> int {
    if n < low {
        low
    } else if n > high {
        high
    } else {
        n
    }
}

/// Weight number `i`, in millionths, at `x` thousandths of a unit away from the tuned one.
pub open spec fn weight_at(i: int, x: int) -> int {
    within(
        1000 * WEIGHT_BASE@[i] + WEIGHT_RANGE@[i] * x,
        1000 * WEIGHT_LOW@[i],
        1000 * WEIGHT_HIGH@[i],
    )
}

/// The score of `m` millionths.
pub open spec fn millionths(m: int) -> Fixed {
    Fixed::Of((1_000_000_000_000 * m) as i128)
}

/// The weights that hold the thirteen values in order.
pub open spec fn weights_of<S>(p: Seq<S>) -> Weights<S> {
    Weights {
        score_treasure: p[0],
        score_monster: p[1],
        score_shop: p[2],
        score_event: p[3],
        score_campfire_low: p[4],
        score_campfire_high: p[5],
        score_elite_ok: p[6],
        score_elite_bad: p[7],
        elite_hp: p[8],
        elite_deckpower: p[9],
        rest_hp: p[10],
        reward_take: p[11],
        shop_card: p[12],
    }
}

/// The weights at the point `x` of the search, whose coordinates are in thousandths of a unit.
pub open spec fn weights_at(x: Seq<int>) -> Weights<Fixed> {
    weights_of(Seq::new(13, |i: int| millionths(weight_at(i, x[i]))))
}

impl<S: Copy> Weights<S> {
    /// The weights that hold the first thirteen values in order.
    pub fn from_params(p: &Vec<S>) -> (r: Weights<S>)
        requires
            p@.len() >= 13,
        ensures
            r == weights_of(p@),
    {
        Weights {
            score_treasure: p[0],
            score_monster: p[1],
            score_shop: p[2],
            score_event: p[3],
            score_campfire_low: p[4],
            score_campfire_high: p[5],
            score_elite_ok: p[6],
            score_elite_bad: p[7],
            elite_hp: p[8],
            elite_deckpower: p[9],
            rest_hp: p[10],
            reward_take: p[11],
            shop_card: p[12],
        }
    }
}

impl Weights<Fixed> {
    /// The weights at the point `x` of the search, whose coordinates are in thousandths of a
    /// unit; those behind the thirteenth do not count. Each weight is kept within its bounds,
    /// however far off the point is.
    pub fn from_x(x: &Vec<i64>) -> (r: Weights<Fixed>)
        requires
            x@.len() >= 13,
        ensures
            r == weights_at(Seq::new(13, |i: int| x@[i] as int)),
    {
        let base: [i64; 13] = WEIGHT_BASE;
        let range: [i64; 13] = WEIGHT_RANGE;
        let low: [i64; 13] = WEIGHT_LOW;
        let high: [i64; 13] = WEIGHT_HIGH;
        let mut p: Vec<Fixed> = Vec::new();
        let mut i: usize = 0;
        while i < 13
            invariant
                i <= 13,
                x@.len() >= 13,
                base == WEIGHT_BASE,
                range == WEIGHT_RANGE,
                low == WEIGHT_LOW,
                high == WEIGHT_HIGH,
                p@.len() == i,
                forall|j: int|
                    0 <= j < i ==> #[trigger] p@[j] == millionths(weight_at(j, x@[j] as int)),
            decreases 13 - i,
        {
            let step: i128 = range[i] as i128;
            let at: i128 = x[i] as i128;
            assert(0 <= step <= 40000);
            assert(-370000000000000000000000 <= step * at <= 370000000000000000000000)
                by (nonlinear_arith)
                requires
                    0 <= step <= 40000,
                    i64::MIN <= at <= i64::MAX,
            ;
            let value: i128 = 1000 * (base[i] as i128) + step * at;
            let least: i128 = 1000 * (low[i] as i128);
            let most: i128 = 1000 * (high[i] as i128);
            let kept: i128 = if value < least {
                least
            } else if value > most {
                most
            } else {
                value
            };
            assert(-1000000000000 <= kept <= 1000000000000);
            p.push(Fixed::Of(1_000_000_000_000 * kept));
            i = i + 1;
        }
        assert(p@ =~= Seq::new(
            13,
            |j: int| millionths(weight_at(j, Seq::new(13, |k: int| x@[k] as int)[j])),
        ));
        Weights::from_params(&p)
    }
}

impl Default for Weights<Fixed> {
    /// The tuned weights.
    fn default() -> (r: Weights<Fixed>)
        ensures
            r == weights_at(Seq::new(13, |i: int| 0)),
    {
        let mut x: Vec<i64> = Vec::new();
        while x.len() < 13
            invariant
                x@.len() <= 13,
                forall|j: int| 0 <= j < x@.len() ==> #[trigger] x@[j] == 0,
            decreases 13 - x@.len(),
        {
            x.push(0);
        }
        assert(Seq::new(13, |i: int| x@[i] as int) =~= Seq::new(13, |i: int| 0int));
        Weights::from_x(&x)
    }
}

/// Wherever the search goes, a weight stays within its bounds.
pub proof fn weights_stay_in_bounds(i: int, x: int)
    requires
        0 <= i < 13,
    ensures
        1000 * WEIGHT_LOW@[i] <= weight_at(i, x) <= 1000 * WEIGHT_HIGH@[i],
{
    assert(WEIGHT_LOW@[i] <= WEIGHT_HIGH@[i]);
}

/// At the origin of the search every weight is the tuned one.
pub proof fn the_origin_is_tuned(i: int)
    requires
        0 <= i < 13,
    ensures
        weight_at(i, 0) == 1000 * WEIGHT_BASE@[i],
{
    assert(WEIGHT_LOW@[i] <= WEIGHT_BASE@[i] <= WEIGHT_HIGH@[i]);
}

/// A weight moves with the search in proportion to its range, until it comes to a bound and stays
/// there; it never moves against the search.
pub proof fn a_weight_moves_with_the_search(i: int, x: int, y: int)
    requires
        0 <= i < 13,
        x <= y,
    ensures
        weight_at(i, x) <= weight_at(i, y),
        1000 * WEIGHT_LOW@[i] < weight_at(i, x) && weight_at(i, y) < 1000 * WEIGHT_HIGH@[i]
            && weight_at(i, y) > 1000 * WEIGHT_LOW@[i] && weight_at(i, x) < 1000 * WEIGHT_HIGH@[i]
            ==> weight_at(i, y) - weight_at(i, x) == WEIGHT_RANGE@[i] * (y - x),
{
    let range = WEIGHT_RANGE@[i] as int;
    assert(0 <= range);
    assert(WEIGHT_LOW@[i] <= WEIGHT_HIGH@[i]);
    assert(range * x <= range * y && range * y - range * x == range * (y - x)) by (nonlinear_arith)
        requires
            0 <= range,
            x <= y,
    ;
}

/// Each coordinate moves the weight that stands in its place, and no other.
pub proof fn each_coordinate_has_its_weight(x: Seq<int>, w: Weights<Fixed>)
    requires
        w == weights_at(x),
    ensures
        w.score_treasure == millionths(weight_at(0, x[0])),
        w.score_monster == millionths(weight_at(1, x[1])),
        w.score_shop == millionths(weight_at(2, x[2])),
        w.score_event == millionths(weight_at(3, x[3])),
        w.score_campfire_low == millionths(weight_at(4, x[4])),
        w.score_campfire_high == millionths(weight_at(5, x[5])),
        w.score_elite_ok == millionths(weight_at(6, x[6])),
        w.score_elite_bad == millionths(weight_at(7, x[7])),
        w.elite_hp == millionths(weight_at(8, x[8])),
        w.elite_deckpower == millionths(weight_at(9, x[9])),
        w.rest_hp == millionths(weight_at(10, x[10])),
        w.reward_take == millionths(weight_at(11, x[11])),
        w.shop_card == millionths(weight_at(12, x[12])),
{
}

} // verus!
