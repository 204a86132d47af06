//! Finding the way over the map: the whole way to the boss is weighed, not the next room alone.

use crate::cards::{card_value, value_of, DeckCard};
use crate::game::Game;
use crate::greedy::fits;
use crate::map::{Map2d, MapNode, RoomType};
use crate::score::{at_most, fixed_point_is_orderly, orderly, Fixed, Score};
use crate::step::{all_named, has_name, indices_of, is_named, positions_named_are_exact, OfferedStep};
use crate::sums::{one_more_adds_to_the_total, total_of};
use crate::text::{
    all_digits, decimal, digits_write_their_value, is_digit, only_the_tail_is_dropped,
    the_first_place_is_found, white_space_around_does_not_show,
};
use crate::text::{
    chars_of, end_without, find_char, index_from, number, parse_usize, range_of, trim, trim_end_char,
    trimmed,
};
use crate::weights::{weights_at, Weights};
use vstd::prelude::*;

verus! {

/// The place that a text such as "ascend to (3, 7)" names: two numbers, parted by a comma, behind
/// the first opening bracket.
pub open spec fn destination(s: Seq<char>) -> Option<(usize, usize)> {
    let open = index_from(s, '(', 0);
    let inside = s.subrange(open + 1, index_from(s, '(', open + 1));
    let pair = inside.subrange(0, end_without(inside, ')', inside.len() as int));
    let comma = index_from(pair, ',', 0);
    let left = pair.subrange(0, comma);
    let right = pair.subrange(comma + 1, index_from(pair, ',', comma + 1));
    if open >= s.len() || comma >= pair.len() {
        None
    } else {
        match (number(trimmed(left)), number(trimmed(right))) {
            (Some(x), Some(y)) => Some((x, y)),
            _ => None,
        }
    }
}

/// The place that a step of the map leads to, read off its description.
pub fn ascend_xy(step: &OfferedStep) -> (r: Option<(usize, usize)>)
    ensures
        r == destination(step.description@),
{
    let text: Vec<char> = chars_of(step.description.as_str());
    let open: usize = find_char(&text, '(', 0);
    if open == text.len() {
        return None;
    }
    let close: usize = find_char(&text, '(', open + 1);
    let inside: Vec<char> = range_of(&text, open + 1, close);
    let end: usize = trim_end_char(&inside, ')');
    let pair: Vec<char> = range_of(&inside, 0, end);
    let comma: usize = find_char(&pair, ',', 0);
    if comma == pair.len() {
        return None;
    }
    let left: Vec<char> = range_of(&pair, 0, comma);
    let next: usize = find_char(&pair, ',', comma + 1);
    let right: Vec<char> = range_of(&pair, comma + 1, next);
    let x: usize = match parse_usize(&trim(&left)) {
        Some(x) => x,
        None => {
            return None;
        },
    };
    let y: usize = match parse_usize(&trim(&right)) {
        Some(y) => y,
        None => {
            return None;
        },
    };
    Some((x, y))
}

/// The room at the place that the step leads to, where the map has one there.
pub open spec fn room_ahead(map: Map2d, step: OfferedStep) -> Option<RoomType> {
    match destination(step.description@) {
        Some((x, y)) => if x < map.nodes@.len() && y < map.nodes@[x as int]@.len() {
            map.nodes@[x as int]@[y as int].ty
        } else {
            None
        },
        None => None,
    }
}

/// The room at the place that the step leads to, where the map has one there.
pub fn ascend_room(game: &Game, step: &OfferedStep) -> (r: Option<RoomType>)
    ensures
        r == room_ahead(game.map, *step),
{
    match ascend_xy(step) {
        Some((x, y)) => if x < game.map.nodes.len() && y < game.map.nodes[x].len() {
            game.map.nodes[x][y].ty
        } else {
            None
        },
        None => None,
    }
}

/// The fraction of the player's hit points that is left.
pub open spec fn hp_left<S: Score>(game: Game) -> S {
    S::part(
        game.player.cur_hp,
        if game.player.max_hp > 1 {
            game.player.max_hp
        } else {
            1
        },
    )
}

/// The fraction of the player's hit points that is left.
pub fn hp_frac<S: Score>(game: &Game) -> (r: S)
    ensures
        r == hp_left::<S>(*game),
{
    let max: i32 = if game.player.max_hp > 1 {
        game.player.max_hp
    } else {
        1
    };
    S::ratio(game.player.cur_hp, max)
}

/// What the first `n` cards of the deck are worth together.
pub open spec fn deck_power(deck: Seq<DeckCard>, n: int) -> int
    decreases n,
{
    if n <= 0 {
        0
    } else {
        deck_power(deck, n - 1) + value_of(deck[n - 1].class)
    }
}

/// Adding up the deck stays within `i32`.
pub open spec fn deck_fits(deck: Seq<DeckCard>) -> bool {
    forall|n: int| 0 <= n <= deck.len() ==> fits(#[trigger] deck_power(deck, n))
}

fn power_of_deck(deck: &Vec<DeckCard>) -> (r: i32)
    requires
        deck_fits(deck@),
    ensures
        r == deck_power(deck@, deck@.len() as int),
{
    let mut total: i32 = 0;
    let mut i: usize = 0;
    while i < deck.len()
        invariant
            deck_fits(deck@),
            i <= deck@.len(),
            total == deck_power(deck@, i as int),
        decreases deck@.len() - i,
    {
        assert(fits(deck_power(deck@, i + 1)));
        total = total + card_value(deck[i].class);
        i = i + 1;
    }
    total
}

/// What rooms are judged by: the weights, the player's health, and whether the deck is up to an
/// elite.
#[derive(Debug)]
pub struct Outlook<S> {
    pub w: Weights<S>,
    pub hp: S,
    pub elite_ok: bool,
}

impl<S: Copy> Clone for Outlook<S> {
    fn clone(&self) -> (r: Outlook<S>)
        ensures
            r == *self,
    {
        *self
    }
}

impl<S: Copy> Copy for Outlook<S> {

}

/// The outlook of a game: elites are faced with enough health and a strong enough deck only.
pub open spec fn outlook<S: Score>(game: Game, w: Weights<S>) -> Outlook<S> {
    let hp = hp_left::<S>(game);
    let power = deck_power(game.master_deck@, game.master_deck@.len() as int);
    Outlook {
        w,
        hp,
        elite_ok: S::above(hp, w.elite_hp) && S::reaches(S::whole(power as i32), w.elite_deckpower),
    }
}

/// What a room is worth. A campfire is worth one thing to a player below three fifths of its
/// health and another to one above; the rooms of the boss cannot be avoided and count nothing.
pub open spec fn worth<S: Score>(o: Outlook<S>, room: Option<RoomType>) -> S {
    match room {
        Some(RoomType::Treasure) => o.w.score_treasure,
        Some(RoomType::Monster) => o.w.score_monster,
        Some(RoomType::Shop) => o.w.score_shop,
        Some(RoomType::Event) => o.w.score_event,
        Some(RoomType::Campfire) => if S::above(S::part(3, 5), o.hp) {
            o.w.score_campfire_low
        } else {
            o.w.score_campfire_high
        },
        Some(RoomType::Elite) => if o.elite_ok {
            o.w.score_elite_ok
        } else {
            o.w.score_elite_bad
        },
        _ => S::nil(),
    }
}

/// What a room is worth.
pub fn room_score<S: Score>(o: &Outlook<S>, room: Option<RoomType>) -> (r: S)
    ensures
        r == worth(*o, room),
{
    match room {
        Some(RoomType::Treasure) => o.w.score_treasure,
        Some(RoomType::Monster) => o.w.score_monster,
        Some(RoomType::Shop) => o.w.score_shop,
        Some(RoomType::Event) => o.w.score_event,
        Some(RoomType::Campfire) => if S::ratio(3, 5).exceeds(o.hp) {
            o.w.score_campfire_low
        } else {
            o.w.score_campfire_high
        },
        Some(RoomType::Elite) => if o.elite_ok {
            o.w.score_elite_ok
        } else {
            o.w.score_elite_bad
        },
        _ => S::zero(),
    }
}

/// The best worth of a whole way from the place `(x, y)` on: the room there, and the best way on
/// from the places that it leads to, where one of them has a room. A place without a room is on
/// no way.
pub open spec fn best_from<S: Score>(map: Map2d, o: Outlook<S>, x: int, y: int) -> S
    decreases map.height - y, 1int, 0int,
{
    if y < 0 || y >= map.height || map.nodes@[x]@[y].ty is None {
        S::bottom()
    } else {
        let ahead = best_ahead(map, o, x, y, map.nodes@[x]@[y].edges@.len() as int);
        S::sum(
            worth(o, map.nodes@[x]@[y].ty),
            if S::finite(ahead) {
                ahead
            } else {
                S::nil()
            },
        )
    }
}

/// The best way on over the first `k` edges of the place `(x, y)`.
pub open spec fn best_ahead<S: Score>(map: Map2d, o: Outlook<S>, x: int, y: int, k: int) -> S
    decreases map.height - y, 0int, k,
{
    if k <= 0 || y < 0 || y + 1 >= map.height {
        S::bottom()
    } else {
        let earlier = best_ahead(map, o, x, y, k - 1);
        let next = best_from(map, o, map.nodes@[x]@[y].edges@[k - 1] as int, y + 1);
        if S::finite(next) {
            S::upper(earlier, next)
        } else {
            earlier
        }
    }
}

/// The best ways from every place of the map, from the topmost floor down.
fn best_table<S: Score>(map: &Map2d, o: &Outlook<S>) -> (rows: Vec<Vec<S>>)
    requires
        map.wf(),
    ensures
        rows@.len() == map.height,
        forall|k: int|
            0 <= k < rows@.len() ==> (#[trigger] rows@[k])@.len() == map.nodes@.len(),
        forall|k: int, x: int|
            0 <= k < rows@.len() && 0 <= x < map.nodes@.len() ==> #[trigger] rows@[k]@[x]
                == best_from(*map, *o, x, map.height - 1 - k),
{
    let width: usize = map.nodes.len();
    let mut rows: Vec<Vec<S>> = Vec::new();
    while rows.len() < map.height
        invariant
            map.wf(),
            width == map.nodes@.len(),
            rows@.len() <= map.height,
            forall|k: int| 0 <= k < rows@.len() ==> (#[trigger] rows@[k])@.len() == width,
            forall|k: int, x: int|
                0 <= k < rows@.len() && 0 <= x < width ==> #[trigger] rows@[k]@[x] == best_from(
                    *map,
                    *o,
                    x,
                    map.height - 1 - k,
                ),
        decreases map.height - rows@.len(),
    {
        let done: usize = rows.len();
        let y: usize = map.height - 1 - done;
        let mut row: Vec<S> = Vec::new();
        let mut x: usize = 0;
        while x < width
            invariant
                map.wf(),
                width == map.nodes@.len(),
                done == rows@.len(),
                done < map.height,
                y == map.height - 1 - done,
                x <= width,
                row@.len() == x,
                forall|k: int| 0 <= k < rows@.len() ==> (#[trigger] rows@[k])@.len() == width,
                forall|k: int, c: int|
                    0 <= k < rows@.len() && 0 <= c < width ==> #[trigger] rows@[k]@[c] == best_from(
                        *map,
                        *o,
                        c,
                        map.height - 1 - k,
                    ),
                forall|c: int|
                    0 <= c < x ==> #[trigger] row@[c] == best_from(*map, *o, c, y as int),
            decreases width - x,
        {
            assert(map.nodes@[x as int]@.len() == map.height);
            let node: &MapNode = &map.nodes[x][y];
            if node.ty.is_none() {
                row.push(S::neg_infinity());
            } else {
                let mut ahead: S = S::neg_infinity();
                if done > 0 {
                    let mut k: usize = 0;
                    while k < node.edges.len()
                        invariant
                            map.wf(),
                            width == map.nodes@.len(),
                            0 < done == rows@.len(),
                            done < map.height,
                            y == map.height - 1 - done,
                            x < width,
                            *node == map.nodes@[x as int]@[y as int],
                            node.ty is Some,
                            k <= node.edges@.len(),
                            rows@[done - 1]@.len() == width,
                            forall|c: int|
                                0 <= c < width ==> #[trigger] rows@[done - 1]@[c] == best_from(
                                    *map,
                                    *o,
                                    c,
                                    y + 1,
                                ),
                            ahead == best_ahead(*map, *o, x as int, y as int, k as int),
                        decreases node.edges@.len() - k,
                    {
                        assert(map.nodes@[x as int]@[y as int].edges@[k as int]
                            < map.nodes@.len());
                        let next: S = rows[done - 1][node.edges[k]];
                        if next.is_finite() {
                            ahead = ahead.larger(next);
                        }
                        k = k + 1;
                    }
                } else {
                    assert(best_ahead(*map, *o, x as int, y as int, node.edges@.len() as int)
                        == S::bottom());
                }
                let onward: S = if ahead.is_finite() {
                    ahead
                } else {
                    S::zero()
                };
                row.push(room_score(o, node.ty).plus(onward));
            }
            x = x + 1;
        }
        rows.push(row);
    }
    rows
}

/// Every step that goes on over the map and whose description can be read leads to a place of
/// the map.
pub open spec fn ways_on_map(game: Game) -> bool {
    forall|i: int|
        #![trigger game.steps@[i]]
        0 <= i < game.steps@.len() && is_named(game.steps@[i], "AscendStep"@) ==> (destination(game.steps@[i].description@) matches Some(p)
            ==> p.0 < game.map.nodes@.len() && p.1 < game.map.height)
}

/// Whether the way over the map can be chosen.
pub fn can_navigate(game: &Game) -> (r: bool)
    ensures
        r == (game.map.wf() && ways_on_map(*game) && deck_fits(game.master_deck@)),
{
    if !game.map.is_whole() {
        return false;
    }
    let mut i: usize = 0;
    while i < game.steps.len()
        invariant
            i <= game.steps@.len(),
            forall|j: int|
                #![trigger game.steps@[j]]
                0 <= j < i && is_named(game.steps@[j], "AscendStep"@) ==> (destination(
                    game.steps@[j].description@,
                ) matches Some(p) ==> p.0 < game.map.nodes@.len() && p.1 < game.map.height),
        decreases game.steps@.len() - i,
    {
        if has_name(&game.steps[i], "AscendStep") {
            if let Some((x, y)) = ascend_xy(&game.steps[i]) {
                if x >= game.map.nodes.len() || y >= game.map.height {
                    assert(is_named(game.steps@[i as int], "AscendStep"@));
                    return false;
                }
            }
        }
        i = i + 1;
    }
    let mut total: i64 = 0;
    let mut n: usize = 0;
    while n < game.master_deck.len()
        invariant
            n <= game.master_deck@.len(),
            total == deck_power(game.master_deck@, n as int),
            forall|k: int| 0 <= k <= n ==> fits(#[trigger] deck_power(game.master_deck@, k)),
        decreases game.master_deck@.len() - n,
    {
        assert(fits(deck_power(game.master_deck@, n as int)));
        total = total + card_value(game.master_deck[n].class) as i64;
        n = n + 1;
        assert(total == deck_power(game.master_deck@, n as int));
        if total < i32::MIN as i64 || total > i32::MAX as i64 {
            return false;
        }
    }
    true
}

/// The step among the first `n` of `ways` with the best way behind it, the first of equals, and
/// how good that way is.
pub open spec fn best_way<S: Score>(
    game: Game,
    o: Outlook<S>,
    ways: Seq<usize>,
    n: int,
) -> (usize, S)
    decreases n,
{
    if n <= 0 {
        (0, S::bottom())
    } else {
        let earlier = best_way(game, o, ways, n - 1);
        match destination(game.steps@[ways[n - 1] as int].description@) {
            Some((x, y)) => {
                let score = best_from(game.map, o, x as int, y as int);
                if S::above(score, earlier.1) {
                    (ways[n - 1], score)
                } else {
                    earlier
                }
            },
            None => earlier,
        }
    }
}

/// The steps that go on over the map.
pub open spec fn ways(game: Game) -> Seq<usize> {
    all_named(game.steps@, "AscendStep"@)
}

/// The step that goes on over the map by the best way.
pub open spec fn route_pick<S: Score>(game: Game, w: Weights<S>) -> usize {
    best_way(game, outlook(game, w), ways(game), ways(game).len() as int).0
}

/// Picks the step that goes on over the map by the best way.
pub fn map_nav<S: Score>(game: &Game, w: &Weights<S>) -> (i: usize)
    requires
        game.map.wf(),
        ways_on_map(*game),
        deck_fits(game.master_deck@),
    ensures
        i == route_pick(*game, *w),
        game.steps@.len() > 0 ==> i < game.steps@.len(),
{
    let hp: S = hp_frac(game);
    let power: i32 = power_of_deck(&game.master_deck);
    let elite_ok: bool = hp.exceeds(w.elite_hp) && S::from_int(power).at_least(w.elite_deckpower);
    let o: Outlook<S> = Outlook { w: *w, hp, elite_ok };
    let rows: Vec<Vec<S>> = best_table(&game.map, &o);
    let height: usize = game.map.height;
    let idxs: Vec<usize> = indices_of(&game.steps, "AscendStep");
    let mut chosen: usize = 0;
    let mut chosen_score: S = S::neg_infinity();
    let mut k: usize = 0;
    while k < idxs.len()
        invariant
            ways_on_map(*game),
            o == outlook(*game, *w),
            height == game.map.height,
            rows@.len() == height,
            forall|j: int|
                0 <= j < rows@.len() ==> (#[trigger] rows@[j])@.len() == game.map.nodes@.len(),
            forall|j: int, x: int|
                0 <= j < rows@.len() && 0 <= x < game.map.nodes@.len() ==> #[trigger] rows@[j]@[x]
                    == best_from(game.map, o, x, height - 1 - j),
            idxs@ == ways(*game),
            forall|j: int| 0 <= j < idxs@.len() ==> #[trigger] idxs@[j] < game.steps@.len(),
            k <= idxs@.len(),
            (chosen, chosen_score) == best_way(*game, o, idxs@, k as int),
            game.steps@.len() > 0 ==> chosen < game.steps@.len(),
        decreases idxs@.len() - k,
    {
        let i: usize = idxs[k];
        proof {
            assert(game.steps@.len() == game.steps.len());
            positions_named_are_exact(game.steps@, "AscendStep"@, game.steps@.len() as int);
            assert(is_named(game.steps@[i as int], "AscendStep"@));
        }
        match ascend_xy(&game.steps[i]) {
            Some((x, y)) => {
                assert(destination(game.steps@[i as int].description@) == Some((x, y)));
                let score: S = rows[height - 1 - y][x];
                assert(score == best_from(game.map, o, x as int, y as int)) by {
                    assert(rows@[height - 1 - y]@[x as int] == best_from(
                        game.map,
                        o,
                        x as int,
                        height - 1 - (height - 1 - y),
                    ));
                }
                if score.exceeds(chosen_score) {
                    chosen_score = score;
                    chosen = i;
                }
            },
            None => {},
        }
        k = k + 1;
    }
    chosen
}

/// The place `(x, y)` lies on the map and has a room.
pub open spec fn has_room(map: Map2d, x: int, y: int) -> bool {
    &&& 0 <= x < map.nodes@.len()
    &&& 0 <= y < map.height
    &&& map.nodes@[x]@[y].ty is Some
}

/// The place `(x, y)` leads to no room.
pub open spec fn is_end(map: Map2d, x: int, y: int) -> bool {
    forall|k: int|
        0 <= k < map.nodes@[x]@[y].edges@.len() ==> !has_room(
            map,
            #[trigger] map.nodes@[x]@[y].edges@[k] as int,
            y + 1,
        )
}

/// The columns `p` are a whole way over the map, from floor `y` up: each place leads to the next,
/// each has a room, and the last leads to none.
pub open spec fn is_way(map: Map2d, p: Seq<int>, y: int) -> bool
    decreases p.len(),
{
    &&& p.len() > 0
    &&& has_room(map, p[0], y)
    &&& if p.len() == 1 {
        is_end(map, p[0], y)
    } else {
        &&& exists|k: int|
            0 <= k < map.nodes@[p[0]]@[y].edges@.len() && #[trigger] map.nodes@[p[0]]@[y].edges@[k]
                == p[1]
        &&& is_way(map, p.skip(1), y + 1)
    }
}

/// What the rooms of a way are worth together.
pub open spec fn way_worth<S: Score>(map: Map2d, o: Outlook<S>, p: Seq<int>, y: int) -> S
    decreases p.len(),
{
    if p.len() == 0 {
        S::nil()
    } else {
        S::sum(worth(o, map.nodes@[p[0]]@[y].ty), way_worth(map, o, p.skip(1), y + 1))
    }
}

/// Every room has a finite worth.
pub open spec fn worths_finite<S: Score>(o: Outlook<S>) -> bool {
    forall|room: Option<RoomType>| S::finite(#[trigger] worth(o, room))
}

proof fn lemma_best_finite<S: Score>(map: Map2d, o: Outlook<S>, x: int, y: int)
    requires
        map.wf(),
        orderly::<S>(),
        worths_finite(o),
        0 <= x < map.nodes@.len(),
    ensures
        has_room(map, x, y) ==> S::finite(best_from(map, o, x, y)),
        !has_room(map, x, y) ==> best_from(map, o, x, y) == S::bottom(),
{
}

proof fn lemma_ahead<S: Score>(map: Map2d, o: Outlook<S>, x: int, y: int, k: int)
    requires
        map.wf(),
        orderly::<S>(),
        worths_finite(o),
        has_room(map, x, y),
        0 <= k <= map.nodes@[x]@[y].edges@.len(),
    ensures
        S::finite(best_ahead(map, o, x, y, k)) || best_ahead(map, o, x, y, k) == S::bottom(),
        S::finite(best_ahead(map, o, x, y, k)) ==> exists|j: int|
            0 <= j < k && has_room(map, #[trigger] map.nodes@[x]@[y].edges@[j] as int, y + 1)
                && best_ahead(map, o, x, y, k) == best_from(
                map,
                o,
                map.nodes@[x]@[y].edges@[j] as int,
                y + 1,
            ),
        forall|j: int|
            0 <= j < k && has_room(map, #[trigger] map.nodes@[x]@[y].edges@[j] as int, y + 1) ==> {
                &&& S::finite(best_ahead(map, o, x, y, k))
                &&& at_most(
                    best_from(map, o, map.nodes@[x]@[y].edges@[j] as int, y + 1),
                    best_ahead(map, o, x, y, k),
                )
            },
    decreases k,
{
    if k > 0 && y + 1 < map.height {
        lemma_ahead(map, o, x, y, k - 1);
        let edges = map.nodes@[x]@[y].edges@;
        assert(map.nodes@[x]@[y].edges@[k - 1] < map.nodes@.len());
        let next = best_from(map, o, edges[k - 1] as int, y + 1);
        let earlier = best_ahead(map, o, x, y, k - 1);
        let now = best_ahead(map, o, x, y, k);
        lemma_best_finite(map, o, edges[k - 1] as int, y + 1);
        if S::finite(next) {
            assert(now == S::upper(earlier, next));
            if S::finite(earlier) {
                assert(at_most(earlier, now));
                assert(at_most(next, now));
            } else {
                assert(now == next);
                assert(at_most(next, next));
            }
            assert(S::finite(now));
            assert forall|j: int|
                0 <= j < k && has_room(map, #[trigger] edges[j] as int, y + 1) implies at_most(
                best_from(map, o, edges[j] as int, y + 1),
                now,
            ) by {
                if j < k - 1 {
                    let way = best_from(map, o, edges[j] as int, y + 1);
                    assert(map.nodes@[x]@[y].edges@[j] < map.nodes@.len());
                    lemma_best_finite(map, o, edges[j] as int, y + 1);
                    assert(at_most(way, earlier));
                }
            }
            if now == next {
                assert(has_room(map, map.nodes@[x]@[y].edges@[k - 1] as int, y + 1));
            }
        }
    }
}

/// No whole way is worth more than what the best way from its first place is said to be worth.
pub proof fn no_way_beats_the_best<S: Score>(map: Map2d, o: Outlook<S>, p: Seq<int>, y: int)
    requires
        map.wf(),
        orderly::<S>(),
        worths_finite(o),
        is_way(map, p, y),
    ensures
        S::finite(way_worth(map, o, p, y)),
        at_most(way_worth(map, o, p, y), best_from(map, o, p[0], y)),
    decreases p.len(),
{
    let x = p[0];
    let edges = map.nodes@[x]@[y].edges@;
    let ahead = best_ahead(map, o, x, y, edges.len() as int);
    lemma_ahead(map, o, x, y, edges.len() as int);
    lemma_best_finite(map, o, x, y);
    if p.len() == 1 {
        assert(p.skip(1).len() == 0);
        if S::finite(ahead) {
            let j = choose|j: int|
                0 <= j < edges.len() && has_room(
                    map,
                    #[trigger] map.nodes@[x]@[y].edges@[j] as int,
                    y + 1,
                );
            assert(!has_room(map, map.nodes@[x]@[y].edges@[j] as int, y + 1));
        }
        assert(way_worth(map, o, p.skip(1), y + 1) == S::nil());
        assert(way_worth(map, o, p, y) == best_from(map, o, x, y));
        assert(at_most(best_from(map, o, x, y), best_from(map, o, x, y)));
    } else {
        let rest = p.skip(1);
        no_way_beats_the_best(map, o, rest, y + 1);
        let k = choose|k: int|
            0 <= k < edges.len() && #[trigger] map.nodes@[x]@[y].edges@[k] == p[1];
        assert(rest[0] == p[1]);
        assert(has_room(map, map.nodes@[x]@[y].edges@[k] as int, y + 1));
        let next = best_from(map, o, p[1], y + 1);
        lemma_best_finite(map, o, p[1], y + 1);
        assert(at_most(next, ahead));
        assert(at_most(way_worth(map, o, rest, y + 1), ahead));
        let room = worth(o, map.nodes@[x]@[y].ty);
        assert(S::finite(room));
        assert(S::finite(S::sum(room, way_worth(map, o, rest, y + 1))));
        assert(at_most(S::sum(room, way_worth(map, o, rest, y + 1)), S::sum(room, ahead)));
    }
}

/// From every place with a room, some whole way is worth what the best way is said to be worth.
pub proof fn the_best_is_a_way<S: Score>(map: Map2d, o: Outlook<S>, x: int, y: int) -> (p: Seq<int>)
    requires
        map.wf(),
        orderly::<S>(),
        worths_finite(o),
        has_room(map, x, y),
    ensures
        is_way(map, p, y),
        p[0] == x,
        way_worth(map, o, p, y) == best_from(map, o, x, y),
    decreases map.height - y,
{
    let edges = map.nodes@[x]@[y].edges@;
    let ahead = best_ahead(map, o, x, y, edges.len() as int);
    lemma_ahead(map, o, x, y, edges.len() as int);
    if S::finite(ahead) {
        let j = choose|j: int|
            0 <= j < edges.len() && has_room(
                map,
                #[trigger] map.nodes@[x]@[y].edges@[j] as int,
                y + 1,
            ) && ahead == best_from(map, o, map.nodes@[x]@[y].edges@[j] as int, y + 1);
        let rest = the_best_is_a_way(map, o, edges[j] as int, y + 1);
        let p = seq![x] + rest;
        assert(p.skip(1) =~= rest);
        assert(map.nodes@[p[0]]@[y].edges@[j] == p[1]);
        assert(way_worth(map, o, p, y) == S::sum(
            worth(o, map.nodes@[x]@[y].ty),
            way_worth(map, o, p.skip(1), y + 1),
        ));
        p
    } else {
        let p = seq![x];
        assert(p.skip(1) =~= Seq::<int>::empty());
        assert(is_end(map, x, y));
        assert(way_worth(map, o, p.skip(1), y + 1) == S::nil());
        p
    }
}

/// Every way on offer before way number `k` is worse than `score`.
pub open spec fn none_before_is_as_good<S: Score>(
    game: Game,
    o: Outlook<S>,
    ways: Seq<usize>,
    k: int,
    score: S,
) -> bool {
    forall|j: int|
        0 <= j < k ==> (destination(
            game.steps@[#[trigger] ways[j] as int].description@,
        ) matches Some(d) ==> S::above(score, best_from(game.map, o, d.0 as int, d.1 as int)))
}

proof fn lemma_best_way<S: Score>(game: Game, o: Outlook<S>, ways: Seq<usize>, n: int)
    requires
        game.map.wf(),
        orderly::<S>(),
        worths_finite(o),
        0 <= n <= ways.len(),
        forall|k: int|
            0 <= k < ways.len() ==> (destination(
                game.steps@[#[trigger] ways[k] as int].description@,
            ) matches Some(d) ==> d.0 < game.map.nodes@.len()),
    ensures
        S::finite(best_way(game, o, ways, n).1) || best_way(game, o, ways, n).1 == S::bottom(),
        forall|k: int|
            0 <= k < n ==> (destination(
                game.steps@[#[trigger] ways[k] as int].description@,
            ) matches Some(d) ==> at_most(
                best_from(game.map, o, d.0 as int, d.1 as int),
                best_way(game, o, ways, n).1,
            )),
        S::finite(best_way(game, o, ways, n).1) ==> (destination(
            game.steps@[best_way(game, o, ways, n).0 as int].description@,
        ) matches Some(d) && best_from(game.map, o, d.0 as int, d.1 as int) == best_way(
            game,
            o,
            ways,
            n,
        ).1),
        S::finite(best_way(game, o, ways, n).1) ==> exists|k: int|
            0 <= k < n && #[trigger] ways[k] == best_way(game, o, ways, n).0 && none_before_is_as_good(
                game,
                o,
                ways,
                k,
                best_way(game, o, ways, n).1,
            ),
    decreases n,
{
    if n > 0 {
        lemma_best_way(game, o, ways, n - 1);
        let earlier = best_way(game, o, ways, n - 1);
        let now = best_way(game, o, ways, n);
        if let Some((x, y)) = destination(game.steps@[ways[n - 1] as int].description@) {
            lemma_best_finite(game.map, o, x as int, y as int);
            let score = best_from(game.map, o, x as int, y as int);
            assert forall|k: int| 0 <= k < n implies (destination(
                game.steps@[#[trigger] ways[k] as int].description@,
            ) matches Some(d) ==> at_most(
                best_from(game.map, o, d.0 as int, d.1 as int),
                now.1,
            )) by {
                if let Some(d) = destination(game.steps@[ways[k] as int].description@) {
                    lemma_best_finite(game.map, o, d.0 as int, d.1 as int);
                    let other = best_from(game.map, o, d.0 as int, d.1 as int);
                    if S::above(score, earlier.1) {
                        assert(score != S::bottom());
                        if k < n - 1 {
                            assert(at_most(other, earlier.1));
                            if S::finite(earlier.1) && S::finite(other) {
                                assert(at_most(earlier.1, score));
                                assert(at_most(other, score));
                            } else if S::finite(other) {
                                assert(S::above(other, S::bottom()));
                            }
                        } else {
                            assert(at_most(score, score));
                        }
                    }
                }
            }
            if S::above(score, earlier.1) {
                assert(ways[n - 1] == now.0);
                assert forall|j: int| 0 <= j < n - 1 implies (destination(
                    game.steps@[#[trigger] ways[j] as int].description@,
                ) matches Some(d) ==> S::above(
                    score,
                    best_from(game.map, o, d.0 as int, d.1 as int),
                )) by {
                    if let Some(d) = destination(game.steps@[ways[j] as int].description@) {
                        lemma_best_finite(game.map, o, d.0 as int, d.1 as int);
                        let other = best_from(game.map, o, d.0 as int, d.1 as int);
                        assert(at_most(other, earlier.1));
                        if S::finite(other) {
                            if !S::finite(earlier.1) {
                                assert(S::above(other, S::bottom()));
                            }
                            if !S::above(score, other) {
                                assert(at_most(score, other));
                                assert(at_most(score, earlier.1));
                            }
                        }
                    }
                }
                assert(none_before_is_as_good(game, o, ways, n - 1, score));
            }
        }
    }
}

/// The way over the map is chosen with the whole way in view: where a step leads to a room, the
/// chosen step leads to one too, and no whole way that begins with any step on offer is worth
/// more than the best whole way behind the chosen one. Of equally good steps it is the first.
pub proof fn route_pick_is_best<S: Score>(game: Game, w: Weights<S>, i: int, p: Seq<int>)
    requires
        game.map.wf(),
        ways_on_map(game),
        orderly::<S>(),
        worths_finite(outlook(game, w)),
        0 <= i < game.steps@.len(),
        is_named(game.steps@[i], "AscendStep"@),
        destination(game.steps@[i].description@) matches Some(d) && p.len() > 0 && p[0] == d.0
            && is_way(game.map, p, d.1 as int),
    ensures
        ({
            let o = outlook(game, w);
            let y = destination(game.steps@[i].description@).unwrap().1;
            let best = destination(game.steps@[route_pick(game, w) as int].description@);
            &&& best is Some
            &&& has_room(game.map, best.unwrap().0 as int, best.unwrap().1 as int)
            &&& at_most(
                way_worth(game.map, o, p, y as int),
                best_from(game.map, o, best.unwrap().0 as int, best.unwrap().1 as int),
            )
            &&& i < route_pick(game, w) ==> S::above(
                best_from(game.map, o, best.unwrap().0 as int, best.unwrap().1 as int),
                best_from(game.map, o, p[0], y as int),
            )
        }),
{
    let o = outlook(game, w);
    let (x, y) = destination(game.steps@[i].description@).unwrap();
    assert(game.steps@.len() == game.steps.len());
    positions_named_are_exact(game.steps@, "AscendStep"@, game.steps@.len() as int);
    let all = ways(game);
    assert(all.contains(i as usize));
    let k = choose|k: int| 0 <= k < all.len() && all[k] == i as usize;
    assert forall|j: int| 0 <= j < all.len() implies (destination(
        game.steps@[#[trigger] all[j] as int].description@,
    ) matches Some(d) ==> d.0 < game.map.nodes@.len()) by {
        assert(is_named(game.steps@[all[j] as int], "AscendStep"@));
    }
    lemma_best_way(game, o, all, all.len() as int);
    let score = best_way(game, o, all, all.len() as int).1;
    no_way_beats_the_best(game.map, o, p, y as int);
    lemma_best_finite(game.map, o, x as int, y as int);
    let mine = best_from(game.map, o, x as int, y as int);
    assert(destination(game.steps@[all[k] as int].description@) == Some((x, y)));
    assert(at_most(mine, score));
    if !S::finite(score) {
        assert(S::above(mine, S::bottom()));
    }
    let best = destination(game.steps@[route_pick(game, w) as int].description@).unwrap();
    assert(at_most(way_worth(game.map, o, p, y as int), score));
    let chosen = choose|k: int|
        0 <= k < all.len() && #[trigger] all[k] == route_pick(game, w) && none_before_is_as_good(
            game,
            o,
            all,
            k,
            score,
        );
    if i < route_pick(game, w) {
        assert(k < chosen);
        assert(S::above(score, mine));
    }
    assert(is_named(game.steps@[all[chosen] as int], "AscendStep"@));
    lemma_best_finite(game.map, o, best.0 as int, best.1 as int);
    if !has_room(game.map, best.0 as int, best.1 as int) {
        assert(best_from(game.map, o, best.0 as int, best.1 as int) == S::bottom());
    }
}

/// With the tuned weights, and wherever else the search for better ones goes, the way over the map
/// is chosen with the whole way in view.
pub proof fn tuned_route_pick_is_best(game: Game, x: Seq<int>, i: int, p: Seq<int>)
    requires
        game.map.wf(),
        ways_on_map(game),
        0 <= i < game.steps@.len(),
        is_named(game.steps@[i], "AscendStep"@),
        destination(game.steps@[i].description@) matches Some(d) && p.len() > 0 && p[0] == d.0
            && is_way(game.map, p, d.1 as int),
    ensures
        ({
            let w = weights_at(x);
            let o = outlook(game, w);
            let y = destination(game.steps@[i].description@).unwrap().1;
            let best = destination(game.steps@[route_pick(game, w) as int].description@);
            &&& best is Some
            &&& has_room(game.map, best.unwrap().0 as int, best.unwrap().1 as int)
            &&& at_most(
                way_worth(game.map, o, p, y as int),
                best_from(game.map, o, best.unwrap().0 as int, best.unwrap().1 as int),
            )
            &&& i < route_pick(game, w) ==> Fixed::above(
                best_from(game.map, o, best.unwrap().0 as int, best.unwrap().1 as int),
                best_from(game.map, o, p[0], y as int),
            )
        }),
{
    fixed_point_is_orderly();
    assert(worths_finite(outlook(game, weights_at(x))));
    route_pick_is_best(game, weights_at(x), i, p);
}

/// What a card of the deck is worth.
pub open spec fn deck_value() -> spec_fn(DeckCard) -> int {
    |c: DeckCard| value_of(c.class)
}

proof fn lemma_deck_power(deck: Seq<DeckCard>, n: int)
    requires
        0 <= n <= deck.len(),
    ensures
        deck_power(deck, n) == total_of(deck.take(n), deck_value()),
    decreases n,
{
    if n == 0 {
        assert(deck.take(0) =~= Seq::empty());
        one_more_adds_to_the_total(deck, deck_value(), arbitrary());
    } else {
        lemma_deck_power(deck, n - 1);
        one_more_adds_to_the_total(deck.take(n - 1), deck_value(), deck[n - 1]);
        assert(deck.take(n - 1).push(deck[n - 1]) =~= deck.take(n));
    }
}

/// The player is fit for an elite: the share of health left is above the one bar, and what all the
/// cards of the deck are worth together reaches the other.
pub open spec fn fit_for_an_elite<S: Score>(game: Game, w: Weights<S>) -> bool {
    let most = if game.player.max_hp >= 1 {
        game.player.max_hp
    } else {
        1
    };
    &&& S::above(S::part(game.player.cur_hp, most), w.elite_hp)
    &&& S::reaches(S::whole(total_of(game.master_deck@, deck_value()) as i32), w.elite_deckpower)
}

/// An elite is worth the good weight only to a player who is fit for it, by health and by deck,
/// and the bad weight to every other.
pub proof fn an_elite_takes_health_and_a_deck<S: Score>(game: Game, w: Weights<S>)
    ensures
        worth(outlook(game, w), Some(RoomType::Elite)) == (if fit_for_an_elite(game, w) {
            w.score_elite_ok
        } else {
            w.score_elite_bad
        }),
{
    lemma_deck_power(game.master_deck@, game.master_deck@.len() as int);
    assert(game.master_deck@.take(game.master_deck@.len() as int) =~= game.master_deck@);
}

/// Every other room is worth its own weight to every player, but for a campfire, which is worth
/// one weight to a player with less than three fifths of the health and another to the rest; the
/// boss's rooms are worth nothing.
pub proof fn other_rooms_are_worth_their_weights<S: Score>(game: Game, w: Weights<S>)
    ensures
        ({
            let o = outlook(game, w);
            let most = if game.player.max_hp >= 1 {
                game.player.max_hp
            } else {
                1
            };
            let low = S::above(S::part(3, 5), S::part(game.player.cur_hp, most));
            &&& worth(o, Some(RoomType::Treasure)) == w.score_treasure
            &&& worth(o, Some(RoomType::Monster)) == w.score_monster
            &&& worth(o, Some(RoomType::Shop)) == w.score_shop
            &&& worth(o, Some(RoomType::Event)) == w.score_event
            &&& low ==> worth(o, Some(RoomType::Campfire)) == w.score_campfire_low
            &&& !low ==> worth(o, Some(RoomType::Campfire)) == w.score_campfire_high
            &&& worth(o, Some(RoomType::Boss)) == S::nil()
            &&& worth(o, Some(RoomType::BossTreasure)) == S::nil()
        }),
{
}

/// Of two steps that lead to rooms without a way on, the one that is picked leads to the room that
/// is worth as much as the other or more, the first of equals.
pub proof fn between_dead_ends_the_room_decides<S: Score>(
    game: Game,
    w: Weights<S>,
    a: (usize, usize),
    b: (usize, usize),
    i: usize,
)
    requires
        game.map.wf(),
        ways_on_map(game),
        deck_fits(game.master_deck@),
        orderly::<S>(),
        worths_finite(outlook(game, w)),
        forall|x: S| S::finite(x) ==> #[trigger] S::sum(x, S::nil()) == x,
        game.steps@.len() == 2,
        is_named(game.steps@[0], "AscendStep"@),
        is_named(game.steps@[1], "AscendStep"@),
        destination(game.steps@[0].description@) == Some(a),
        destination(game.steps@[1].description@) == Some(b),
        has_room(game.map, a.0 as int, a.1 as int) && is_end(game.map, a.0 as int, a.1 as int),
        has_room(game.map, b.0 as int, b.1 as int) && is_end(game.map, b.0 as int, b.1 as int),
        call_ensures(map_nav::<S>, (&game, &w), i),
    ensures
        ({
            let first = worth(outlook(game, w), game.map.nodes@[a.0 as int]@[a.1 as int].ty);
            let second = worth(outlook(game, w), game.map.nodes@[b.0 as int]@[b.1 as int].ty);
            &&& i == 1 <==> S::above(second, first)
            &&& i == 0 <==> !S::above(second, first)
        }),
{
    let o = outlook(game, w);
    lemma_dead_end(game.map, o, a.0 as int, a.1 as int);
    lemma_dead_end(game.map, o, b.0 as int, b.1 as int);
    let pa = seq![a.0 as int];
    let pb = seq![b.0 as int];
    route_pick_is_best(game, w, 0, pa);
    route_pick_is_best(game, w, 1, pb);
    assert(pa.skip(1) =~= Seq::<int>::empty());
    assert(pb.skip(1) =~= Seq::<int>::empty());
    no_way_beats_the_best(game.map, o, pa, a.1 as int);
    no_way_beats_the_best(game.map, o, pb, b.1 as int);
    assert(i < 2);
    let first = worth(o, game.map.nodes@[a.0 as int]@[a.1 as int].ty);
    let second = worth(o, game.map.nodes@[b.0 as int]@[b.1 as int].ty);
    assert(S::finite(first) && S::finite(second));
    if i == 1 {
        assert(S::above(second, first));
    } else {
        assert(at_most(second, first));
    }
}

proof fn lemma_dead_end<S: Score>(map: Map2d, o: Outlook<S>, x: int, y: int)
    requires
        map.wf(),
        orderly::<S>(),
        worths_finite(o),
        forall|v: S| S::finite(v) ==> #[trigger] S::sum(v, S::nil()) == v,
        has_room(map, x, y),
        is_end(map, x, y),
    ensures
        best_from(map, o, x, y) == worth(o, map.nodes@[x]@[y].ty),
        way_worth(map, o, seq![x], y) == worth(o, map.nodes@[x]@[y].ty),
        is_way(map, seq![x], y),
{
    let edges = map.nodes@[x]@[y].edges@;
    lemma_ahead(map, o, x, y, edges.len() as int);
    let room = worth(o, map.nodes@[x]@[y].ty);
    assert(S::finite(room));
    assert(S::sum(room, S::nil()) == room);
    if S::finite(best_ahead(map, o, x, y, edges.len() as int)) {
        let j = choose|j: int|
            0 <= j < edges.len() && has_room(
                map,
                #[trigger] map.nodes@[x]@[y].edges@[j] as int,
                y + 1,
            );
        assert(!has_room(map, map.nodes@[x]@[y].edges@[j] as int, y + 1));
    }
    let p = seq![x];
    assert(p.skip(1) =~= Seq::<int>::empty());
    assert(way_worth(map, o, p.skip(1), y + 1) == S::nil());
}

/// A place is read off as it is written: behind the first opening bracket, two numbers in decimal
/// digits with a comma and a blank between them and a closing bracket behind.
pub proof fn a_place_is_read_as_written(before: Seq<char>, a: Seq<char>, b: Seq<char>)
    requires
        forall|i: int| 0 <= i < before.len() ==> #[trigger] before[i] != '(',
        a.len() > 0,
        all_digits(a),
        decimal(a) <= usize::MAX,
        b.len() > 0,
        all_digits(b),
        decimal(b) <= usize::MAX,
    ensures
        destination(before + seq!['('] + a + seq![',', ' '] + b + seq![')']) == Some(
            (decimal(a) as usize, decimal(b) as usize),
        ),
{
    let s = before + seq!['('] + a + seq![',', ' '] + b + seq![')'];
    let open = index_from(s, '(', 0);
    the_first_place_is_found(s, '(', 0);
    let bl = before.len() as int;
    let al = a.len() as int;
    let dl = b.len() as int;
    assert(s[bl] == '(');
    assert forall|i: int| 0 <= i < bl implies #[trigger] s[i] != '(' by {
        assert(s[i] == before[i]);
    }
    assert(open == bl);
    the_first_place_is_found(s, '(', open + 1);
    let next = index_from(s, '(', open + 1);
    assert forall|i: int| bl < i < s.len() implies #[trigger] s[i] != '(' by {
        if i < bl + 1 + al {
            assert(s[i] == a[i - bl - 1]);
            assert(is_digit(a[i - bl - 1]));
        } else if bl + 3 + al <= i < bl + 3 + al + dl {
            assert(s[i] == b[i - bl - 3 - al]);
            assert(is_digit(b[i - bl - 3 - al]));
        }
    }
    assert(next == s.len());
    let inside = s.subrange(open + 1, next);
    assert(inside =~= a + seq![',', ' '] + b + seq![')']);
    let end = end_without(inside, ')', inside.len() as int);
    only_the_tail_is_dropped(inside, ')', inside.len() as int);
    assert(inside[inside.len() - 2] == b[dl - 1]);
    assert(is_digit(b[dl - 1]));
    assert(inside[inside.len() - 1] == ')');
    assert(end == inside.len() - 1);
    let pair = inside.subrange(0, end);
    assert(pair =~= a + seq![',', ' '] + b);
    the_first_place_is_found(pair, ',', 0);
    let comma = index_from(pair, ',', 0);
    assert(pair[al] == ',');
    assert forall|i: int| 0 <= i < al implies #[trigger] pair[i] != ',' by {
        assert(pair[i] == a[i]);
        assert(is_digit(a[i]));
    }
    assert(comma == al);
    the_first_place_is_found(pair, ',', comma + 1);
    assert forall|i: int| al < i < pair.len() implies #[trigger] pair[i] != ',' by {
        if i >= al + 2 {
            assert(pair[i] == b[i - al - 2]);
            assert(is_digit(b[i - al - 2]));
        }
    }
    assert(index_from(pair, ',', comma + 1) == pair.len());
    let left = pair.subrange(0, comma);
    let right = pair.subrange(comma + 1, pair.len() as int);
    assert(is_digit(a[0]) && is_digit(a[al - 1]) && is_digit(b[0]) && is_digit(b[dl - 1]));
    assert(left =~= Seq::<char>::empty() + a + Seq::<char>::empty());
    assert(right =~= seq![' '] + b + Seq::<char>::empty());
    white_space_around_does_not_show(Seq::empty(), a, Seq::empty());
    white_space_around_does_not_show(seq![' '], b, Seq::empty());
    digits_write_their_value(a);
    digits_write_their_value(b);
}

/// The room that a step leads to is the one that the map has at the place that the step is written
/// with: its column first, then its floor.
pub proof fn a_step_leads_where_it_says(
    game: Game,
    step: OfferedStep,
    x: usize,
    y: usize,
    r: Option<RoomType>,
)
    requires
        call_ensures(ascend_room, (&game, &step), r),
        destination(step.description@) == Some((x, y)),
    ensures
        x < game.map.nodes@.len() && y < game.map.nodes@[x as int]@.len() ==> r
            == game.map.nodes@[x as int]@[y as int].ty,
        x >= game.map.nodes@.len() ==> r is None,
        x < game.map.nodes@.len() && y >= game.map.nodes@[x as int]@.len() ==> r is None,
{
}

} // verus!
