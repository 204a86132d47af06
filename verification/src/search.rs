//! Looking ahead in a fight: rounds of play on forked games that grow one tree, each going where
//! the tree promises most.

use crate::game::Game;
use crate::moves::{
    combat_over, has_key, is_over, keys_differ, legal_moves, moves_are_sound_and_complete, moves_of, step_move,
    Move, MoveKey,
};
use crate::pick::last_max;
use crate::rng::{random_below, Rand};
use crate::score::{at_most, orderly, Score};
use crate::step::{offer_from, offered};
use crate::tree::{known, noted, noting_counts_each_move_once, sighted, untried, untried_are_unvisited, Edge, MctsNode};
use vstd::prelude::*;

verus! {

/// Where a round of the search is.
#[derive(Clone, Copy, PartialEq, Eq, Debug, Structural)]
pub enum Phase {
    /// It has come to a decision that it has not looked at yet.
    Arriving,
    /// It has noted the moves on offer and is to choose one.
    Choosing,
    /// It went as far as the tree goes, and waits for what came of it.
    Waiting,
}

/// What a search holds.
pub struct SearchView<S> {
    /// The decisions, each with its moves; the first is the one that the search is for.
    pub nodes: Seq<Map<MoveKey, Edge<S>>>,
    /// The decision that the round has come to.
    pub at: int,
    /// The moves that the round has made so far.
    pub path: Seq<(int, MoveKey)>,
    pub phase: Phase,
    /// The rounds that are done.
    pub rounds: int,
    /// The rounds that are to be done.
    pub iters: int,
}

/// One more visit, and `value` with what came before.
pub open spec fn credited<S: Score>(edge: Edge<S>, value: S) -> Edge<S> {
    Edge { visits: (edge.visits + 1) as u64, total: S::sum(edge.total, value), ..edge }
}

/// The decisions, with `value` added to one move.
pub open spec fn credit<S: Score>(
    nodes: Seq<Map<MoveKey, Edge<S>>>,
    made: (int, MoveKey),
    value: S,
) -> Seq<Map<MoveKey, Edge<S>>> {
    let node = nodes[made.0];
    nodes.update(made.0, node.insert(made.1, credited(known(node, made.1), value)))
}

/// The decisions, with `value` added to each of the moves, the last one first.
pub open spec fn credit_all<S: Score>(
    nodes: Seq<Map<MoveKey, Edge<S>>>,
    path: Seq<(int, MoveKey)>,
    value: S,
) -> Seq<Map<MoveKey, Edge<S>>>
    decreases path.len(),
{
    if path.len() == 0 {
        nodes
    } else {
        credit_all(credit(nodes, path.last(), value), path.drop_last(), value)
    }
}

/// The decisions follow from one another: each but the first comes after one move, of an earlier
/// decision.
pub open spec fn is_tree<S: Score>(nodes: Seq<Map<MoveKey, Edge<S>>>) -> bool {
    &&& nodes.len() > 0
    &&& forall|i: int, key: MoveKey|
        0 <= i < nodes.len() && #[trigger] nodes[i].dom().contains(key) ==> (
        nodes[i][key].child matches Some(c) ==> i < c < nodes.len())
    &&& forall|i: int, key: MoveKey, j: int, other: MoveKey|
        0 <= i < nodes.len() && 0 <= j < nodes.len() && #[trigger] nodes[i].dom().contains(key)
            && #[trigger] nodes[j].dom().contains(other) && nodes[i][key].child is Some
            && nodes[i][key].child == nodes[j][other].child ==> i == j && key == other
}

/// Every move was made at most `visits` times, and at most as often as it was on offer.
pub open spec fn counts_hold<S: Score>(nodes: Seq<Map<MoveKey, Edge<S>>>, visits: int) -> bool {
    forall|i: int, key: MoveKey|
        0 <= i < nodes.len() && #[trigger] nodes[i].dom().contains(key) ==> {
            &&& nodes[i][key].visits <= visits
            &&& nodes[i][key].visits <= nodes[i][key].avail
        }
}

/// The moves were made one after the other, from the first decision on, and each can be counted.
pub open spec fn path_holds<S: Score>(
    nodes: Seq<Map<MoveKey, Edge<S>>>,
    path: Seq<(int, MoveKey)>,
    at: int,
    rounds: int,
) -> bool {
    &&& path.len() == 0 ==> at == 0
    &&& path.len() > 0 ==> path[0].0 == 0
    &&& forall|p: int|
        0 <= p < path.len() ==> {
            &&& 0 <= (#[trigger] path[p]).0 <= at
            &&& nodes[path[p].0].dom().contains(path[p].1)
            &&& nodes[path[p].0][path[p].1].visits <= rounds
            &&& nodes[path[p].0][path[p].1].visits < nodes[path[p].0][path[p].1].avail
        }
    &&& forall|p: int, q: int|
        0 <= p < q < path.len() ==> (#[trigger] path[p]).0 < (#[trigger] path[q]).0
}

impl<S: Score> SearchView<S> {
    /// How often a move of decision `i` can have been on offer.
    pub open spec fn sightings(self, i: int) -> int {
        if i < self.at || (i == self.at && self.phase != Phase::Arriving) {
            self.rounds + 1
        } else {
            self.rounds
        }
    }

    /// The search is in order.
    pub open spec fn sound(self) -> bool {
        &&& is_tree(self.nodes)
        &&& 0 <= self.at < self.nodes.len()
        &&& 0 <= self.rounds <= u32::MAX
        &&& 0 <= self.iters <= u32::MAX
        &&& counts_hold(self.nodes, self.rounds)
        &&& forall|i: int, key: MoveKey|
            0 <= i < self.nodes.len() && #[trigger] self.nodes[i].dom().contains(key)
                ==> self.nodes[i][key].avail <= self.sightings(i)
        &&& path_holds(self.nodes, self.path, self.at, self.rounds)
        &&& self.phase != Phase::Waiting ==> forall|p: int|
            0 <= p < self.path.len() ==> (#[trigger] self.path[p]).0 < self.at
    }

    /// A search for `iters` rounds, before the first of them.
    pub open spec fn begun(iters: int) -> SearchView<S> {
        SearchView {
            nodes: seq![Map::empty()],
            at: 0,
            path: Seq::empty(),
            phase: Phase::Arriving,
            rounds: 0,
            iters,
        }
    }

    /// The round found the fight over, or no move to make.
    pub open spec fn ended(self) -> SearchView<S> {
        SearchView { phase: Phase::Waiting, ..self }
    }

    /// The round found the moves on offer.
    pub open spec fn arrived(self, moves: Seq<Move>) -> SearchView<S> {
        SearchView {
            nodes: self.nodes.update(
                self.at,
                noted(self.nodes[self.at], moves, moves.len() as int),
            ),
            phase: Phase::Choosing,
            ..self
        }
    }

    /// What is known of the move where the round has come to.
    pub open spec fn here(self, key: MoveKey) -> Edge<S> {
        known(self.nodes[self.at], key)
    }

    /// The round made the move. Where the move is new the tree goes no further; otherwise the
    /// round comes to the decision that follows it.
    pub open spec fn departed(self, key: MoveKey) -> SearchView<S> {
        let edge = self.here(key);
        let path = self.path.push((self.at, key));
        if edge.visits == 0 {
            SearchView { path, phase: Phase::Waiting, ..self }
        } else {
            match edge.child {
                Some(c) => SearchView { path, at: c as int, phase: Phase::Arriving, ..self },
                None => SearchView {
                    nodes: self.nodes.update(
                        self.at,
                        self.nodes[self.at].insert(
                            key,
                            Edge { child: Some(self.nodes.len() as usize), ..edge },
                        ),
                    ).push(Map::empty()),
                    path,
                    at: self.nodes.len() as int,
                    phase: Phase::Arriving,
                    ..self
                },
            }
        }
    }

    /// The round came to `value`, which is added to every move that it made.
    pub open spec fn backed(self, value: S) -> SearchView<S> {
        SearchView {
            nodes: credit_all(self.nodes, self.path, value),
            at: 0,
            path: Seq::empty(),
            phase: Phase::Arriving,
            rounds: self.rounds + 1,
            ..self
        }
    }
}

/// Noting the moves keeps a search in order.
pub proof fn arriving_keeps_order<S: Score>(s: SearchView<S>, moves: Seq<Move>)
    requires
        s.sound(),
        s.phase == Phase::Arriving,
        keys_differ(moves),
    ensures
        s.arrived(moves).sound(),
        forall|i: int|
            0 <= i < moves.len() ==> {
                &&& s.arrived(moves).nodes[s.at].dom().contains((#[trigger] moves[i]).0)
                &&& s.arrived(moves).here(moves[i].0) == sighted(s.here(moves[i].0))
                &&& s.here(moves[i].0).visits < s.arrived(moves).here(moves[i].0).avail
                &&& s.here(moves[i].0).visits <= s.rounds
            },
{
    let t = s.arrived(moves);
    let before = s.nodes[s.at];
    let after = t.nodes[s.at];
    noting_counts_each_move_once(before, moves, moves.len() as int);
    assert forall|key: MoveKey| #[trigger] after.dom().contains(key) implies {
        &&& after[key].visits == known(before, key).visits
        &&& after[key].child == known(before, key).child
        &&& after[key].total == known(before, key).total
        &&& known(before, key).avail <= after[key].avail <= known(before, key).avail + 1
        &&& after[key].child is Some ==> before.dom().contains(key)
    } by {
        if before.dom().contains(key) {
            assert(before[key].avail <= s.sightings(s.at));
        }
        if exists|i: int| 0 <= i < moves.len() && (#[trigger] moves[i]).0 == key {
            let i = choose|i: int| 0 <= i < moves.len() && (#[trigger] moves[i]).0 == key;
            assert(after[moves[i].0] == sighted(known(before, moves[i].0)));
        } else {
            assert(known(after, key) == known(before, key));
        }
    }
    assert forall|i: int, key: MoveKey|
        0 <= i < t.nodes.len() && #[trigger] t.nodes[i].dom().contains(key) implies {
        &&& t.nodes[i][key].visits <= t.rounds
        &&& t.nodes[i][key].visits <= t.nodes[i][key].avail
        &&& t.nodes[i][key].avail <= t.sightings(i)
        &&& t.nodes[i][key].child matches Some(c) ==> i < c < t.nodes.len()
        &&& t.nodes[i][key].child is Some ==> s.nodes[i].dom().contains(key)
            && s.nodes[i][key].child == t.nodes[i][key].child
    } by {
        if i == s.at {
            assert(after.dom().contains(key));
            if before.dom().contains(key) {
                assert(s.nodes[i].dom().contains(key));
            }
        } else {
            assert(s.nodes[i].dom().contains(key));
        }
    }
    assert(t.sound());
    assert forall|i: int| 0 <= i < moves.len() implies {
        &&& t.nodes[s.at].dom().contains((#[trigger] moves[i]).0)
        &&& t.here(moves[i].0) == sighted(s.here(moves[i].0))
        &&& s.here(moves[i].0).visits < t.here(moves[i].0).avail
        &&& s.here(moves[i].0).visits <= s.rounds
    } by {
        assert(after.dom().contains(moves[i].0));
        if before.dom().contains(moves[i].0) {
            assert(s.nodes[s.at].dom().contains(moves[i].0));
        }
    }
}

/// Making a move keeps a search in order.
pub proof fn departing_keeps_order<S: Score>(s: SearchView<S>, key: MoveKey)
    requires
        s.sound(),
        s.phase == Phase::Choosing,
        s.nodes[s.at].dom().contains(key),
        s.nodes[s.at][key].visits < s.nodes[s.at][key].avail,
        s.nodes.len() <= usize::MAX,
    ensures
        s.departed(key).sound(),
{
    let t = s.departed(key);
    let edge = s.nodes[s.at][key];
    assert(t.path.len() == s.path.len() + 1);
    assert(t.path[0].0 == 0);
    assert forall|p: int, q: int| 0 <= p < q < t.path.len() implies (#[trigger] t.path[p]).0 < (
    #[trigger] t.path[q]).0 by {
        assert(t.path[p] == s.path[p]);
        if q < s.path.len() {
            assert(t.path[q] == s.path[q]);
        }
    }
    if edge.visits != 0 && edge.child is None {
        let fresh = s.nodes.len() as int;
        assert forall|i: int, other: MoveKey|
            0 <= i < t.nodes.len() && #[trigger] t.nodes[i].dom().contains(other) implies {
            &&& i < fresh
            &&& s.nodes[i].dom().contains(other)
            &&& t.nodes[i][other].visits == s.nodes[i][other].visits
            &&& t.nodes[i][other].avail == s.nodes[i][other].avail
            &&& !(i == s.at && other == key) ==> t.nodes[i][other].child
                == s.nodes[i][other].child
        } by {}
        assert(t.nodes[s.at][key].child == Some(fresh as usize));
        assert forall|p: int| 0 <= p < t.path.len() implies {
            &&& 0 <= (#[trigger] t.path[p]).0 < t.at
            &&& t.nodes[t.path[p].0].dom().contains(t.path[p].1)
            &&& t.nodes[t.path[p].0][t.path[p].1].visits <= t.rounds
            &&& t.nodes[t.path[p].0][t.path[p].1].visits
                < t.nodes[t.path[p].0][t.path[p].1].avail
        } by {
            if p < s.path.len() {
                assert(t.path[p] == s.path[p]);
                assert(s.nodes[s.path[p].0].dom().contains(s.path[p].1));
            }
        }
    } else {
        assert forall|p: int| 0 <= p < t.path.len() implies {
            &&& 0 <= (#[trigger] t.path[p]).0 <= t.at
            &&& t.nodes[t.path[p].0].dom().contains(t.path[p].1)
            &&& t.nodes[t.path[p].0][t.path[p].1].visits <= t.rounds
            &&& t.nodes[t.path[p].0][t.path[p].1].visits
                < t.nodes[t.path[p].0][t.path[p].1].avail
        } by {
            if p < s.path.len() {
                assert(t.path[p] == s.path[p]);
            }
        }
        assert forall|p: int| t.phase != Phase::Waiting && 0 <= p < t.path.len() implies (
        #[trigger] t.path[p]).0 < t.at by {
            if p < s.path.len() {
                assert(t.path[p] == s.path[p]);
            }
        }
    }
}

/// A round adds one visit and its value to each move that it made, and to nothing else.
pub proof fn a_round_counts_what_it_did<S: Score>(
    nodes: Seq<Map<MoveKey, Edge<S>>>,
    path: Seq<(int, MoveKey)>,
    at: int,
    rounds: int,
    value: S,
)
    requires
        0 <= at < nodes.len(),
        path_holds(nodes, path, at, rounds),
    ensures
        credit_all(nodes, path, value).len() == nodes.len(),
        forall|p: int|
            0 <= p < path.len() ==> credit_all(nodes, path, value)[(#[trigger] path[p]).0]
                == nodes[path[p].0].insert(
                path[p].1,
                credited(nodes[path[p].0][path[p].1], value),
            ),
        forall|i: int|
            0 <= i < nodes.len() && (forall|p: int| 0 <= p < path.len() ==> (#[trigger] path[p]).0
                != i) ==> #[trigger] credit_all(nodes, path, value)[i] == nodes[i],
    decreases path.len(),
{
    if path.len() > 0 {
        let made = path.last();
        let next = credit(nodes, made, value);
        let shorter = path.drop_last();
        assert(path[path.len() - 1] == made);
        assert forall|p: int| 0 <= p < shorter.len() implies {
            &&& shorter[p] == path[p]
            &&& (#[trigger] shorter[p]).0 < made.0
            &&& next[shorter[p].0] == nodes[shorter[p].0]
        } by {
            assert(path[p].0 < path[path.len() - 1].0);
        }
        assert forall|p: int, q: int| 0 <= p < q < shorter.len() implies (#[trigger] shorter[p]).0
            < (#[trigger] shorter[q]).0 by {
            assert(path[p].0 < path[q].0);
        }
        let there = if shorter.len() == 0 {
            0
        } else {
            at
        };
        if shorter.len() > 0 {
            assert(shorter[0] == path[0]);
        }
        assert(path_holds(next, shorter, there, rounds));
        a_round_counts_what_it_did(next, shorter, there, rounds, value);
        let done = credit_all(nodes, path, value);
        assert(done == credit_all(next, shorter, value));
        assert(done[made.0] == next[made.0]);
        assert forall|p: int| 0 <= p < path.len() implies done[(#[trigger] path[p]).0]
            == nodes[path[p].0].insert(
            path[p].1,
            credited(nodes[path[p].0][path[p].1], value),
        ) by {
            if p < shorter.len() {
                assert(shorter[p] == path[p]);
            }
        }
        assert forall|i: int|
            0 <= i < nodes.len() && (forall|p: int| 0 <= p < path.len() ==> (#[trigger] path[p]).0
                != i) implies #[trigger] done[i] == nodes[i] by {
            assert(path[path.len() - 1].0 != i);
            assert forall|p: int| 0 <= p < shorter.len() implies (#[trigger] shorter[p]).0 != i by {
                assert(path[p].0 != i);
            }
            assert(next[i] == nodes[i]);
        }
    }
}

/// Adding the value of a round to the moves that it made keeps a search in order.
pub proof fn backing_keeps_order<S: Score>(s: SearchView<S>, value: S)
    requires
        s.sound(),
        s.phase == Phase::Waiting,
        s.rounds < s.iters,
    ensures
        s.backed(value).sound(),
{
    let t = s.backed(value);
    a_round_counts_what_it_did(s.nodes, s.path, s.at, s.rounds, value);
    assert forall|i: int, key: MoveKey|
        0 <= i < t.nodes.len() && #[trigger] t.nodes[i].dom().contains(key) implies {
        &&& s.nodes[i].dom().contains(key)
        &&& t.nodes[i][key].child == s.nodes[i][key].child
        &&& t.nodes[i][key].avail == s.nodes[i][key].avail
        &&& t.nodes[i][key].visits <= s.rounds + 1
        &&& t.nodes[i][key].visits <= t.nodes[i][key].avail
    } by {
        if exists|p: int| 0 <= p < s.path.len() && (#[trigger] s.path[p]).0 == i {
            let p = choose|p: int| 0 <= p < s.path.len() && (#[trigger] s.path[p]).0 == i;
            assert(t.nodes[s.path[p].0] == s.nodes[s.path[p].0].insert(
                s.path[p].1,
                credited(s.nodes[s.path[p].0][s.path[p].1], value),
            ));
            assert(s.nodes[s.path[p].0].dom().contains(s.path[p].1));
        } else {
            assert(t.nodes[i] == s.nodes[i]);
        }
    }
}

/// How often the first `n` moves were made, taken together.
pub open spec fn visits_of<S: Score>(
    node: Map<MoveKey, Edge<S>>,
    moves: Seq<Move>,
    n: int,
) -> int
    decreases n,
{
    if n <= 0 {
        0
    } else {
        visits_of(node, moves, n - 1) + known(node, moves[n - 1].0).visits
    }
}

proof fn lemma_one_more_visit<S: Score>(
    node: Map<MoveKey, Edge<S>>,
    moves: Seq<Move>,
    i: int,
    value: S,
    n: int,
)
    requires
        keys_differ(moves),
        0 <= i < moves.len(),
        0 <= n <= moves.len(),
        node.dom().contains(moves[i].0),
        node[moves[i].0].visits < u64::MAX,
    ensures
        visits_of(node.insert(moves[i].0, credited(node[moves[i].0], value)), moves, n)
            == visits_of(node, moves, n) + (if i < n {
            1int
        } else {
            0
        }),
    decreases n,
{
    if n > 0 {
        lemma_one_more_visit(node, moves, i, value, n - 1);
        if i < n - 1 {
            assert(moves[i].0 != moves[n - 1].0);
        } else if n - 1 < i {
            assert(moves[n - 1].0 != moves[i].0);
        }
    }
}

/// A round that made a move adds one to the visits at the decision that the search is for.
pub proof fn a_round_adds_one_visit<S: Score>(s: SearchView<S>, moves: Seq<Move>, i: int, value: S)
    requires
        s.sound(),
        keys_differ(moves),
        0 <= i < moves.len(),
        s.path.len() > 0,
        s.path[0].1 == moves[i].0,
    ensures
        visits_of(s.backed(value).nodes[0], moves, moves.len() as int) == visits_of(
            s.nodes[0],
            moves,
            moves.len() as int,
        ) + 1,
{
    a_round_counts_what_it_did(s.nodes, s.path, s.at, s.rounds, value);
    assert(s.nodes[s.path[0].0].dom().contains(s.path[0].1));
    lemma_one_more_visit(s.nodes[0], moves, i, value, moves.len() as int);
}

/// The rounds done so far show in the visits of `moves`, the moves at the decision that the search
/// is for.
pub open spec fn rounds_show<S: Score>(s: SearchView<S>, moves: Seq<Move>) -> bool {
    &&& visits_of(s.nodes[0], moves, moves.len() as int) == s.rounds
    &&& s.path.len() > 0 ==> has_key(moves, s.path[0].1)
}

proof fn lemma_same_visits<S: Score>(
    a: Map<MoveKey, Edge<S>>,
    b: Map<MoveKey, Edge<S>>,
    moves: Seq<Move>,
    n: int,
)
    requires
        forall|key: MoveKey| #[trigger] known(a, key).visits == known(b, key).visits,
    ensures
        visits_of(a, moves, n) == visits_of(b, moves, n),
    decreases n,
{
    if n > 0 {
        lemma_same_visits(a, b, moves, n - 1);
        assert(known(a, moves[n - 1].0).visits == known(b, moves[n - 1].0).visits);
    }
}

/// Before the first round no move was made.
pub proof fn no_round_shows_at_first<S: Score>(iters: int, moves: Seq<Move>)
    ensures
        rounds_show(SearchView::<S>::begun(iters), moves),
{
    lemma_no_visits::<S>(moves, moves.len() as int);
}

proof fn lemma_no_visits<S: Score>(moves: Seq<Move>, n: int)
    ensures
        visits_of(Map::<MoveKey, Edge<S>>::empty(), moves, n) == 0,
    decreases n,
{
    if n > 0 {
        lemma_no_visits::<S>(moves, n - 1);
    }
}

/// Looking at a decision makes no move.
pub proof fn looking_adds_no_visit<S: Score>(s: SearchView<S>, moves: Seq<Move>, here: Seq<Move>)
    requires
        s.sound(),
        s.phase == Phase::Arriving,
        keys_differ(here),
        rounds_show(s, moves),
    ensures
        rounds_show(s.arrived(here), moves),
        rounds_show(s.ended(), moves),
{
    let before = s.nodes[s.at];
    noting_counts_each_move_once(before, here, here.len() as int);
    let after = s.arrived(here).nodes[s.at];
    assert forall|key: MoveKey| #[trigger] known(after, key).visits == known(
        before,
        key,
    ).visits by {
        if exists|i: int| 0 <= i < here.len() && (#[trigger] here[i]).0 == key {
            let i = choose|i: int| 0 <= i < here.len() && (#[trigger] here[i]).0 == key;
            assert(after[here[i].0] == sighted(known(before, here[i].0)));
        } else {
            assert(after.dom().contains(key) == before.dom().contains(key));
        }
    }
    lemma_same_visits(after, before, moves, moves.len() as int);
}

/// A move that is under way does not count before its round is done.
pub proof fn a_move_under_way_adds_no_visit<S: Score>(
    s: SearchView<S>,
    moves: Seq<Move>,
    key: MoveKey,
)
    requires
        s.sound(),
        s.phase == Phase::Choosing,
        s.nodes[s.at].dom().contains(key),
        s.path.len() == 0 ==> has_key(moves, key),
        rounds_show(s, moves),
    ensures
        rounds_show(s.departed(key), moves),
{
    let t = s.departed(key);
    assert forall|k: MoveKey| #[trigger] known(t.nodes[0], k).visits == known(
        s.nodes[0],
        k,
    ).visits by {}
    lemma_same_visits(t.nodes[0], s.nodes[0], moves, moves.len() as int);
    if s.path.len() > 0 {
        assert(t.path[0] == s.path[0]);
    } else {
        assert(t.path[0] == (s.at, key));
    }
}

/// A round that made a move shows: once every round has, the visits add up to the rounds.
pub proof fn a_done_round_shows<S: Score>(s: SearchView<S>, moves: Seq<Move>, value: S)
    requires
        s.sound(),
        keys_differ(moves),
        s.path.len() > 0,
        rounds_show(s, moves),
    ensures
        rounds_show(s.backed(value), moves),
{
    let i = choose|i: int| 0 <= i < moves.len() && #[trigger] moves[i].0 == s.path[0].1;
    a_round_adds_one_visit(s, moves, i, value);
}

/// The greatest of the first `n` scores and where it stands, the first of equals; nothing counts
/// that is not above everything.
pub open spec fn best_of<S: Score>(scores: Seq<S>, n: int) -> (int, S)
    decreases n,
{
    if n <= 0 {
        (0, S::bottom())
    } else {
        let earlier = best_of(scores, n - 1);
        if S::above(scores[n - 1], earlier.1) {
            (n - 1, scores[n - 1])
        } else {
            earlier
        }
    }
}

/// No score is above the one that is picked.
pub proof fn the_best_is_not_beaten<S: Score>(scores: Seq<S>, n: int)
    requires
        orderly::<S>(),
        0 < n <= scores.len(),
        forall|i: int| 0 <= i < n ==> S::finite(#[trigger] scores[i]),
    ensures
        0 <= best_of(scores, n).0 < n,
        best_of(scores, n).1 == scores[best_of(scores, n).0],
        forall|i: int| 0 <= i < n ==> at_most(#[trigger] scores[i], best_of(scores, n).1),
    decreases n,
{
    if n > 1 {
        the_best_is_not_beaten(scores, n - 1);
        let earlier = best_of(scores, n - 1);
        assert(S::finite(scores[n - 1]));
        if S::above(scores[n - 1], earlier.1) {
            assert(at_most(earlier.1, scores[n - 1]));
            assert forall|i: int| 0 <= i < n implies at_most(
                #[trigger] scores[i],
                scores[n - 1],
            ) by {
                if i < n - 1 {
                    assert(at_most(scores[i], earlier.1));
                } else {
                    assert(at_most(scores[i], scores[i]));
                }
            }
        }
    } else {
        assert(S::above(scores[0], S::bottom()));
        assert(best_of(scores, 0).1 == S::bottom());
        assert(best_of(scores, 1) == (0int, scores[0]));
        assert(at_most(scores[0], scores[0]));
    }
}

/// The bounds on what the moves promise, as `bound` makes them out.
pub open spec fn bounds_are<S: Score, F: Fn(Edge<S>) -> S>(
    node: Map<MoveKey, Edge<S>>,
    moves: Seq<Move>,
    bound: F,
    bounds: Seq<S>,
) -> bool {
    &&& bounds.len() == moves.len()
    &&& forall|i: int|
        0 <= i < moves.len() ==> bound.ensures(
            (known(node, (#[trigger] moves[i]).0),),
            bounds[i],
        )
}

/// The move is chosen: of those that were never made, the one that is drawn from a random source
/// that holds `state`, and where all were made, the one that promises most. The source then holds
/// `after`.
pub open spec fn chooses<S: Score, F: Fn(Edge<S>) -> S>(
    node: Map<MoveKey, Edge<S>>,
    moves: Seq<Move>,
    bound: F,
    state: Seq<u64>,
    chosen: int,
    after: Seq<u64>,
) -> bool {
    let fresh = untried(node, moves, moves.len() as int);
    if fresh.len() > 0 {
        let (k, then) = random_below(state, fresh.len() as usize);
        &&& k < fresh.len()
        &&& chosen == fresh[k as int]
        &&& after == then
    } else {
        &&& exists|bounds: Seq<S>| #[trigger]
            bounds_are(node, moves, bound, bounds) && chosen == best_of(
                bounds,
                moves.len() as int,
            ).0
        &&& after == state
    }
}

/// `bound` always makes of a move what `b` does.
pub open spec fn computes_bound<S: Score, F: Fn(Edge<S>) -> S>(
    bound: F,
    b: spec_fn(Edge<S>) -> S,
) -> bool {
    forall|edge: Edge<S>, value: S| #[trigger] bound.ensures((edge,), value) ==> value == b(edge)
}

/// The move that is chosen where bounds are made out by `b`, and what the random source then
/// holds.
pub open spec fn move_chosen<S: Score>(
    node: Map<MoveKey, Edge<S>>,
    moves: Seq<Move>,
    b: spec_fn(Edge<S>) -> S,
    state: Seq<u64>,
) -> (int, Seq<u64>) {
    let fresh = untried(node, moves, moves.len() as int);
    if fresh.len() > 0 {
        let (k, then) = random_below(state, fresh.len() as usize);
        (fresh[k as int] as int, then)
    } else {
        let bounds = Seq::new(moves.len(), |i: int| b(known(node, moves[i].0)));
        (best_of(bounds, moves.len() as int).0, state)
    }
}

/// Where bounds are always made out alike, the tree and the random source leave one move to be
/// chosen.
pub proof fn the_choice_is_determined<S: Score, F: Fn(Edge<S>) -> S>(
    node: Map<MoveKey, Edge<S>>,
    moves: Seq<Move>,
    bound: F,
    b: spec_fn(Edge<S>) -> S,
    state: Seq<u64>,
    chosen: int,
    after: Seq<u64>,
)
    requires
        chooses(node, moves, bound, state, chosen, after),
        computes_bound(bound, b),
    ensures
        (chosen, after) == move_chosen(node, moves, b, state),
{
    let fresh = untried(node, moves, moves.len() as int);
    if fresh.len() == 0 {
        let bounds = choose|bounds: Seq<S>| #[trigger]
            bounds_are(node, moves, bound, bounds) && chosen == best_of(
                bounds,
                moves.len() as int,
            ).0;
        let computed = Seq::new(moves.len(), |i: int| b(known(node, moves[i].0)));
        assert forall|i: int| 0 <= i < moves.len() implies #[trigger] bounds[i] == computed[i] by {
            assert(bound.ensures((known(node, moves[i].0),), bounds[i]));
        }
        assert(bounds =~= computed);
    }
}

/// What a round does next where bounds are made out by `b`, the search then, and what the random
/// source then holds.
pub open spec fn descended<S: Score>(
    s: SearchView<S>,
    game: Game,
    b: spec_fn(Edge<S>) -> S,
    state: Seq<u64>,
) -> (Descent, SearchView<S>, Seq<u64>) {
    let moves = moves_of(game);
    if is_over(game) || moves.len() == 0 {
        (Descent::Ended, s.ended(), state)
    } else {
        let there = s.arrived(moves);
        let (chosen, after) = move_chosen(there.nodes[there.at], moves, b, state);
        (descent(there, game, moves, chosen), there.departed(moves[chosen].0), after)
    }
}

/// What a round is to do next.
#[derive(Clone, Copy, PartialEq, Eq, Debug, Structural)]
pub enum Descent {
    /// The fight is over or offers no move: the board as it stands is what the round came to.
    Ended,
    /// Take the step and play on to the end: what comes of that is what the round came to.
    Expand(usize),
    /// Take the step and look again.
    Follow(usize),
}

/// The step that is to be taken, where the round goes on.
pub open spec fn descent_step(r: Descent) -> Option<usize> {
    match r {
        Descent::Ended => None,
        Descent::Expand(i) => Some(i),
        Descent::Follow(i) => Some(i),
    }
}

/// The step that makes move `chosen`, and whether the search goes on in the tree.
pub open spec fn descent<S: Score>(
    s: SearchView<S>,
    game: Game,
    moves: Seq<Move>,
    chosen: int,
) -> Descent {
    let i = offer_from(game.steps@, moves[chosen].1, 0) as usize;
    if s.here(moves[chosen].0).visits == 0 {
        Descent::Expand(i)
    } else {
        Descent::Follow(i)
    }
}

/// A search: the tree, and how far the current round has come in it.
#[derive(Debug)]
pub struct Search<S> {
    nodes: Vec<MctsNode<S>>,
    at: usize,
    path: Vec<(usize, MoveKey)>,
    phase: Phase,
    rounds: u32,
    iters: u32,
}

impl<S> View for Search<S> {
    type V = SearchView<S>;

    closed spec fn view(&self) -> SearchView<S> {
        SearchView {
            nodes: Seq::new(self.nodes@.len(), |i: int| self.nodes@[i]@),
            at: self.at as int,
            path: Seq::new(self.path@.len(), |p: int| (self.path@[p].0 as int, self.path@[p].1)),
            phase: self.phase,
            rounds: self.rounds as int,
            iters: self.iters as int,
        }
    }
}

impl<S: Score> Search<S> {
    /// The search is in order.
    pub closed spec fn wf(&self) -> bool {
        &&& self@.sound()
        &&& forall|i: int| 0 <= i < self.nodes@.len() ==> (#[trigger] self.nodes@[i]).wf()
    }

    /// What `wf` stands for, to those who use the search.
    pub proof fn wf_is_sound(&self)
        requires
            self.wf(),
        ensures
            self@.sound(),
    {
    }

    /// A search for `iters` rounds, before the first of them.
    pub fn new(iters: u32) -> (r: Search<S>)
        ensures
            r.wf(),
            r@ == SearchView::<S>::begun(iters as int),
    {
        let mut nodes: Vec<MctsNode<S>> = Vec::new();
        nodes.push(MctsNode::new());
        let r: Search<S> = Search {
            nodes,
            at: 0,
            path: Vec::new(),
            phase: Phase::Arriving,
            rounds: 0,
            iters,
        };
        assert(r@.nodes =~= seq![Map::empty()]);
        assert(r@.path =~= Seq::empty());
        r
    }

    /// Whether all the rounds are done.
    pub fn is_done(&self) -> (r: bool)
        ensures
            r == (self@.rounds >= self@.iters),
    {
        self.rounds >= self.iters
    }

    /// Looks at the decision that the round has come to, and gives the moves on offer. Where the
    /// fight is over or offers none, the round has gone as far as it goes.
    pub fn arrive(&mut self, game: &Game) -> (r: Option<Vec<Move>>)
        requires
            old(self).wf(),
            old(self)@.phase == Phase::Arriving,
        ensures
            final(self).wf(),
            r is None <==> is_over(*game) || moves_of(*game).len() == 0,
            r is None ==> final(self)@ == old(self)@.ended(),
            r matches Some(moves) ==> {
                &&& moves@ == moves_of(*game)
                &&& final(self)@ == old(self)@.arrived(moves@)
            },
    {
        let ghost before = *self;
        if combat_over(game) {
            self.phase = Phase::Waiting;
            assert(self@.nodes =~= before@.nodes);
            return None;
        }
        let moves: Vec<Move> = legal_moves(game);
        if moves.len() == 0 {
            self.phase = Phase::Waiting;
            assert(self@.nodes =~= before@.nodes);
            return None;
        }
        proof {
            arriving_keeps_order(self@, moves@);
            let here = self.nodes@[self.at as int]@;
            assert forall|key: MoveKey| #[trigger] known(here, key).avail < u64::MAX by {
                if here.dom().contains(key) {
                    assert(self@.nodes[self@.at].dom().contains(key));
                }
            }
        }
        self.nodes[self.at].note(&moves);
        self.phase = Phase::Choosing;
        assert(self@.nodes =~= before@.arrived(moves@).nodes);
        Some(moves)
    }

    /// Makes move `chosen`, one of those that were found on offer.
    pub fn depart(&mut self, game: &Game, moves: &Vec<Move>, chosen: usize) -> (r: Descent)
        requires
            old(self).wf(),
            old(self)@.phase == Phase::Choosing,
            chosen < moves@.len(),
            offered(game.steps@, moves@[chosen as int].1),
            old(self)@.nodes[old(self)@.at].dom().contains(moves@[chosen as int].0),
            old(self)@.here(moves@[chosen as int].0).visits < old(self)@.here(
                moves@[chosen as int].0,
            ).avail,
        ensures
            final(self).wf(),
            final(self)@ == old(self)@.departed(moves@[chosen as int].0),
            r == descent(old(self)@, *game, moves@, chosen as int),
            descent_step(r) matches Some(i) && i < game.steps@.len() && game.steps@[i as int].kind
                == moves@[chosen as int].1,
    {
        let ghost before = *self;
        let key: MoveKey = moves[chosen].0;
        let i: usize = step_move(game, moves[chosen].1);
        assert(self.nodes@.len() == self.nodes.len());
        proof {
            departing_keeps_order(self@, key);
        }
        let mut edge: Edge<S> = self.nodes[self.at].get(key);
        self.path.push((self.at, key));
        assert(self@.path =~= before@.departed(key).path);
        assert(self@.nodes =~= before@.nodes);
        if edge.visits == 0 {
            self.phase = Phase::Waiting;
            assert(self@.nodes =~= before@.nodes);
            assert(self@.path =~= before@.departed(key).path);
            return Descent::Expand(i);
        }
        match edge.child {
            Some(c) => {
                self.at = c;
                self.phase = Phase::Arriving;
                assert(before@.nodes[before@.at].dom().contains(key));
            },
            None => {
                let fresh: usize = self.nodes.len();
                edge.child = Some(fresh);
                self.nodes[self.at].set(key, edge);
                self.nodes.push(MctsNode::new());
                self.at = fresh;
                self.phase = Phase::Arriving;
            },
        }
        assert(self@.path =~= before@.departed(key).path);
        assert(self@.nodes =~= before@.departed(key).nodes);
        Descent::Follow(i)
    }

    /// Chooses a move: one that was never made, at random, and where all were the one that
    /// promises most by `bound`.
    pub fn choose_move<F: Fn(Edge<S>) -> S>(
        &self,
        moves: &Vec<Move>,
        rng: &mut Rand,
        bound: &F,
    ) -> (chosen: usize)
        requires
            self.wf(),
            moves@.len() > 0,
            forall|edge: Edge<S>| bound.requires((edge,)),
        ensures
            chosen < moves@.len(),
            chooses(
                self@.nodes[self@.at],
                moves@,
                *bound,
                old(rng).state(),
                chosen as int,
                final(rng).state(),
            ),
            untried(self@.nodes[self@.at], moves@, moves@.len() as int).len() == 0 ==> *final(rng)
                == *old(rng),
            final(rng).seed() == old(rng).seed(),
    {
        let fresh: Vec<usize> = self.nodes[self.at].untried(moves);
        if fresh.len() > 0 {
            let k: usize = rng.below(fresh.len());
            return fresh[k];
        }
        let ghost here = self.nodes@[self.at as int]@;
        let mut best: usize = 0;
        let mut best_bound: S = S::neg_infinity();
        let mut bounds: Ghost<Seq<S>> = Ghost(Seq::empty());
        let mut i: usize = 0;
        while i < moves.len()
            invariant
                i <= moves@.len(),
                self.wf(),
                self.at < self.nodes@.len(),
                here == self.nodes@[self.at as int]@,
                forall|edge: Edge<S>| bound.requires((edge,)),
                bounds@.len() == i,
                forall|j: int|
                    0 <= j < i ==> bound.ensures(
                        (known(here, (#[trigger] moves@[j]).0),),
                        bounds@[j],
                    ),
                (best as int, best_bound) == best_of(bounds@, i as int),
                best == 0 || best < i,
            decreases moves@.len() - i,
        {
            let value: S = bound(self.nodes[self.at].get(moves[i].0));
            let ghost shorter = bounds@;
            proof {
                bounds@ = bounds@.push(value);
                lemma_best_of_prefix(shorter, bounds@, i as int);
            }
            if value.exceeds(best_bound) {
                best_bound = value;
                best = i;
            }
            i = i + 1;
        }
        assert(bounds_are(here, moves@, *bound, bounds@));
        best
    }

    /// One decision of a round: looks at what is on offer, chooses a move and makes it.
    pub fn descend<F: Fn(Edge<S>) -> S>(
        &mut self,
        game: &Game,
        rng: &mut Rand,
        bound: &F,
    ) -> (r: Descent)
        requires
            old(self).wf(),
            old(self)@.phase == Phase::Arriving,
            forall|edge: Edge<S>| bound.requires((edge,)),
        ensures
            final(self).wf(),
            r == Descent::Ended <==> is_over(*game) || moves_of(*game).len() == 0,
            r == Descent::Ended ==> final(self)@ == old(self)@.ended() && *final(rng) == *old(rng),
            r != Descent::Ended ==> exists|chosen: int| #[trigger]
                goes(
                    old(self)@,
                    *game,
                    *bound,
                    old(rng).state(),
                    chosen,
                    r,
                    final(self)@,
                    final(rng).state(),
                ),
            descent_step(r) matches Some(i) ==> i < game.steps@.len(),
            forall|b: spec_fn(Edge<S>) -> S| #[trigger]
                computes_bound(*bound, b) ==> (r, final(self)@, final(rng).state()) == descended(
                    old(self)@,
                    *game,
                    b,
                    old(rng).state(),
                ),
            final(rng).seed() == old(rng).seed(),
    {
        let ghost before = self@;
        let ghost state = rng.state();
        match self.arrive(game) {
            None => Descent::Ended,
            Some(moves) => {
                let chosen: usize = self.choose_move(&moves, rng, bound);
                proof {
                    moves_are_sound_and_complete(*game);
                    arriving_keeps_order(before, moves@);
                }
                let r: Descent = self.depart(game, &moves, chosen);
                proof {
                    let there = before.arrived(moves@);
                    let after = rng.state();
                    assert(goes(
                        before,
                        *game,
                        *bound,
                        state,
                        chosen as int,
                        r,
                        self@,
                        after,
                    ));
                    assert forall|b: spec_fn(Edge<S>) -> S| #[trigger]
                        computes_bound(*bound, b) implies (r, self@, after) == descended(
                        before,
                        *game,
                        b,
                        state,
                    ) by {
                        the_choice_is_determined(
                            there.nodes[there.at],
                            moves@,
                            *bound,
                            b,
                            state,
                            chosen as int,
                            after,
                        );
                    }
                }
                r
            },
        }
    }

    /// Ends a round that came to `value`.
    pub fn back_up(&mut self, value: S)
        requires
            old(self).wf(),
            old(self)@.phase == Phase::Waiting,
            old(self)@.rounds < old(self)@.iters,
        ensures
            final(self).wf(),
            final(self)@ == old(self)@.backed(value),
    {
        let ghost before = *self;
        let ghost path = self@.path;
        proof {
            backing_keeps_order(self@, value);
        }
        let mut n: usize = self.path.len();
        assert(path.take(n as int) =~= path);
        while n > 0
            invariant
                n <= path.len(),
                before.wf(),
                path == before@.path,
                self.path == before.path,
                self.at == before.at,
                self.phase == before.phase,
                self.rounds == before.rounds,
                self.iters == before.iters,
                self.nodes@.len() == before.nodes@.len(),
                forall|i: int| 0 <= i < self.nodes@.len() ==> (#[trigger] self.nodes@[i]).wf(),
                forall|p: int|
                    0 <= p < n ==> self@.nodes[(#[trigger] path[p]).0]
                        == before@.nodes[path[p].0],
                credit_all(before@.nodes, path, value) == credit_all(
                    self@.nodes,
                    path.take(n as int),
                    value,
                ),
            decreases n,
        {
            let ghost earlier = self@.nodes;
            n = n - 1;
            let made: (usize, MoveKey) = self.path[n];
            let ghost spot = path[n as int];
            assert(spot == (made.0 as int, made.1));
            assert(before@.nodes[spot.0].dom().contains(spot.1));
            assert(earlier[spot.0] == before@.nodes[spot.0]);
            let mut edge: Edge<S> = self.nodes[made.0].get(made.1);
            edge.visits = edge.visits + 1;
            edge.total = edge.total.plus(value);
            self.nodes[made.0].set(made.1, edge);
            proof {
                assert(self@.nodes =~= credit(earlier, spot, value));
                assert(path.take(n + 1).drop_last() =~= path.take(n as int));
                assert(path.take(n + 1).last() == spot);
                assert forall|p: int| 0 <= p < n implies self@.nodes[(#[trigger] path[p]).0]
                    == before@.nodes[path[p].0] by {
                    assert(path[p].0 < path[n as int].0);
                }
            }
        }
        assert(path.take(0) =~= Seq::empty());
        self.path.clear();
        self.at = 0;
        self.phase = Phase::Arriving;
        self.rounds = self.rounds + 1;
        assert(self@.path =~= Seq::empty());
        assert(self@.nodes =~= before@.backed(value).nodes);
    }

    /// The move that was made most often at the decision that the search is for, the last of
    /// equals.
    pub fn robust_child(&self, moves: &Vec<Move>) -> (r: usize)
        requires
            self.wf(),
            moves@.len() > 0,
        ensures
            r == last_max(visit_counts(self@.nodes[0], moves@)),
            r < moves@.len(),
    {
        let ghost counts = visit_counts(self.nodes@[0]@, moves@);
        let mut best: usize = 0;
        let mut best_visits: u64 = self.nodes[0].get(moves[0].0).visits;
        let mut i: usize = 1;
        while i < moves.len()
            invariant
                1 <= i <= moves@.len(),
                self.wf(),
                self.nodes@.len() > 0,
                counts == visit_counts(self.nodes@[0]@, moves@),
                best < i,
                best_visits == counts[best as int],
                best == last_max(counts.take(i as int)),
            decreases moves@.len() - i,
        {
            let visits: u64 = self.nodes[0].get(moves[i].0).visits;
            assert(counts.take(i + 1).drop_last() =~= counts.take(i as int));
            if visits >= best_visits {
                best = i;
                best_visits = visits;
            }
            i = i + 1;
        }
        assert(counts.take(i as int) =~= counts);
        best
    }
}

/// How often each of the moves was made.
pub open spec fn visit_counts<S: Score>(node: Map<MoveKey, Edge<S>>, moves: Seq<Move>) -> Seq<int> {
    Seq::new(moves.len(), |i: int| known(node, moves[i].0).visits as int)
}

/// The round looked at `game` and made move `chosen`, which took it from `before` to `after`, and
/// the random source from what `state` says to what `then` says.
pub open spec fn goes<S: Score, F: Fn(Edge<S>) -> S>(
    before: SearchView<S>,
    game: Game,
    bound: F,
    state: Seq<u64>,
    chosen: int,
    r: Descent,
    after: SearchView<S>,
    then: Seq<u64>,
) -> bool {
    let moves = moves_of(game);
    let there = before.arrived(moves);
    &&& 0 <= chosen < moves.len()
    &&& chooses(there.nodes[there.at], moves, bound, state, chosen, then)
    &&& r == descent(there, game, moves, chosen)
    &&& after == there.departed(moves[chosen].0)
}

proof fn lemma_best_of_prefix<S: Score>(shorter: Seq<S>, longer: Seq<S>, n: int)
    requires
        0 <= n <= shorter.len() <= longer.len(),
        forall|i: int| 0 <= i < n ==> #[trigger] shorter[i] == longer[i],
    ensures
        best_of(shorter, n) == best_of(longer, n),
    decreases n,
{
    if n > 0 {
        lemma_best_of_prefix(shorter, longer, n - 1);
        assert(shorter[n - 1] == longer[n - 1]);
    }
}

/// Counting a round changes no more of a move than this: it was made once more, and the value is
/// added to what came of it. Sighting a move counts as one more chance to make it.
pub proof fn a_credit_is_one_visit<S: Score>(edge: Edge<S>, value: S)
    requires
        edge.visits < u64::MAX,
        edge.avail < u64::MAX,
    ensures
        credited(edge, value).visits == edge.visits + 1,
        credited(edge, value).total == S::sum(edge.total, value),
        credited(edge, value).avail == edge.avail,
        credited(edge, value).child == edge.child,
        sighted(edge).avail == edge.avail + 1,
        sighted(edge).visits == edge.visits,
        sighted(edge).total == edge.total,
        sighted(edge).child == edge.child,
{
}

/// A round goes one move deeper at a time: a move that was never made ends it there, to be played
/// out, and any other leads on to the decision that follows it. No count changes on the way.
pub proof fn a_round_goes_one_move_deeper<S: Score>(s: SearchView<S>, key: MoveKey)
    requires
        s.sound(),
        s.phase == Phase::Choosing,
        s.nodes[s.at].dom().contains(key),
        s.nodes.len() < usize::MAX,
    ensures
        ({
            let t = s.departed(key);
            let made = s.nodes[s.at][key];
            &&& t.path == s.path.push((s.at, key))
            &&& t.rounds == s.rounds
            &&& made.visits == 0 ==> t.phase == Phase::Waiting && t.nodes == s.nodes
            &&& made.visits > 0 ==> {
                &&& t.phase == Phase::Arriving
                &&& s.at < t.at < t.nodes.len()
                &&& t.nodes[s.at][key].child == Some(t.at as usize)
                &&& made.child is Some ==> t.nodes == s.nodes
                &&& made.child is None ==> t.nodes.len() == s.nodes.len() + 1
                    && t.nodes[t.at] == Map::<MoveKey, Edge<S>>::empty()
            }
            &&& forall|i: int, other: MoveKey|
                0 <= i < s.nodes.len() && #[trigger] s.nodes[i].dom().contains(other) ==> {
                    &&& t.nodes[i].dom().contains(other)
                    &&& t.nodes[i][other].visits == s.nodes[i][other].visits
                    &&& t.nodes[i][other].total == s.nodes[i][other].total
                    &&& t.nodes[i][other].avail == s.nodes[i][other].avail
                }
        }),
{
}

/// Once every move was made, the one that is chosen promises as much as any other, and more than
/// those before it.
pub proof fn the_best_promise_is_followed<S: Score, F: Fn(Edge<S>) -> S>(
    node: Map<MoveKey, Edge<S>>,
    moves: Seq<Move>,
    bound: F,
    b: spec_fn(Edge<S>) -> S,
    state: Seq<u64>,
    chosen: int,
    after: Seq<u64>,
)
    requires
        orderly::<S>(),
        0 < moves.len() <= usize::MAX,
        chooses(node, moves, bound, state, chosen, after),
        computes_bound(bound, b),
        forall|i: int|
            0 <= i < moves.len() ==> known(node, (#[trigger] moves[i]).0).visits > 0 && S::finite(
                b(known(node, moves[i].0)),
            ),
    ensures
        0 <= chosen < moves.len(),
        after == state,
        forall|i: int|
            0 <= i < moves.len() ==> !S::above(
                b(known(node, (#[trigger] moves[i]).0)),
                b(known(node, moves[chosen].0)),
            ),
        forall|i: int|
            0 <= i < chosen ==> S::above(
                b(known(node, moves[chosen].0)),
                b(known(node, (#[trigger] moves[i]).0)),
            ),
{
    untried_are_unvisited(node, moves, moves.len() as int);
    let fresh = untried(node, moves, moves.len() as int);
    if fresh.len() > 0 {
        assert(fresh[0] < moves.len());
        assert(known(node, moves[fresh[0] as int].0).visits == 0);
    }
    the_choice_is_determined(node, moves, bound, b, state, chosen, after);
    let bounds = Seq::new(moves.len(), |i: int| b(known(node, moves[i].0)));
    assert forall|i: int| 0 <= i < moves.len() implies S::finite(#[trigger] bounds[i]) by {
        assert(S::finite(b(known(node, moves[i].0))));
    }
    the_best_is_not_beaten(bounds, moves.len() as int);
    lemma_first_of_the_best(bounds, moves.len() as int);
    assert forall|i: int| 0 <= i < moves.len() implies !S::above(
        b(known(node, (#[trigger] moves[i]).0)),
        b(known(node, moves[chosen].0)),
    ) by {
        assert(at_most(bounds[i], bounds[chosen]));
    }
    assert forall|i: int| 0 <= i < chosen implies S::above(
        b(known(node, moves[chosen].0)),
        b(known(node, (#[trigger] moves[i]).0)),
    ) by {
        assert(S::above(bounds[chosen], bounds[i]));
    }
}

proof fn lemma_first_of_the_best<S: Score>(scores: Seq<S>, n: int)
    requires
        orderly::<S>(),
        0 < n <= scores.len(),
        forall|i: int| 0 <= i < n ==> S::finite(#[trigger] scores[i]),
    ensures
        forall|i: int|
            0 <= i < best_of(scores, n).0 ==> S::above(best_of(scores, n).1, #[trigger] scores[i]),
    decreases n,
{
    the_best_is_not_beaten(scores, n);
    if n > 1 {
        lemma_first_of_the_best(scores, n - 1);
        the_best_is_not_beaten(scores, n - 1);
        let earlier = best_of(scores, n - 1);
        if S::above(scores[n - 1], earlier.1) {
            assert(S::finite(scores[n - 1]));
            assert forall|i: int| 0 <= i < n - 1 implies S::above(
                scores[n - 1],
                #[trigger] scores[i],
            ) by {
                assert(at_most(scores[i], earlier.1));
                if !S::above(scores[n - 1], scores[i]) {
                    assert(at_most(scores[n - 1], scores[i]));
                    assert(at_most(scores[n - 1], earlier.1));
                }
            }
        }
    }
}

} // verus!
