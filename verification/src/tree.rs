//! The tree that a search grows: what is known of each move at each decision it came to.

use crate::moves::{keys_differ, Move, MoveKey};
use crate::score::Score;
use vstd::prelude::*;

verus! {

/// What a search knows of a move.
#[derive(Debug)]
pub struct Edge<S> {
    /// How often the move was made.
    pub visits: u64,
    /// The values that came of it, added up.
    pub total: S,
    /// How often the move could have been made.
    pub avail: u64,
    /// The decision that follows the move, where the search went on from there.
    pub child: Option<usize>,
}

impl<S: Copy> Copy for Edge<S> {

}

impl<S: Copy> Clone for Edge<S> {
    fn clone(&self) -> (r: Edge<S>)
        ensures
            r == *self,
    {
        *self
    }
}

/// What is known of a move that was never on offer.
pub open spec fn unknown<S: Score>() -> Edge<S> {
    Edge { visits: 0, total: S::nil(), avail: 0, child: None }
}

/// A decision: the moves that were on offer there, under their keys.
#[derive(Debug)]
pub struct MctsNode<S> {
    keys: Vec<MoveKey>,
    edges: Vec<Edge<S>>,
}

impl<S> View for MctsNode<S> {
    type V = Map<MoveKey, Edge<S>>;

    closed spec fn view(&self) -> Map<MoveKey, Edge<S>> {
        Map::new(
            |key: MoveKey| self.keys@.contains(key),
            |key: MoveKey| self.edges@[self.keys@.index_of(key)],
        )
    }
}

/// What is known of the move.
pub open spec fn known<S: Score>(node: Map<MoveKey, Edge<S>>, key: MoveKey) -> Edge<S> {
    if node.dom().contains(key) {
        node[key]
    } else {
        unknown()
    }
}

/// The move was on offer once more.
pub open spec fn sighted<S: Score>(edge: Edge<S>) -> Edge<S> {
    Edge { avail: (edge.avail + 1) as u64, ..edge }
}

/// The first `n` moves were on offer once more.
pub open spec fn noted<S: Score>(
    node: Map<MoveKey, Edge<S>>,
    moves: Seq<Move>,
    n: int,
) -> Map<MoveKey, Edge<S>>
    decreases n,
{
    if n <= 0 {
        node
    } else {
        let earlier = noted(node, moves, n - 1);
        earlier.insert(moves[n - 1].0, sighted(known(earlier, moves[n - 1].0)))
    }
}

/// The positions of those of the first `n` moves that were never made.
pub open spec fn untried<S: Score>(
    node: Map<MoveKey, Edge<S>>,
    moves: Seq<Move>,
    n: int,
) -> Seq<usize>
    decreases n,
{
    if n <= 0 {
        Seq::empty()
    } else if known(node, moves[n - 1].0).visits == 0 {
        untried(node, moves, n - 1).push((n - 1) as usize)
    } else {
        untried(node, moves, n - 1)
    }
}

/// The positions are those of the moves that were never made.
pub proof fn untried_are_unvisited<S: Score>(
    node: Map<MoveKey, Edge<S>>,
    moves: Seq<Move>,
    n: int,
)
    requires
        0 <= n <= moves.len() <= usize::MAX,
    ensures
        forall|k: int|
            0 <= k < untried(node, moves, n).len() ==> {
                &&& (#[trigger] untried(node, moves, n)[k]) < n
                &&& known(node, moves[untried(node, moves, n)[k] as int].0).visits == 0
            },
        forall|i: int|
            0 <= i < n && known(node, (#[trigger] moves[i]).0).visits == 0 ==> untried(
                node,
                moves,
                n,
            ).contains(i as usize),
    decreases n,
{
    if n > 0 {
        untried_are_unvisited(node, moves, n - 1);
        let shorter = untried(node, moves, n - 1);
        let longer = untried(node, moves, n);
        assert forall|i: int|
            0 <= i < n && known(node, (#[trigger] moves[i]).0).visits == 0 implies longer.contains(
            i as usize,
        ) by {
            if i < n - 1 {
                let k = choose|k: int| 0 <= k < shorter.len() && shorter[k] == i as usize;
                assert(longer[k] == i as usize);
            } else {
                assert(longer[longer.len() - 1] == i as usize);
            }
        }
    }
}

/// A move that is noted counts as on offer once more, exactly once; nothing else changes.
pub proof fn noting_counts_each_move_once<S: Score>(
    node: Map<MoveKey, Edge<S>>,
    moves: Seq<Move>,
    n: int,
)
    requires
        keys_differ(moves),
        0 <= n <= moves.len(),
    ensures
        forall|i: int|
            0 <= i < n ==> {
                &&& noted(node, moves, n).dom().contains((#[trigger] moves[i]).0)
                &&& noted(node, moves, n)[moves[i].0] == sighted(known(node, moves[i].0))
            },
        forall|key: MoveKey|
            (forall|i: int| 0 <= i < n ==> (#[trigger] moves[i]).0 != key) ==> {
                &&& (#[trigger] noted(node, moves, n).dom().contains(key)) == node.dom().contains(
                    key,
                )
                &&& known(noted(node, moves, n), key) == known(node, key)
            },
    decreases n,
{
    if n > 0 {
        noting_counts_each_move_once(node, moves, n - 1);
        let earlier = noted(node, moves, n - 1);
        let last = moves[n - 1].0;
        assert forall|i: int| 0 <= i < n - 1 implies (#[trigger] moves[i]).0 != last by {
            assert(moves[i].0 != moves[n - 1].0);
        }
        assert(earlier.dom().contains(last) == node.dom().contains(last));
        assert(known(earlier, last) == known(node, last));
        assert forall|i: int| 0 <= i < n implies {
            &&& noted(node, moves, n).dom().contains((#[trigger] moves[i]).0)
            &&& noted(node, moves, n)[moves[i].0] == sighted(known(node, moves[i].0))
        } by {
            if i < n - 1 {
                assert(moves[i].0 != last);
                assert(earlier.dom().contains(moves[i].0));
            }
        }
        assert forall|key: MoveKey|
            (forall|i: int| 0 <= i < n ==> (#[trigger] moves[i]).0 != key) implies {
            &&& (#[trigger] noted(node, moves, n).dom().contains(key)) == node.dom().contains(key)
            &&& known(noted(node, moves, n), key) == known(node, key)
        } by {
            assert(moves[n - 1].0 != key);
            assert(earlier.dom().contains(key) == node.dom().contains(key));
        }
    }
}

impl<S: Score> MctsNode<S> {
    /// Each key stands for one edge.
    pub closed spec fn wf(&self) -> bool {
        &&& self.keys@.len() == self.edges@.len()
        &&& self.keys@.no_duplicates()
    }

    /// A decision at which no move was on offer yet.
    pub fn new() -> (r: MctsNode<S>)
        ensures
            r.wf(),
            r@ == Map::<MoveKey, Edge<S>>::empty(),
    {
        let r: MctsNode<S> = MctsNode { keys: Vec::new(), edges: Vec::new() };
        assert(r@ =~= Map::<MoveKey, Edge<S>>::empty());
        r
    }

    /// Where the key stands; the number of keys where it does not.
    fn position(&self, key: MoveKey) -> (r: usize)
        requires
            self.wf(),
        ensures
            r <= self.keys@.len(),
            r < self.keys@.len() <==> self@.dom().contains(key),
            r < self.keys@.len() ==> self.keys@[r as int] == key && self@[key]
                == self.edges@[r as int],
    {
        let mut i: usize = 0;
        while i < self.keys.len()
            invariant
                i <= self.keys@.len(),
                self.wf(),
                forall|j: int| 0 <= j < i ==> #[trigger] self.keys@[j] != key,
            decreases self.keys@.len() - i,
        {
            if self.keys[i] == key {
                proof {
                    let at = self.keys@.index_of(key);
                    assert(self.keys@.contains(key));
                    assert(self.keys@[at] == key);
                    assert(at == i);
                }
                return i;
            }
            i = i + 1;
        }
        i
    }

    /// What is known of the move.
    pub fn get(&self, key: MoveKey) -> (r: Edge<S>)
        requires
            self.wf(),
        ensures
            r == known(self@, key),
    {
        let i: usize = self.position(key);
        if i < self.keys.len() {
            self.edges[i]
        } else {
            Edge { visits: 0, total: S::zero(), avail: 0, child: None }
        }
    }

    /// Puts down what is known of the move.
    pub fn set(&mut self, key: MoveKey, edge: Edge<S>)
        requires
            old(self).wf(),
        ensures
            final(self).wf(),
            final(self)@ == old(self)@.insert(key, edge),
    {
        let ghost before = *self;
        let i: usize = self.position(key);
        if i < self.keys.len() {
            self.edges[i] = edge;
            assert(self@ =~= before@.insert(key, edge)) by {
                lemma_places(before.keys@);
            }
        } else {
            self.keys.push(key);
            self.edges.push(edge);
            assert(self.keys@.no_duplicates());
            assert(self@ =~= before@.insert(key, edge)) by {
                lemma_places(before.keys@);
                lemma_places(self.keys@);
                assert(self.keys@[before.keys@.len() as int] == key);
                assert forall|other: MoveKey| self.keys@.contains(other) implies (other == key
                    || before.keys@.contains(other)) by {
                    let at = self.keys@.index_of(other);
                    if at < before.keys@.len() {
                        assert(before.keys@[at] == other);
                    }
                }
                assert forall|other: MoveKey| before.keys@.contains(other) implies (
                self.keys@.contains(other) && self.keys@.index_of(other) == before.keys@.index_of(
                    other,
                )) by {
                    let at = before.keys@.index_of(other);
                    assert(self.keys@[at] == other);
                }
            }
        }
    }

    /// Notes that the moves were on offer.
    pub fn note(&mut self, moves: &Vec<Move>)
        requires
            old(self).wf(),
            keys_differ(moves@),
            forall|key: MoveKey| #[trigger] known(old(self)@, key).avail < u64::MAX,
        ensures
            final(self).wf(),
            final(self)@ == noted(old(self)@, moves@, moves@.len() as int),
    {
        let ghost before = self@;
        let mut i: usize = 0;
        while i < moves.len()
            invariant
                i <= moves@.len(),
                self.wf(),
                self@ == noted(before, moves@, i as int),
                keys_differ(moves@),
                forall|key: MoveKey| #[trigger] known(before, key).avail < u64::MAX,
            decreases moves@.len() - i,
        {
            let key: MoveKey = moves[i].0;
            let mut edge: Edge<S> = self.get(key);
            proof {
                noting_counts_each_move_once(before, moves@, i as int);
                assert forall|j: int| 0 <= j < i implies (#[trigger] moves@[j]).0 != key by {
                    assert(moves@[j].0 != moves@[i as int].0);
                }
                assert(self@.dom().contains(key) == before.dom().contains(key));
                assert(known(self@, key) == known(before, key));
            }
            edge.avail = edge.avail + 1;
            self.set(key, edge);
            i = i + 1;
        }
    }

    /// The positions of the moves that were never made.
    pub fn untried(&self, moves: &Vec<Move>) -> (r: Vec<usize>)
        requires
            self.wf(),
        ensures
            r@ == untried(self@, moves@, moves@.len() as int),
            forall|k: int| 0 <= k < r@.len() ==> #[trigger] r@[k] < moves@.len(),
    {
        let n: usize = moves.len();
        let mut r: Vec<usize> = Vec::new();
        let mut i: usize = 0;
        while i < n
            invariant
                i <= n,
                n == moves@.len(),
                self.wf(),
                r@ == untried(self@, moves@, i as int),
            decreases n - i,
        {
            if self.get(moves[i].0).visits == 0 {
                r.push(i);
            }
            i = i + 1;
        }
        proof {
            untried_are_unvisited(self@, moves@, n as int);
        }
        r
    }
}

proof fn lemma_places(keys: Seq<MoveKey>)
    requires
        keys.no_duplicates(),
    ensures
        forall|i: int| 0 <= i < keys.len() ==> keys.index_of(#[trigger] keys[i]) == i,
        forall|key: MoveKey|
            keys.contains(key) ==> 0 <= #[trigger] keys.index_of(key) < keys.len() && keys[keys.index_of(
                key,
            )] == key,
{
    assert forall|i: int| 0 <= i < keys.len() implies keys.index_of(#[trigger] keys[i]) == i by {
        assert(keys.contains(keys[i]));
        let at = keys.index_of(keys[i]);
        assert(keys[at] == keys[i]);
    }
}

} // verus!
