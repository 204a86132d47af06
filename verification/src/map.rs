//! The map of an act.

use vstd::prelude::*;

verus! {

/// What a room of the map holds.
#[derive(Clone, Copy, PartialEq, Eq, Debug, Structural)]
pub enum RoomType {
    Monster,
    Elite,
    Campfire,
    Shop,
    Event,
    Treasure,
    Boss,
    BossTreasure,
}

/// One place of the map: its room, if there is one, and the columns on the next floor that it
/// leads to.
#[derive(Debug)]
pub struct MapNode {
    pub ty: Option<RoomType>,
    pub edges: Vec<usize>,
}

/// The map, column by column; every column holds one place for each floor.
#[derive(Debug)]
pub struct Map2d {
    pub height: usize,
    pub nodes: Vec<Vec<MapNode>>,
}

impl Map2d {
    /// The place can be left upwards: it has a room, and is not on the topmost floor.
    pub open spec fn leads_on(&self, x: int, y: int) -> bool {
        y + 1 < self.height && self.nodes@[x]@[y].ty is Some
    }

    /// Every column is as high as the map, and no edge by which a place can be left leads off the
    /// map.
    pub open spec fn wf(&self) -> bool {
        &&& forall|x: int|
            0 <= x < self.nodes@.len() ==> (#[trigger] self.nodes@[x])@.len() == self.height
        &&& forall|x: int, y: int, k: int|
            0 <= x < self.nodes@.len() && 0 <= y < self.height && self.leads_on(x, y) && 0 <= k
                < self.nodes@[x]@[y].edges@.len() ==> #[trigger] self.nodes@[x]@[y].edges@[k]
                < self.nodes@.len()
    }

    /// Whether every column is as high as the map, and no edge by which a place can be left leads
    /// off the map.
    pub fn is_whole(&self) -> (r: bool)
        ensures
            r == self.wf(),
    {
        let width: usize = self.nodes.len();
        let mut x: usize = 0;
        while x < width
            invariant
                x <= width,
                width == self.nodes@.len(),
                forall|i: int|
                    0 <= i < x ==> (#[trigger] self.nodes@[i])@.len() == self.height,
                forall|i: int, y: int, k: int|
                    0 <= i < x && 0 <= y < self.height && self.leads_on(i, y) && 0 <= k
                        < self.nodes@[i]@[y].edges@.len() ==> #[trigger] self.nodes@[i]@[y].edges@[k] < width,
            decreases width - x,
        {
            if self.nodes[x].len() != self.height {
                assert(self.nodes@[x as int]@.len() != self.height);
                return false;
            }
            let mut y: usize = 0;
            while y < self.height
                invariant
                    x < width,
                    width == self.nodes@.len(),
                    y <= self.height,
                    self.nodes@[x as int]@.len() == self.height,
                    forall|j: int, k: int|
                        0 <= j < y && self.leads_on(x as int, j) && 0 <= k
                            < self.nodes@[x as int]@[j].edges@.len() ==> #[trigger] self.nodes@[x as int]@[j].edges@[k] < width,
                decreases self.height - y,
            {
                let followed: bool = y < self.height - 1 && self.nodes[x][y].ty.is_some();
                let mut k: usize = 0;
                while followed && k < self.nodes[x][y].edges.len()
                    invariant
                        x < width,
                        width == self.nodes@.len(),
                        y < self.height,
                        self.nodes@[x as int]@.len() == self.height,
                        followed == self.leads_on(x as int, y as int),
                        k <= self.nodes@[x as int]@[y as int].edges@.len(),
                        forall|e: int|
                            0 <= e < k ==> #[trigger] self.nodes@[x as int]@[y as int].edges@[e]
                                < width,
                    decreases self.nodes@[x as int]@[y as int].edges@.len() - k,
                {
                    if self.nodes[x][y].edges[k] >= width {
                        assert(self.nodes@[x as int]@[y as int].edges@[k as int] >= width);
                        return false;
                    }
                    k = k + 1;
                }
                y = y + 1;
            }
            x = x + 1;
        }
        true
    }

    /// A map without any place.
    pub fn empty() -> (m: Map2d)
        ensures
            m.wf(),
            m.height == 0,
            m.nodes@.len() == 0,
    {
        Map2d { height: 0, nodes: Vec::new() }
    }
}

} // verus!
