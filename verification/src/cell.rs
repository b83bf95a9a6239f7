//! One grid cell: identity, position, alive flag, and its cached adjacency.
//!
//! A cell never holds a reference to another cell. Its adjacency map is a
//! list of `NeighborLink` entries, each pairing the absolute coordinate of a
//! neighbor with the arena id that neighbor lives under. Links are resolved
//! at read time against the arena owned by the board; a link whose id does
//! not resolve stands for a neighbor that no longer exists and is treated as
//! absence, never as an error.

use vstd::prelude::*;

verus! {

/// One adjacency entry: the absolute coordinate of the neighbor and the
/// arena id it resolves through.
#[derive(Clone, Copy, Debug)]
pub struct NeighborLink {
    /// Absolute x coordinate of the neighbor.
    pub x: usize,
    /// Absolute y coordinate of the neighbor.
    pub y: usize,
    /// Arena id of the neighbor, resolved through the owning board.
    pub id: usize,
}

/// One cell of the grid.
#[derive(Debug)]
pub struct Cell {
    /// Stable identity of the cell: its index in the board's arena.
    pub id: usize,
    /// Whether the cell is currently alive.
    pub alive: bool,
    /// The x position of the cell.
    pub x: usize,
    /// The y position of the cell.
    pub y: usize,
    /// Adjacency entries for the up-to-8 Moore neighbors.
    pub neighbors: Vec<NeighborLink>,
}

/// Conway's life rule as a pure function of the cell's own flag and the
/// number of alive neighbors: an alive cell with 2 or 3 alive neighbors
/// stays alive, a dead cell with exactly 3 alive neighbors becomes alive,
/// and every other combination yields dead.
pub open spec fn next_alive(alive: bool, alive_neighbors: nat) -> bool {
    if alive {
        alive_neighbors == 2 || alive_neighbors == 3
    } else {
        alive_neighbors == 3
    }
}

/// Whether `link` resolves in `cells` to a currently alive cell.
pub open spec fn link_is_alive(cells: Seq<Cell>, link: NeighborLink) -> bool {
    (link.id as int) < cells.len() && cells[link.id as int].alive
}

/// Number of links among the first `k` of `links` that resolve to an alive
/// cell of `cells`.
pub open spec fn alive_count_upto(cells: Seq<Cell>, links: Seq<NeighborLink>, k: int) -> nat
    decreases k,
{
    if k <= 0 {
        0
    } else {
        alive_count_upto(cells, links, k - 1) + (if link_is_alive(cells, links[k - 1]) {
            1nat
        } else {
            0nat
        })
    }
}

/// Number of links of `links` that resolve to an alive cell of `cells`.
pub open spec fn alive_neighbor_count(cells: Seq<Cell>, links: Seq<NeighborLink>) -> nat {
    alive_count_upto(cells, links, links.len() as int)
}

/// The ids of the first `k` links of `links` that resolve in an arena of
/// `n` cells, in link order.
pub open spec fn resolvable_upto(n: int, links: Seq<NeighborLink>, k: int) -> Seq<usize>
    decreases k,
{
    if k <= 0 {
        Seq::empty()
    } else {
        resolvable_upto(n, links, k - 1) + (if (links[k - 1].id as int) < n {
            seq![links[k - 1].id]
        } else {
            Seq::empty()
        })
    }
}

/// The ids of all links of `links` that resolve in an arena of `n` cells,
/// in link order.
pub open spec fn resolvable_ids(n: int, links: Seq<NeighborLink>) -> Seq<usize> {
    resolvable_upto(n, links, links.len() as int)
}

/// Whether some entry of `links` carries the coordinate `(x, y)`.
pub open spec fn links_has_coord(links: Seq<NeighborLink>, x: int, y: int) -> bool {
    exists|k: int| 0 <= k < links.len() && links[k].x == x && links[k].y == y
}

/// The 8 Moore offsets, in the order every neighbor pass visits them.
pub open spec fn moore_offset(k: int) -> (int, int) {
    if k == 0 {
        (-1, -1)
    } else if k == 1 {
        (0, -1)
    } else if k == 2 {
        (1, -1)
    } else if k == 3 {
        (-1, 0)
    } else if k == 4 {
        (1, 0)
    } else if k == 5 {
        (-1, 1)
    } else if k == 6 {
        (0, 1)
    } else {
        (1, 1)
    }
}

/// Whether `position + offset` stays within `[0, usize::MAX]`.
pub open spec fn offset_in_range(position: int, offset: int) -> bool {
    0 <= position + offset <= usize::MAX
}

/// A link list none of whose entries resolves to an alive cell counts
/// zero alive neighbors.
pub proof fn lemma_alive_count_zero(cells: Seq<Cell>, links: Seq<NeighborLink>, k: int)
    requires
        forall|m: int| 0 <= m < k ==> !link_is_alive(cells, #[trigger] links[m]),
    ensures
        alive_count_upto(cells, links, k) == 0,
    decreases k,
{
    if k > 0 {
        lemma_alive_count_zero(cells, links, k - 1);
    }
}

/// The life rule is a pure function of the pair (alive, alive neighbor
/// count), with this exact table: (true, 2), (true, 3) and (false, 3) map
/// to alive, and every other pair — including counts 0, 1 and 4 through 8 —
/// maps to dead.
pub proof fn lemma_future_state_table()
    ensures
        forall|n: nat| next_alive(true, n) == (n == 2 || n == 3),
        forall|n: nat| next_alive(false, n) == (n == 3),
{
}

/// Index of the first entry of `links` at coordinate `(x, y)`, if any.
fn find_coord(links: &Vec<NeighborLink>, x: usize, y: usize) -> (r: Option<usize>)
    ensures
        r matches Some(k) ==> {
            &&& (k as int) < links@.len()
            &&& links@[k as int].x == x
            &&& links@[k as int].y == y
            &&& forall|j: int|
                0 <= j < k ==> !(links@[j].x == x && links@[j].y == y)
        },
        r.is_none() ==> !links_has_coord(links@, x as int, y as int),
{
    let n = links.len();
    let mut k: usize = 0;
    while k < n
        invariant
            n == links@.len(),
            k <= n,
            forall|j: int| 0 <= j < k ==> !(links@[j].x == x && links@[j].y == y),
        decreases n - k,
    {
        if links[k].x == x && links[k].y == y {
            return Some(k);
        }
        k = k + 1;
    }
    None
}

impl Cell {
    /// Construct a cell with the given identity, flag and position and an
    /// empty adjacency map.
    pub fn new(id: usize, alive: bool, x: usize, y: usize) -> (c: Cell)
        ensures
            c.id == id,
            c.alive == alive,
            c.x == x,
            c.y == y,
            c.neighbors@ == Seq::<NeighborLink>::empty(),
    {
        Cell { id, alive, x, y, neighbors: Vec::new() }
    }

    /// Overwrite the alive flag; every other part of the cell is untouched.
    pub fn set_alive(&mut self, alive: bool)
        ensures
            final(self).alive == alive,
            final(self).id == old(self).id,
            final(self).x == old(self).x,
            final(self).y == old(self).y,
            final(self).neighbors == old(self).neighbors,
    {
        self.alive = alive;
    }

    /// Insert or overwrite the adjacency entry at coordinate
    /// `(neighbor_x, neighbor_y)`. A fresh coordinate is appended; an
    /// existing one has its first entry overwritten in place.
    pub fn add_neighbor(&mut self, neighbor_x: usize, neighbor_y: usize, neighbor_id: usize)
        ensures
            final(self).id == old(self).id,
            final(self).alive == old(self).alive,
            final(self).x == old(self).x,
            final(self).y == old(self).y,
            !links_has_coord(old(self).neighbors@, neighbor_x as int, neighbor_y as int)
                ==> final(self).neighbors@ == old(self).neighbors@.push(
                (NeighborLink { x: neighbor_x, y: neighbor_y, id: neighbor_id }),
            ),
            links_has_coord(old(self).neighbors@, neighbor_x as int, neighbor_y as int)
                ==> exists|k: int|
                {
                    &&& 0 <= k < old(self).neighbors@.len()
                    &&& old(self).neighbors@[k].x == neighbor_x
                    &&& old(self).neighbors@[k].y == neighbor_y
                    &&& (forall|j: int|
                        0 <= j < k ==> !(old(self).neighbors@[j].x == neighbor_x && old(
                            self,
                        ).neighbors@[j].y == neighbor_y))
                    &&& final(self).neighbors@ == old(self).neighbors@.update(
                        k,
                        (NeighborLink { x: neighbor_x, y: neighbor_y, id: neighbor_id }),
                    )
                },
    {
        match find_coord(&self.neighbors, neighbor_x, neighbor_y) {
            Some(k) => {
                let entry = &mut self.neighbors[k];
                *entry = NeighborLink { x: neighbor_x, y: neighbor_y, id: neighbor_id };
            },
            None => {
                self.neighbors.push(
                    NeighborLink { x: neighbor_x, y: neighbor_y, id: neighbor_id },
                );
            },
        }
    }

    /// List of the arena ids of the currently resolvable neighbors, in link
    /// order; links that do not resolve are silently dropped.
    pub fn get_neighbors(&self, cells: &Vec<Cell>) -> (r: Vec<usize>)
        ensures
            r@ == resolvable_ids(cells@.len() as int, self.neighbors@),
    {
        let mut r: Vec<usize> = Vec::new();
        let n = self.neighbors.len();
        let mut k: usize = 0;
        while k < n
            invariant
                n == self.neighbors@.len(),
                k <= n,
                r@ == resolvable_upto(cells@.len() as int, self.neighbors@, k as int),
            decreases n - k,
    {
            let link = self.neighbors[k];
            if link.id < cells.len() {
                r.push(link.id);
            }
            proof {
                assert(r@ =~= resolvable_upto(
                    cells@.len() as int,
                    self.neighbors@,
                    k as int + 1,
                ));
            }
            k = k + 1;
        }
        r
    }

    /// Count of the resolvable neighbors whose alive flag is currently true.
    pub fn count_alive_neighbors(&self, cells: &Vec<Cell>) -> (n: usize)
        ensures
            n == alive_neighbor_count(cells@, self.neighbors@),
    {
        let mut count: usize = 0;
        let len = self.neighbors.len();
        let mut k: usize = 0;
        while k < len
            invariant
                len == self.neighbors@.len(),
                k <= len,
                count == alive_count_upto(cells@, self.neighbors@, k as int),
                count <= k,
            decreases len - k,
        {
            let link = self.neighbors[k];
            if link.id < cells.len() {
                if cells[link.id].alive {
                    count = count + 1;
                }
            }
            k = k + 1;
        }
        count
    }

    /// Apply the life rule to this cell's own flag and its current count of
    /// alive neighbors.
    pub fn compute_future_state(&self, cells: &Vec<Cell>) -> (r: bool)
        ensures
            r == next_alive(self.alive, alive_neighbor_count(cells@, self.neighbors@)),
    {
        let alive_neighbors = self.count_alive_neighbors(cells);
        if self.alive {
            alive_neighbors == 2 || alive_neighbors == 3
        } else {
            alive_neighbors == 3
        }
    }

    /// Offset an unsigned position by a signed delta. Returns `None` when
    /// the result would leave `[0, usize::MAX]`, so out-of-range neighbor
    /// candidates are excluded naturally, with no wraparound.
    pub fn offset_position(position: usize, offset: isize) -> (r: Option<usize>)
        ensures
            r.is_some() == offset_in_range(position as int, offset as int),
            r matches Some(p) ==> p as int == position as int + offset as int,
    {
        if offset >= 0 {
            let delta = offset as usize;
            if position <= usize::MAX - delta {
                Some(position + delta)
            } else {
                None
            }
        } else {
            let delta: usize = if offset == isize::MIN {
                (isize::MAX as usize) + 1
            } else {
                (-offset) as usize
            };
            if position >= delta {
                Some(position - delta)
            } else {
                None
            }
        }
    }
}

impl Clone for Cell {
    /// A clone is a fresh handle carrying the same identity, flag, position
    /// and adjacency entries.
    fn clone(&self) -> (c: Cell)
        ensures
            c.id == self.id,
            c.alive == self.alive,
            c.x == self.x,
            c.y == self.y,
            c.neighbors@ == self.neighbors@,
    {
        let mut links: Vec<NeighborLink> = Vec::new();
        let n = self.neighbors.len();
        let mut k: usize = 0;
        while k < n
            invariant
                n == self.neighbors@.len(),
                k <= n,
                links@ == self.neighbors@.take(k as int),
            decreases n - k,
        {
            links.push(self.neighbors[k]);
            proof {
                assert(links@ =~= self.neighbors@.take(k as int + 1));
            }
            k = k + 1;
        }
        proof {
            assert(links@ =~= self.neighbors@);
        }
        Cell { id: self.id, alive: self.alive, x: self.x, y: self.y, neighbors: links }
    }
}

} // verus!
