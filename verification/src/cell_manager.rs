//! A flat-list variant of the cell model: plain value cells held in a
//! list, with neighbors looked up by position at evaluation time instead
//! of through a prebuilt adjacency graph. A whole generation is advanced
//! by computing a fresh list immutably from the old one, so no evaluation
//! can observe a half-updated neighbor.

use crate::cell::{moore_offset, next_alive};
use vstd::prelude::*;

verus! {

/// One plain-value cell: identity, alive flag and position.
#[derive(Clone, Copy, Debug)]
pub struct Cell {
    /// Stable identity of the cell, assigned by the caller at creation.
    pub id: usize,
    /// Whether the cell is alive.
    pub alive: bool,
    /// The x position of the cell.
    pub x: u32,
    /// The y position of the cell.
    pub y: u32,
}

/// Index of the first cell at or after position `k` of `s` whose id is
/// `id`, or -1 when there is none.
pub open spec fn find_id_from(s: Seq<Cell>, id: int, k: int) -> int
    decreases s.len() - k,
{
    if k < 0 || k >= s.len() {
        -1
    } else if s[k].id as int == id {
        k
    } else {
        find_id_from(s, id, k + 1)
    }
}

/// Index of the first cell at or after position `k` of `s` that sits at
/// coordinate `(x, y)`, or -1 when there is none.
pub open spec fn find_pos_from(s: Seq<Cell>, x: int, y: int, k: int) -> int
    decreases s.len() - k,
{
    if k < 0 || k >= s.len() {
        -1
    } else if s[k].x as int == x && s[k].y as int == y {
        k
    } else {
        find_pos_from(s, x, y, k + 1)
    }
}

/// The cells a list of references stands for, in order.
pub open spec fn deref_cells(s: Seq<&Cell>) -> Seq<Cell> {
    s.map_values(|c: &Cell| *c)
}

/// The neighbor found for offset `(dx, dy)` from `(x, y)`: the first cell
/// of `s` at that coordinate, when the coordinate exists as a `u32` pair
/// and such a cell is present; nothing otherwise.
pub open spec fn maybe_neighbor(s: Seq<Cell>, x: int, y: int, dx: int, dy: int) -> Seq<Cell> {
    if !(0 <= x + dx <= u32::MAX) || !(0 <= y + dy <= u32::MAX) {
        Seq::empty()
    } else if find_pos_from(s, x + dx, y + dy, 0) >= 0 {
        seq![s[find_pos_from(s, x + dx, y + dy, 0)]]
    } else {
        Seq::empty()
    }
}

/// The neighbors found by the first `k` Moore offsets.
pub open spec fn neighbors_upto(s: Seq<Cell>, x: int, y: int, k: int) -> Seq<Cell>
    decreases k,
{
    if k <= 0 {
        Seq::empty()
    } else {
        neighbors_upto(s, x, y, k - 1) + maybe_neighbor(
            s,
            x,
            y,
            moore_offset(k - 1).0,
            moore_offset(k - 1).1,
        )
    }
}

/// The neighbors of the cell at `(x, y)` among `s`: one entry per Moore
/// offset whose coordinate holds a cell, in offset order.
pub open spec fn neighbors_of(s: Seq<Cell>, x: int, y: int) -> Seq<Cell> {
    neighbors_upto(s, x, y, 8)
}

/// The alive cells among the first `k` of `s`, in order.
pub open spec fn alive_upto(s: Seq<Cell>, k: int) -> Seq<Cell>
    decreases k,
{
    if k <= 0 {
        Seq::empty()
    } else {
        alive_upto(s, k - 1) + (if s[k - 1].alive {
            seq![s[k - 1]]
        } else {
            Seq::empty()
        })
    }
}

/// The alive cells of `s`, in order.
pub open spec fn alive_cells(s: Seq<Cell>) -> Seq<Cell> {
    alive_upto(s, s.len() as int)
}

/// The dead cells among the first `k` of `s`, in order.
pub open spec fn dead_upto(s: Seq<Cell>, k: int) -> Seq<Cell>
    decreases k,
{
    if k <= 0 {
        Seq::empty()
    } else {
        dead_upto(s, k - 1) + (if !s[k - 1].alive {
            seq![s[k - 1]]
        } else {
            Seq::empty()
        })
    }
}

/// The dead cells of `s`, in order.
pub open spec fn dead_cells(s: Seq<Cell>) -> Seq<Cell> {
    dead_upto(s, s.len() as int)
}

/// The flag cell `i` of `s` carries in the next generation: the life rule
/// applied to its own flag and its number of alive neighbors in `s`.
pub open spec fn next_state_of(s: Seq<Cell>, i: int) -> bool {
    next_alive(s[i].alive, alive_cells(neighbors_of(s, s[i].x as int, s[i].y as int)).len())
}

impl Cell {
    /// Construct a cell with the given identity, flag and position.
    pub fn new(id: usize, alive: bool, x: u32, y: u32) -> (c: Cell)
        ensures
            c.id == id,
            c.alive == alive,
            c.x == x,
            c.y == y,
    {
        Cell { id, alive, x, y }
    }

    /// Toggle the alive state of the cell.
    pub fn toggle_alive(&mut self)
        ensures
            final(self).alive == !old(self).alive,
            final(self).id == old(self).id,
            final(self).x == old(self).x,
            final(self).y == old(self).y,
    {
        self.alive = !self.alive;
    }

    /// Set the alive state of the cell.
    pub fn set_alive(&mut self, alive: bool)
        ensures
            final(self).alive == alive,
            final(self).id == old(self).id,
            final(self).x == old(self).x,
            final(self).y == old(self).y,
    {
        self.alive = alive;
    }

    /// Find the first cell with the given id, if any.
    pub fn find_by_id(cells: &Vec<Cell>, id: usize) -> (r: Option<&Cell>)
        ensures
            find_id_from(cells@, id as int, 0) >= 0 ==> (r matches Some(c) && *c == cells@[
                find_id_from(cells@, id as int, 0)
            ]),
            find_id_from(cells@, id as int, 0) < 0 ==> r.is_none(),
    {
        let n = cells.len();
        let mut k: usize = 0;
        while k < n
            invariant
                n == cells@.len(),
                k <= n,
                find_id_from(cells@, id as int, 0) == find_id_from(cells@, id as int, k as int),
            decreases n - k,
        {
            if cells[k].id == id {
                return Some(&cells[k]);
            }
            k = k + 1;
        }
        None
    }

    /// Find the first cell at position `(x, y)`, if any.
    pub fn find_by_position<'a>(cells: &Vec<&'a Cell>, x: u32, y: u32) -> (r: Option<&'a Cell>)
        ensures
            find_pos_from(deref_cells(cells@), x as int, y as int, 0) >= 0 ==> (r matches Some(c)
                && *c == deref_cells(cells@)[
                find_pos_from(deref_cells(cells@), x as int, y as int, 0)
            ]),
            find_pos_from(deref_cells(cells@), x as int, y as int, 0) < 0 ==> r.is_none(),
    {
        let n = cells.len();
        let mut k: usize = 0;
        while k < n
            invariant
                n == cells@.len(),
                k <= n,
                find_pos_from(deref_cells(cells@), x as int, y as int, 0) == find_pos_from(
                    deref_cells(cells@),
                    x as int,
                    y as int,
                    k as int,
                ),
            decreases n - k,
        {
            if cells[k].x == x && cells[k].y == y {
                return Some(cells[k]);
            }
            k = k + 1;
        }
        None
    }

    /// Offset an unsigned position by a signed delta. Returns `None` when
    /// the result would leave `[0, u32::MAX]`: a position that would go
    /// negative has no neighbor there, with no wraparound.
    pub fn offset_position(position: u32, offset: i8) -> (r: Option<u32>)
        ensures
            r.is_some() == (0 <= position as int + offset as int <= u32::MAX),
            r matches Some(p) ==> p as int == position as int + offset as int,
    {
        if offset >= 0 {
            let delta = offset as u32;
            if position <= u32::MAX - delta {
                Some(position + delta)
            } else {
                None
            }
        } else {
            let delta = (-(offset as i32)) as u32;
            if position >= delta {
                Some(position - delta)
            } else {
                None
            }
        }
    }

    /// The neighbors of this cell among `cells`: for each Moore offset,
    /// the first cell at the offset coordinate, when both exist.
    pub fn neighbors<'a>(&self, cells: &Vec<&'a Cell>) -> (r: Vec<&'a Cell>)
        ensures
            deref_cells(r@) == neighbors_of(deref_cells(cells@), self.x as int, self.y as int),
    {
        let offsets = NeighborsPosition::get_all();
        let mut r: Vec<&'a Cell> = Vec::new();
        let mut k: usize = 0;
        while k < 8
            invariant
                offsets@.len() == 8,
                forall|j: int|
                    0 <= j < 8 ==> ((#[trigger] offsets@[j]).0 as int, offsets@[j].1 as int)
                        == moore_offset(j),
                k <= 8,
                deref_cells(r@) == neighbors_upto(
                    deref_cells(cells@),
                    self.x as int,
                    self.y as int,
                    k as int,
                ),
            decreases 8 - k,
        {
            let off = offsets[k];
            let ghost s = deref_cells(cells@);
            let ghost xi = self.x as int;
            let ghost yi = self.y as int;
            let ghost dxi = off.0 as int;
            let ghost dyi = off.1 as int;
            proof {
                assert((dxi, dyi) == moore_offset(k as int));
            }
            let nxo = Self::offset_position(self.x, off.0);
            let nyo = Self::offset_position(self.y, off.1);
            if nxo.is_some() && nyo.is_some() {
                let nx = nxo.unwrap();
                let ny = nyo.unwrap();
                proof {
                    assert(nx as int == xi + dxi);
                    assert(ny as int == yi + dyi);
                }
                match Self::find_by_position(cells, nx, ny) {
                    Some(neighbor) => {
                        proof {
                            assert(find_pos_from(s, xi + dxi, yi + dyi, 0) >= 0);
                            assert(*neighbor == s[find_pos_from(s, xi + dxi, yi + dyi, 0)]);
                            assert(maybe_neighbor(s, xi, yi, dxi, dyi) =~= seq![*neighbor]);
                        }
                        r.push(neighbor);
                    },
                    None => {
                        proof {
                            assert(!(find_pos_from(s, xi + dxi, yi + dyi, 0) >= 0));
                            assert(maybe_neighbor(s, xi, yi, dxi, dyi) =~= Seq::<Cell>::empty());
                        }
                    },
                }
            } else {
                proof {
                    assert(!(0 <= xi + dxi <= u32::MAX) || !(0 <= yi + dyi <= u32::MAX));
                    assert(maybe_neighbor(s, xi, yi, dxi, dyi) =~= Seq::<Cell>::empty());
                }
            }
            proof {
                assert(neighbors_upto(s, xi, yi, k as int + 1) == neighbors_upto(
                    s,
                    xi,
                    yi,
                    k as int,
                ) + maybe_neighbor(s, xi, yi, dxi, dyi));
                assert(deref_cells(r@) =~= neighbors_upto(s, xi, yi, k as int + 1));
            }
            k = k + 1;
        }
        r
    }

    /// The alive cells among `neighbors`, in order.
    pub fn alive_neighbors<'a>(&self, neighbors: &Vec<&'a Cell>) -> (r: Vec<&'a Cell>)
        ensures
            deref_cells(r@) == alive_cells(deref_cells(neighbors@)),
    {
        let n = neighbors.len();
        let mut r: Vec<&'a Cell> = Vec::new();
        let mut k: usize = 0;
        while k < n
            invariant
                n == neighbors@.len(),
                k <= n,
                deref_cells(r@) == alive_upto(deref_cells(neighbors@), k as int),
            decreases n - k,
        {
            if neighbors[k].alive {
                r.push(neighbors[k]);
            }
            proof {
                assert(deref_cells(r@) =~= alive_upto(deref_cells(neighbors@), k as int + 1));
            }
            k = k + 1;
        }
        r
    }

    /// The dead cells among `neighbors`, in order.
    pub fn dead_neighbors<'a>(&self, neighbors: &Vec<&'a Cell>) -> (r: Vec<&'a Cell>)
        ensures
            deref_cells(r@) == dead_cells(deref_cells(neighbors@)),
    {
        let n = neighbors.len();
        let mut r: Vec<&'a Cell> = Vec::new();
        let mut k: usize = 0;
        while k < n
            invariant
                n == neighbors@.len(),
                k <= n,
                deref_cells(r@) == dead_upto(deref_cells(neighbors@), k as int),
            decreases n - k,
        {
            if !neighbors[k].alive {
                r.push(neighbors[k]);
            }
            proof {
                assert(deref_cells(r@) =~= dead_upto(deref_cells(neighbors@), k as int + 1));
            }
            k = k + 1;
        }
        r
    }
}

/// The Moore offsets by compass direction.
struct NeighborsPosition;

impl NeighborsPosition {
    /// All 8 offsets, in the order every neighbor pass visits them.
    fn get_all() -> (r: Vec<(i8, i8)>)
        ensures
            r@.len() == 8,
            forall|k: int|
                0 <= k < 8 ==> ((#[trigger] r@[k]).0 as int, r@[k].1 as int) == moore_offset(k),
    {
        let mut r: Vec<(i8, i8)> = Vec::new();
        r.push((-1, -1));
        r.push((0, -1));
        r.push((1, -1));
        r.push((-1, 0));
        r.push((1, 0));
        r.push((-1, 1));
        r.push((0, 1));
        r.push((1, 1));
        r
    }
}

/// Apply the life rule to one cell against its already looked-up
/// neighbors.
fn cell_future_state(cell: &Cell, neighbors: &Vec<&Cell>) -> (r: bool)
    ensures
        r == next_alive(cell.alive, alive_cells(deref_cells(neighbors@)).len()),
{
    let alive_neighbors = cell.alive_neighbors(neighbors);
    proof {
        assert(alive_neighbors@.len() == deref_cells(alive_neighbors@).len());
    }
    if cell.alive {
        alive_neighbors.len() == 2 || alive_neighbors.len() == 3
    } else {
        alive_neighbors.len() == 3
    }
}

/// Advance a whole generation at once: evaluate every cell of `cells`
/// against the unchanged input list and return the fresh list, so no
/// evaluation can observe a half-updated neighbor. Identity and position
/// are kept; only alive flags change.
pub fn compute_next_generation(cells: Vec<Cell>) -> (r: Vec<Cell>)
    ensures
        r@.len() == cells@.len(),
        forall|i: int|
            0 <= i < cells@.len() ==> (#[trigger] r@[i]) == (Cell {
                alive: next_state_of(cells@, i),
                ..cells@[i]
            }),
{
    let n = cells.len();
    let mut cell_refs: Vec<&Cell> = Vec::new();
    let mut t: usize = 0;
    while t < n
        invariant
            n == cells@.len(),
            t <= n,
            cell_refs@.len() == t as int,
            forall|j: int| 0 <= j < t ==> *(#[trigger] cell_refs@[j]) == cells@[j],
        decreases n - t,
    {
        cell_refs.push(&cells[t]);
        t = t + 1;
    }
    proof {
        assert(deref_cells(cell_refs@) =~= cells@);
    }
    let mut r: Vec<Cell> = Vec::new();
    let mut i: usize = 0;
    while i < n
        invariant
            n == cells@.len(),
            deref_cells(cell_refs@) == cells@,
            cell_refs@.len() == n as int,
            i <= n,
            r@.len() == i as int,
            forall|j: int|
                0 <= j < i ==> (#[trigger] r@[j]) == (Cell {
                    alive: next_state_of(cells@, j),
                    ..cells@[j]
                }),
        decreases n - i,
    {
        let cell = cells[i];
        let neighbors = cell.neighbors(&cell_refs);
        let alive = cell_future_state(&cell, &neighbors);
        r.push(Cell { id: cell.id, alive, x: cell.x, y: cell.y });
        i = i + 1;
    }
    r
}

} // verus!
