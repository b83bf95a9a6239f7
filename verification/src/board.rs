//! The board: a registry that owns every cell of one grid epoch and the
//! stepping engine that advances the simulation one generation at a time.
//!
//! Cells live in a central arena (`cells`), addressed by a stable integer
//! id that is simply the arena index. The grid is dense, filled column by
//! column, so the cell at coordinate `(x, y)` always sits at index
//! `x * height + y`; the position-to-id mapping is therefore arithmetic and
//! needs no separate index. Rebuilding the board discards every cell in
//! bulk and allocates a fresh arena; a stepping operation must not be
//! issued concurrently with a rebuild, which is a documented caller
//! obligation, not an engine-enforced invariant.
//!
//! A step is two phases. The compute phase is read-only: it selects the
//! relevant cells (every alive cell together with each of its neighbors)
//! and evaluates the life rule for each of them against the unchanged
//! current arena, so no evaluation can ever observe a half-updated
//! neighbor. The commit phase then writes the computed flags back and
//! advances the generation counter by exactly one.

use crate::cell::{
    alive_count_upto, alive_neighbor_count, link_is_alive, links_has_coord, moore_offset,
    next_alive, Cell, NeighborLink,
};
use vstd::prelude::*;

verus! {

/// Whether `(x, y)` lies inside a `width` by `height` grid.
pub open spec fn in_grid(width: int, height: int, x: int, y: int) -> bool {
    0 <= x < width && 0 <= y < height
}

/// Arena id of the cell at in-bounds coordinate `(x, y)` of a grid with the
/// given height: the grid is filled column by column.
pub open spec fn pos_id(height: int, x: int, y: int) -> int {
    x * height + y
}

/// The adjacency entry contributed by the Moore offset `(dx, dy)` from
/// `(x, y)`: a single link when the candidate coordinate is in bounds,
/// nothing otherwise — out-of-range candidates are excluded, never wrapped.
pub open spec fn maybe_link(x: int, y: int, dx: int, dy: int, width: int, height: int) -> Seq<
    NeighborLink,
> {
    if in_grid(width, height, x + dx, y + dy) {
        seq![
            NeighborLink {
                x: (x + dx) as usize,
                y: (y + dy) as usize,
                id: pos_id(height, x + dx, y + dy) as usize,
            },
        ]
    } else {
        Seq::empty()
    }
}

/// The adjacency entries contributed by the first `k` Moore offsets.
pub open spec fn built_links_upto(x: int, y: int, width: int, height: int, k: int) -> Seq<
    NeighborLink,
>
    decreases k,
{
    if k <= 0 {
        Seq::empty()
    } else {
        built_links_upto(x, y, width, height, k - 1) + maybe_link(
            x,
            y,
            moore_offset(k - 1).0,
            moore_offset(k - 1).1,
            width,
            height,
        )
    }
}

/// The full adjacency of the cell at `(x, y)`: one entry for each of the 8
/// Moore offsets whose candidate coordinate is in bounds.
pub open spec fn built_links(x: int, y: int, width: int, height: int) -> Seq<NeighborLink> {
    maybe_link(x, y, -1, -1, width, height) + maybe_link(x, y, 0, -1, width, height) + maybe_link(
        x,
        y,
        1,
        -1,
        width,
        height,
    ) + maybe_link(x, y, -1, 0, width, height) + maybe_link(x, y, 1, 0, width, height)
        + maybe_link(x, y, -1, 1, width, height) + maybe_link(x, y, 0, 1, width, height)
        + maybe_link(x, y, 1, 1, width, height)
}

/// Whether arena slot `i` holds a cell with the right identity and an
/// in-bounds position that maps back to `i`.
pub open spec fn cell_slot_ok(cells: Seq<Cell>, width: int, height: int, i: int) -> bool {
    &&& cells[i].id == i
    &&& (cells[i].x as int) < width
    &&& (cells[i].y as int) < height
    &&& pos_id(height, cells[i].x as int, cells[i].y as int) == i
}

/// Whether the cell in arena slot `i` carries its fully built adjacency.
pub open spec fn cell_links_ok(cells: Seq<Cell>, width: int, height: int, i: int) -> bool {
    cells[i].neighbors@ == built_links(cells[i].x as int, cells[i].y as int, width, height)
}

/// Whether one of the first `k` adjacency entries of cell `j` has id `i`.
pub open spec fn links_to_upto(cells: Seq<Cell>, j: int, i: int, k: int) -> bool {
    exists|k2: int| 0 <= k2 < k && (#[trigger] cells[j].neighbors@[k2]).id as int == i
}

/// Whether cell `j` holds an adjacency entry whose id is `i`.
pub open spec fn cell_links_to(cells: Seq<Cell>, j: int, i: int) -> bool {
    links_to_upto(cells, j, i, cells[j].neighbors@.len() as int)
}

/// Whether cell `i` takes part in a step: it is alive, or it is a neighbor
/// of an alive cell. Every other cell is provably unchanged by the step,
/// since a dead cell with no alive neighbor stays dead under the life rule.
pub open spec fn is_relevant(cells: Seq<Cell>, i: int) -> bool {
    cells[i].alive || exists|j: int|
        0 <= j < cells.len() && cells[j].alive && cell_links_to(cells, j, i)
}

/// The ids of the relevant cells among the first `m` arena slots, in
/// increasing order.
pub open spec fn relevant_ids_upto(cells: Seq<Cell>, m: int) -> Seq<usize>
    decreases m,
{
    if m <= 0 {
        Seq::empty()
    } else {
        relevant_ids_upto(cells, m - 1) + (if is_relevant(cells, m - 1) {
            seq![(m - 1) as usize]
        } else {
            Seq::empty()
        })
    }
}

/// The ids of all relevant cells, in increasing order.
pub open spec fn relevant_ids(cells: Seq<Cell>) -> Seq<usize> {
    relevant_ids_upto(cells, cells.len() as int)
}

/// The arena after one commit entry: the alive flag of cell `id` is
/// overwritten with `flag`; an id that does not resolve changes nothing.
pub open spec fn set_cell_alive(cells: Seq<Cell>, id: int, flag: bool) -> Seq<Cell> {
    if 0 <= id < cells.len() {
        cells.update(id, (Cell { alive: flag, ..cells[id] }))
    } else {
        cells
    }
}

/// The arena after committing all of `pairs`, first entry first; with
/// duplicate ids the last write wins.
pub open spec fn apply_pairs(cells: Seq<Cell>, pairs: Seq<(usize, bool)>) -> Seq<Cell>
    decreases pairs.len(),
{
    if pairs.len() == 0 {
        cells
    } else {
        set_cell_alive(
            apply_pairs(cells, pairs.drop_last()),
            pairs.last().0 as int,
            pairs.last().1,
        )
    }
}

/// The registry that owns the cells of the current board epoch, together
/// with the dimensions and the generation counter.
pub struct Board {
    /// The width of the board.
    pub width: usize,
    /// The height of the board.
    pub height: usize,
    /// The generation counter: reset to 0 by a rebuild or a kill, advanced
    /// by exactly 1 per commit.
    pub generation: usize,
    /// The arena of cells; a cell's id is its index here.
    pub cells: Vec<Cell>,
}

impl Board {
    /// The arena is consistent with the dimensions: one cell per in-bounds
    /// coordinate, each knowing its own id and position.
    pub open spec fn wf_arena(self) -> bool {
        &&& (self.width as int) * (self.height as int) <= usize::MAX
        &&& self.cells@.len() == (self.width as int) * (self.height as int)
        &&& forall|i: int|
            0 <= i < self.cells@.len() ==> cell_slot_ok(
                self.cells@,
                self.width as int,
                self.height as int,
                i,
            )
    }

    /// The built state: the arena is consistent and every cell carries its
    /// fully built Moore adjacency.
    pub open spec fn wf(self) -> bool {
        &&& self.wf_arena()
        &&& forall|i: int|
            0 <= i < self.cells@.len() ==> cell_links_ok(
                self.cells@,
                self.width as int,
                self.height as int,
                i,
            )
    }

    /// Create an empty board: no cells, zero size, generation 0.
    pub fn new() -> (b: Board)
        ensures
            b.width == 0,
            b.height == 0,
            b.generation == 0,
            b.cells@.len() == 0,
            b.wf(),
    {
        Board { width: 0, height: 0, generation: 0, cells: Vec::new() }
    }

    /// Set the size of the board.
    fn set_size(&mut self, width: usize, height: usize)
        ensures
            final(self).width == width,
            final(self).height == height,
            final(self).generation == old(self).generation,
            final(self).cells == old(self).cells,
    {
        self.width = width;
        self.height = height;
    }

    /// Advance the generation counter by exactly 1.
    fn increment_generation(&mut self)
        requires
            old(self).generation < usize::MAX,
        ensures
            final(self).generation == old(self).generation + 1,
            final(self).width == old(self).width,
            final(self).height == old(self).height,
            final(self).cells == old(self).cells,
    {
        self.generation = self.generation + 1;
    }

    /// Read the current generation of the board.
    pub fn get_generation(&self) -> (g: usize)
        ensures
            g == self.generation,
    {
        self.generation
    }

    /// Reset the generation counter to 0.
    fn reset_generation(&mut self)
        ensures
            final(self).generation == 0,
            final(self).width == old(self).width,
            final(self).height == old(self).height,
            final(self).cells == old(self).cells,
    {
        self.generation = 0;
    }

    /// Append a cell to the arena under the next free id.
    fn add_cell(&mut self, cell: Cell)
        requires
            cell.id == old(self).cells@.len(),
        ensures
            final(self).cells@ == old(self).cells@.push(cell),
            final(self).width == old(self).width,
            final(self).height == old(self).height,
            final(self).generation == old(self).generation,
    {
        self.cells.push(cell);
    }

    /// Get the cell with the given id, or absent when the id does not
    /// resolve; an unknown id is never an error.
    pub fn get_cell(&self, id: usize) -> (r: Option<&Cell>)
        ensures
            (id as int) < self.cells@.len() ==> (r matches Some(c) && *c == self.cells@[
                id as int
            ]),
            (id as int) >= self.cells@.len() ==> r.is_none(),
    {
        if id < self.cells.len() {
            Some(&self.cells[id])
        } else {
            None
        }
    }

    /// Arena id of the cell at `(x, y)`, or absent when the coordinate is
    /// out of bounds.
    pub fn position_to_id(&self, x: usize, y: usize) -> (r: Option<usize>)
        requires
            self.wf_arena(),
        ensures
            (x < self.width && y < self.height) ==> (r matches Some(id) && id as int == pos_id(
                self.height as int,
                x as int,
                y as int,
            ) && (id as int) < self.cells@.len()),
            !(x < self.width && y < self.height) ==> r.is_none(),
    {
        if x < self.width && y < self.height {
            proof {
                lemma_pos_id_bound(x as int, y as int, self.width as int, self.height as int);
            }
            Some(x * self.height + y)
        } else {
            None
        }
    }

    /// Find the cell at position `(x, y)`, or absent when the coordinate is
    /// out of bounds.
    pub fn find_cell(&self, x: usize, y: usize) -> (r: Option<&Cell>)
        requires
            self.wf_arena(),
        ensures
            (x < self.width && y < self.height) ==> (r matches Some(c) && *c == self.cells@[
                pos_id(self.height as int, x as int, y as int)
            ]),
            !(x < self.width && y < self.height) ==> r.is_none(),
    {
        match self.position_to_id(x, y) {
            Some(id) => self.get_cell(id),
            None => None,
        }
    }

    /// A snapshot list of all current cells, in id order.
    pub fn get_cells(&self) -> (r: Vec<Cell>)
        ensures
            r@.len() == self.cells@.len(),
            forall|i: int|
                0 <= i < r@.len() ==> {
                    &&& (#[trigger] r@[i]).id == self.cells@[i].id
                    &&& r@[i].alive == self.cells@[i].alive
                    &&& r@[i].x == self.cells@[i].x
                    &&& r@[i].y == self.cells@[i].y
                    &&& r@[i].neighbors@ == self.cells@[i].neighbors@
                },
    {
        let mut r: Vec<Cell> = Vec::new();
        let n = self.cells.len();
        let mut i: usize = 0;
        while i < n
            invariant
                n == self.cells@.len(),
                i <= n,
                r@.len() == i as int,
                forall|j: int|
                    0 <= j < i ==> {
                        &&& (#[trigger] r@[j]).id == self.cells@[j].id
                        &&& r@[j].alive == self.cells@[j].alive
                        &&& r@[j].x == self.cells@[j].x
                        &&& r@[j].y == self.cells@[j].y
                        &&& r@[j].neighbors@ == self.cells@[j].neighbors@
                    },
            decreases n - i,
        {
            r.push(self.cells[i].clone());
            i = i + 1;
        }
        r
    }

    /// Discard every cell of the current epoch in bulk.
    fn clear_cells(&mut self)
        ensures
            final(self).cells@ == Seq::<Cell>::empty(),
            final(self).width == old(self).width,
            final(self).height == old(self).height,
            final(self).generation == old(self).generation,
    {
        self.cells.clear();
    }

    /// Reset the board to its initial state: generation 0 and no cells.
    fn reset(&mut self)
        ensures
            final(self).cells@ == Seq::<Cell>::empty(),
            final(self).generation == 0,
            final(self).width == old(self).width,
            final(self).height == old(self).height,
    {
        self.reset_generation();
        self.clear_cells();
    }

    /// Fill the empty arena with one dead cell per in-bounds coordinate,
    /// column by column, each recorded under its positional id.
    fn fill_cells(&mut self)
        requires
            old(self).cells@.len() == 0,
            (old(self).width as int) * (old(self).height as int) <= usize::MAX,
        ensures
            final(self).width == old(self).width,
            final(self).height == old(self).height,
            final(self).generation == old(self).generation,
            final(self).wf_arena(),
            forall|i: int|
                0 <= i < final(self).cells@.len() ==> !(#[trigger] final(self).cells@[i]).alive
                    && final(self).cells@[i].neighbors@ == Seq::<NeighborLink>::empty(),
    {
        let w = self.width;
        let h = self.height;
        let ghost gen0 = self.generation;
        let mut x: usize = 0;
        while x < w
            invariant
                w == self.width,
                h == self.height,
                self.generation == gen0,
                x <= w,
                (w as int) * (h as int) <= usize::MAX,
                self.cells@.len() == (x as int) * (h as int),
                forall|i: int|
                    0 <= i < self.cells@.len() ==> cell_slot_ok(
                        self.cells@,
                        w as int,
                        h as int,
                        i,
                    ),
                forall|i: int|
                    0 <= i < self.cells@.len() ==> !(#[trigger] self.cells@[i]).alive
                        && self.cells@[i].neighbors@ == Seq::<NeighborLink>::empty(),
            decreases w - x,
        {
            let mut y: usize = 0;
            while y < h
                invariant
                    w == self.width,
                    h == self.height,
                    self.generation == gen0,
                    x < w,
                    y <= h,
                    (w as int) * (h as int) <= usize::MAX,
                    self.cells@.len() == (x as int) * (h as int) + (y as int),
                    forall|i: int|
                        0 <= i < self.cells@.len() ==> cell_slot_ok(
                            self.cells@,
                            w as int,
                            h as int,
                            i,
                        ),
                    forall|i: int|
                        0 <= i < self.cells@.len() ==> !(#[trigger] self.cells@[i]).alive
                            && self.cells@[i].neighbors@ == Seq::<NeighborLink>::empty(),
                decreases h - y,
            {
                let ghost pre = self.cells@;
                let id = self.cells.len();
                let cell = Cell::new(id, false, x, y);
                self.add_cell(cell);
                proof {
                    assert forall|i: int|
                        0 <= i < self.cells@.len() implies cell_slot_ok(
                        self.cells@,
                        w as int,
                        h as int,
                        i,
                    ) by {
                        if i < pre.len() {
                            assert(cell_slot_ok(pre, w as int, h as int, i));
                            assert(self.cells@[i] == pre[i]);
                        } else {
                            assert(self.cells@[i].x == x && self.cells@[i].y == y);
                        }
                    }
                }
                y = y + 1;
            }
            proof {
                assert((x as int) * (h as int) + (h as int) == ((x as int) + 1) * (h as int))
                    by (nonlinear_arith);
            }
            x = x + 1;
        }
    }

    /// Build every cell's Moore adjacency: for each cell and each of the 8
    /// offsets, the candidate coordinate is computed without wraparound and
    /// registered when it is in bounds. Each pass writes only to its own
    /// cell's adjacency, so passes are independent of one another.
    fn compute_neighbors(&mut self)
        requires
            old(self).wf_arena(),
            forall|i: int|
                0 <= i < old(self).cells@.len() ==> (#[trigger] old(
                    self,
                ).cells@[i]).neighbors@ == Seq::<NeighborLink>::empty(),
        ensures
            final(self).width == old(self).width,
            final(self).height == old(self).height,
            final(self).generation == old(self).generation,
            final(self).cells@.len() == old(self).cells@.len(),
            forall|i: int|
                0 <= i < final(self).cells@.len() ==> {
                    &&& (#[trigger] final(self).cells@[i]).id == old(self).cells@[i].id
                    &&& final(self).cells@[i].alive == old(self).cells@[i].alive
                    &&& final(self).cells@[i].x == old(self).cells@[i].x
                    &&& final(self).cells@[i].y == old(self).cells@[i].y
                },
            final(self).wf(),
    {
        let w = self.width;
        let h = self.height;
        let ghost cells0 = self.cells@;
        let ghost gen0 = self.generation;
        let offsets = moore_offsets();
        let n = self.cells.len();
        let mut i: usize = 0;
        while i < n
            invariant
                w == self.width,
                h == self.height,
                self.generation == gen0,
                n == self.cells@.len(),
                cells0.len() == n as int,
                i <= n,
                (w as int) * (h as int) <= usize::MAX,
                n as int == (w as int) * (h as int),
                offsets@.len() == 8,
                forall|k: int|
                    0 <= k < 8 ==> ((#[trigger] offsets@[k]).0 as int, offsets@[k].1 as int)
                        == moore_offset(k),
                forall|j: int| 0 <= j < n ==> cell_slot_ok(cells0, w as int, h as int, j),
                forall|j: int|
                    0 <= j < n ==> {
                        &&& (#[trigger] self.cells@[j]).id == cells0[j].id
                        &&& self.cells@[j].alive == cells0[j].alive
                        &&& self.cells@[j].x == cells0[j].x
                        &&& self.cells@[j].y == cells0[j].y
                    },
                forall|j: int|
                    0 <= j < i ==> cell_links_ok(self.cells@, w as int, h as int, j),
                forall|j: int|
                    i <= j < n ==> (#[trigger] self.cells@[j]).neighbors@ == Seq::<
                        NeighborLink,
                    >::empty(),
            decreases n - i,
        {
            let x = self.cells[i].x;
            let y = self.cells[i].y;
            let alive = self.cells[i].alive;
            let id = self.cells[i].id;
            let mut c = Cell::new(id, alive, x, y);
            proof {
                assert(cell_slot_ok(cells0, w as int, h as int, i as int));
            }
            let mut k: usize = 0;
            while k < 8
                invariant
                    offsets@.len() == 8,
                    forall|j: int|
                        0 <= j < 8 ==> ((#[trigger] offsets@[j]).0 as int, offsets@[j].1 as int)
                            == moore_offset(j),
                    k <= 8,
                    c.id == id,
                    c.alive == alive,
                    c.x == x,
                    c.y == y,
                    (x as int) < w as int,
                    (y as int) < h as int,
                    (w as int) * (h as int) <= usize::MAX,
                    c.neighbors@ == built_links_upto(
                        x as int,
                        y as int,
                        w as int,
                        h as int,
                        k as int,
                    ),
                decreases 8 - k,
            {
                let off = offsets[k];
                proof {
                    lemma_moore_offsets_distinct();
                    lemma_upto_no_coord(
                        x as int,
                        y as int,
                        w as int,
                        h as int,
                        k as int,
                        off.0 as int,
                        off.1 as int,
                    );
                }
                add_link_at_offset(&mut c, off.0, off.1, w, h);
                proof {
                    assert(c.neighbors@ == built_links_upto(
                        x as int,
                        y as int,
                        w as int,
                        h as int,
                        k as int + 1,
                    ));
                }
                k = k + 1;
            }
            proof {
                lemma_upto_is_built(x as int, y as int, w as int, h as int);
            }
            let ghost pre = self.cells@;
            let slot = &mut self.cells[i];
            *slot = c;
            proof {
                assert forall|j: int|
                    0 <= j < i as int + 1 implies cell_links_ok(
                    self.cells@,
                    w as int,
                    h as int,
                    j,
                ) by {
                    if j < i as int {
                        assert(cell_links_ok(pre, w as int, h as int, j));
                        assert(self.cells@[j] == pre[j]);
                    }
                }
            }
            i = i + 1;
        }
        proof {
            assert forall|j: int|
                0 <= j < self.cells@.len() implies cell_slot_ok(
                self.cells@,
                w as int,
                h as int,
                j,
            ) by {
                assert(cell_slot_ok(cells0, w as int, h as int, j));
            }
        }
    }

    /// Rebuild the grid: discard every existing cell, reset the generation
    /// to 0, set the new dimensions, allocate one dead cell per coordinate
    /// and build the full neighbor graph. On return the board is in a
    /// consistent built state.
    pub fn create_board(&mut self, width: usize, height: usize)
        requires
            (width as int) * (height as int) <= usize::MAX,
        ensures
            final(self).width == width,
            final(self).height == height,
            final(self).generation == 0,
            final(self).cells@.len() == (width as int) * (height as int),
            final(self).wf(),
            forall|i: int|
                0 <= i < final(self).cells@.len() ==> !(#[trigger] final(self).cells@[i]).alive,
    {
        self.reset();
        self.set_size(width, height);
        self.fill_cells();
        self.compute_neighbors();
    }

    /// Kill the board: set every cell's alive flag to false and reset the
    /// generation to 0. Dimensions, cells and the neighbor graph are kept:
    /// nothing is resized, reallocated or rebuilt.
    pub fn kill_board(&mut self)
        ensures
            kills(*old(self), *final(self)),
            old(self).wf() ==> final(self).wf(),
    {
        let ghost cells0 = self.cells@;
        let ghost w0 = self.width;
        let ghost h0 = self.height;
        let n = self.cells.len();
        let mut i: usize = 0;
        while i < n
            invariant
                n == self.cells@.len(),
                cells0.len() == n as int,
                self.width == w0,
                self.height == h0,
                i <= n,
                forall|j: int|
                    0 <= j < i ==> self.cells@[j] == (Cell { alive: false, ..cells0[j] }),
                forall|j: int| i <= j < n ==> self.cells@[j] == cells0[j],
            decreases n - i,
        {
            let c = &mut self.cells[i];
            c.set_alive(false);
            i = i + 1;
        }
        self.reset_generation();
        proof {
            if old(self).wf() {
                let w = self.width as int;
                let h = self.height as int;
                assert forall|j: int|
                    0 <= j < self.cells@.len() implies cell_slot_ok(self.cells@, w, h, j)
                        && cell_links_ok(self.cells@, w, h, j) by {
                    assert(cell_slot_ok(cells0, w, h, j));
                    assert(cell_links_ok(cells0, w, h, j));
                }
            }
        }
    }

    /// Mark the relevant cells of the coming step: every alive cell and
    /// every cell one of its adjacency entries resolves to.
    fn get_relevant_cells(&self) -> (marks: Vec<bool>)
        ensures
            marks@.len() == self.cells@.len(),
            forall|i: int| 0 <= i < marks@.len() ==> marks@[i] == is_relevant(self.cells@, i),
    {
        let n = self.cells.len();
        let mut marks: Vec<bool> = Vec::new();
        let mut t: usize = 0;
        while t < n
            invariant
                marks@.len() == t as int,
                t <= n,
                forall|i: int| 0 <= i < t ==> !(#[trigger] marks@[i]),
            decreases n - t,
        {
            marks.push(false);
            t = t + 1;
        }
        let mut j: usize = 0;
        while j < n
            invariant
                n == self.cells@.len(),
                marks@.len() == n as int,
                j <= n,
                forall|i: int|
                    0 <= i < n ==> marks@[i] == relevant_upto(self.cells@, i, j as int),
            decreases n - j,
        {
            if self.cells[j].alive {
                let m = &mut marks[j];
                *m = true;
                let links_len = self.cells[j].neighbors.len();
                let mut k: usize = 0;
                while k < links_len
                    invariant
                        n == self.cells@.len(),
                        marks@.len() == n as int,
                        j < n,
                        self.cells@[j as int].alive,
                        links_len == self.cells@[j as int].neighbors@.len(),
                        k <= links_len,
                        forall|i: int|
                            0 <= i < n ==> marks@[i] == (relevant_upto(self.cells@, i, j as int)
                                || i == j as int || links_to_upto(
                                self.cells@,
                                j as int,
                                i,
                                k as int,
                            )),
                    decreases links_len - k,
                {
                    let link = self.cells[j].neighbors[k];
                    if link.id < n {
                        let m2 = &mut marks[link.id];
                        *m2 = true;
                    }
                    proof {
                        assert forall|i: int|
                            0 <= i < n implies marks@[i] == (relevant_upto(
                            self.cells@,
                            i,
                            j as int,
                        ) || i == j as int || links_to_upto(
                            self.cells@,
                            j as int,
                            i,
                            k as int + 1,
                        )) by {
                            if links_to_upto(self.cells@, j as int, i, k as int + 1) {
                                let k2 = choose|k2: int|
                                    0 <= k2 < k as int + 1 && (#[trigger] self.cells@[
                                        j as int
                                    ].neighbors@[k2]).id as int == i;
                                if k2 < k as int {
                                    assert(links_to_upto(self.cells@, j as int, i, k as int));
                                } else {
                                    assert(self.cells@[j as int].neighbors@[k as int].id as int
                                        == i);
                                }
                            }
                            if links_to_upto(self.cells@, j as int, i, k as int) {
                                let k2 = choose|k2: int|
                                    0 <= k2 < k as int && (#[trigger] self.cells@[
                                        j as int
                                    ].neighbors@[k2]).id as int == i;
                                assert(links_to_upto(self.cells@, j as int, i, k as int + 1));
                            }
                        }
                    }
                    k = k + 1;
                }
                proof {
                    assert forall|i: int|
                        0 <= i < n implies marks@[i] == relevant_upto(
                        self.cells@,
                        i,
                        j as int + 1,
                    ) by {
                        lemma_relevant_upto_step(self.cells@, i, j as int);
                    }
                }
            } else {
                proof {
                    assert forall|i: int|
                        0 <= i < n implies marks@[i] == relevant_upto(
                        self.cells@,
                        i,
                        j as int + 1,
                    ) by {
                        lemma_relevant_upto_step(self.cells@, i, j as int);
                    }
                }
            }
            j = j + 1;
        }
        marks
    }

    /// The read-only compute phase of a step: evaluate the life rule for
    /// every relevant cell against the current arena, which this phase
    /// never mutates, and return the `(id, next flag)` pairs for exactly
    /// the relevant cells, in increasing id order. Cells outside the
    /// relevant set are omitted because they are provably unchanged: a dead
    /// cell with no alive neighbor can never satisfy the birth rule.
    pub fn compute_next_generation(&self) -> (r: Vec<(usize, bool)>)
        ensures
            r@.len() == relevant_ids(self.cells@).len(),
            forall|k: int|
                0 <= k < r@.len() ==> {
                    let id = relevant_ids(self.cells@)[k];
                    &&& (#[trigger] r@[k]).0 == id
                    &&& r@[k].1 == next_alive(
                        self.cells@[id as int].alive,
                        alive_neighbor_count(self.cells@, self.cells@[id as int].neighbors@),
                    )
                },
    {
        let marks = self.get_relevant_cells();
        let n = self.cells.len();
        let mut r: Vec<(usize, bool)> = Vec::new();
        let mut i: usize = 0;
        while i < n
            invariant
                n == self.cells@.len(),
                marks@.len() == n as int,
                forall|t: int| 0 <= t < n ==> marks@[t] == is_relevant(self.cells@, t),
                i <= n,
                r@.len() == relevant_ids_upto(self.cells@, i as int).len(),
                forall|k: int|
                    0 <= k < r@.len() ==> {
                        let id = relevant_ids_upto(self.cells@, i as int)[k];
                        &&& (#[trigger] r@[k]).0 == id
                        &&& r@[k].1 == next_alive(
                            self.cells@[id as int].alive,
                            alive_neighbor_count(
                                self.cells@,
                                self.cells@[id as int].neighbors@,
                            ),
                        )
                    },
            decreases n - i,
        {
            let ghost pre = r@;
            if marks[i] {
                let fut = self.cells[i].compute_future_state(&self.cells);
                r.push((i, fut));
            }
            proof {
                let up = relevant_ids_upto(self.cells@, i as int);
                let up1 = relevant_ids_upto(self.cells@, i as int + 1);
                assert forall|k: int| 0 <= k < r@.len() implies {
                    let id = up1[k];
                    &&& (#[trigger] r@[k]).0 == id
                    &&& r@[k].1 == next_alive(
                        self.cells@[id as int].alive,
                        alive_neighbor_count(self.cells@, self.cells@[id as int].neighbors@),
                    )
                } by {
                    if k < up.len() {
                        assert(up1[k] == up[k]);
                        assert(r@[k] == pre[k]);
                    }
                }
            }
            i = i + 1;
        }
        r
    }

    /// The commit phase of a step: write each computed `(id, flag)` pair
    /// back to its cell — entries whose id does not resolve are skipped —
    /// and then advance the generation counter by exactly 1, however many
    /// flags actually changed. Cells absent from `next_gen` are left
    /// bit-for-bit untouched.
    pub fn update_next_generation(&mut self, next_gen: &Vec<(usize, bool)>)
        requires
            old(self).generation < usize::MAX,
        ensures
            final(self).generation == old(self).generation + 1,
            final(self).width == old(self).width,
            final(self).height == old(self).height,
            final(self).cells@ == apply_pairs(old(self).cells@, next_gen@),
            old(self).wf() ==> final(self).wf(),
    {
        let ghost cells0 = self.cells@;
        let ghost gen0 = self.generation;
        let ghost w0 = self.width;
        let ghost h0 = self.height;
        let n_pairs = next_gen.len();
        let mut k: usize = 0;
        while k < n_pairs
            invariant
                n_pairs == next_gen@.len(),
                k <= n_pairs,
                self.generation == gen0,
                self.width == w0,
                self.height == h0,
                self.cells@.len() == cells0.len(),
                self.cells@ == apply_pairs(cells0, next_gen@.take(k as int)),
            decreases n_pairs - k,
        {
            proof {
                assert(next_gen@.take(k as int + 1).drop_last() =~= next_gen@.take(k as int));
                assert(next_gen@.take(k as int + 1).last() == next_gen@[k as int]);
            }
            let p = next_gen[k];
            if p.0 < self.cells.len() {
                let c = &mut self.cells[p.0];
                c.set_alive(p.1);
                proof {
                    assert(self.cells@ =~= apply_pairs(cells0, next_gen@.take(k as int + 1)));
                }
            } else {
                proof {
                    assert(self.cells@ =~= apply_pairs(cells0, next_gen@.take(k as int + 1)));
                }
            }
            k = k + 1;
        }
        proof {
            assert(next_gen@.take(n_pairs as int) =~= next_gen@);
        }
        self.increment_generation();
        proof {
            lemma_apply_pairs_frame(cells0, next_gen@);
            if old(self).wf() {
                let w = self.width as int;
                let h = self.height as int;
                assert forall|j: int|
                    0 <= j < self.cells@.len() implies cell_slot_ok(self.cells@, w, h, j)
                        && cell_links_ok(self.cells@, w, h, j) by {
                    assert(cell_slot_ok(cells0, w, h, j));
                    assert(cell_links_ok(cells0, w, h, j));
                }
            }
        }
    }

    /// One full step: run the read-only compute phase, commit its result,
    /// and hand the committed pairs back so a caller can repaint exactly
    /// the relevant cells. Every cell of the board — including every cell
    /// the compute phase skipped — ends up with the flag the life rule
    /// assigns it against the previous generation, and the generation
    /// counter advances by exactly 1.
    pub fn step(&mut self) -> (r: Vec<(usize, bool)>)
        requires
            old(self).wf(),
            old(self).generation < usize::MAX,
        ensures
            final(self).wf(),
            final(self).width == old(self).width,
            final(self).height == old(self).height,
            final(self).generation == old(self).generation + 1,
            final(self).cells@.len() == old(self).cells@.len(),
            forall|i: int|
                0 <= i < old(self).cells@.len() ==> (#[trigger] final(self).cells@[i]).alive
                    == next_alive(
                    old(self).cells@[i].alive,
                    alive_neighbor_count(old(self).cells@, old(self).cells@[i].neighbors@),
                ),
            r@.len() == relevant_ids(old(self).cells@).len(),
            forall|k: int|
                0 <= k < r@.len() ==> (#[trigger] r@[k]).0 == relevant_ids(old(self).cells@)[k]
                    && r@[k].1 == final(self).cells@[r@[k].0 as int].alive,
    {
        let ghost pre = *self;
        let next_gen = self.compute_next_generation();
        self.update_next_generation(&next_gen);
        proof {
            lemma_step_advances_whole_board(pre, next_gen@);
            lemma_apply_pairs_frame(pre.cells@, next_gen@);
            assert forall|k: int|
                0 <= k < next_gen@.len() implies (#[trigger] next_gen@[k]).0 == relevant_ids(
                pre.cells@,
            )[k] && next_gen@[k].1 == self.cells@[next_gen@[k].0 as int].alive by {
                lemma_relevant_upto_entries(pre.cells@, pre.cells@.len() as int, k);
            }
        }
        next_gen
    }

    /// Direct single-cell write: set the alive flag of the cell with the
    /// given id. Succeeds exactly when the id resolves; an unknown id
    /// reports failure and changes nothing — it is never an error.
    pub fn update_cell_state(&mut self, id: usize, alive: bool) -> (r: (usize, bool))
        ensures
            r.0 == id,
            r.1 == ((id as int) < old(self).cells@.len()),
            final(self).cells@ == set_cell_alive(old(self).cells@, id as int, alive),
            final(self).generation == old(self).generation,
            final(self).width == old(self).width,
            final(self).height == old(self).height,
            old(self).wf() ==> final(self).wf(),
    {
        if id < self.cells.len() {
            let c = &mut self.cells[id];
            c.set_alive(alive);
            proof {
                if old(self).wf() {
                    let w = self.width as int;
                    let h = self.height as int;
                    assert forall|j: int|
                        0 <= j < self.cells@.len() implies cell_slot_ok(self.cells@, w, h, j)
                            && cell_links_ok(self.cells@, w, h, j) by {
                        assert(cell_slot_ok(old(self).cells@, w, h, j));
                        assert(cell_links_ok(old(self).cells@, w, h, j));
                    }
                }
            }
            (id, true)
        } else {
            (id, false)
        }
    }
}

/// How a kill relates the board after the call to the board before it:
/// generation 0, dimensions kept, and every cell equal to its old self with
/// the alive flag overwritten to false.
pub open spec fn kills(pre: Board, post: Board) -> bool {
    &&& post.generation == 0
    &&& post.width == pre.width
    &&& post.height == pre.height
    &&& post.cells@.len() == pre.cells@.len()
    &&& forall|i: int|
        0 <= i < post.cells@.len() ==> post.cells@[i] == (Cell {
            alive: false,
            ..pre.cells@[i]
        })
}

/// Whether cell `i` has been marked after the first `j` cells have been
/// visited by the relevant-set pass: it is an already visited alive cell,
/// or a neighbor of one.
spec fn relevant_upto(cells: Seq<Cell>, i: int, j: int) -> bool {
    (i < j && cells[i].alive) || exists|j2: int|
        0 <= j2 < j && cells[j2].alive && cell_links_to(cells, j2, i)
}

/// A cell marked after `j` visits stays marked after one more.
proof fn lemma_relevant_upto_monotone(cells: Seq<Cell>, i: int, j: int)
    requires
        relevant_upto(cells, i, j),
    ensures
        relevant_upto(cells, i, j + 1),
{
    if !(i < j && cells[i].alive) {
        let j2 = choose|j2: int| 0 <= j2 < j && cells[j2].alive && cell_links_to(cells, j2, i);
        assert(0 <= j2 < j + 1 && cells[j2].alive && cell_links_to(cells, j2, i));
    }
}

/// Visiting cell `j` marks exactly cell `j` itself and its link targets,
/// when `j` is alive, and nothing otherwise.
proof fn lemma_relevant_upto_step(cells: Seq<Cell>, i: int, j: int)
    requires
        0 <= j < cells.len(),
    ensures
        relevant_upto(cells, i, j + 1) == (relevant_upto(cells, i, j) || (i == j
            && cells[j].alive) || (cells[j].alive && cell_links_to(cells, j, i))),
{
    if relevant_upto(cells, i, j + 1) && !relevant_upto(cells, i, j) {
        if i < j + 1 && cells[i].alive {
            assert(i == j);
        } else {
            let j2 = choose|j2: int|
                0 <= j2 < j + 1 && cells[j2].alive && cell_links_to(cells, j2, i);
            if j2 < j {
                assert(relevant_upto(cells, i, j));
            }
            assert(j2 == j);
        }
    }
    if relevant_upto(cells, i, j) {
        lemma_relevant_upto_monotone(cells, i, j);
    }
    if i == j && cells[j].alive {
        assert(i < j + 1 && cells[i].alive);
        assert(relevant_upto(cells, i, j + 1));
    }
    if cells[j].alive && cell_links_to(cells, j, i) {
        assert(0 <= j < j + 1 && cells[j].alive && cell_links_to(cells, j, i));
        assert(relevant_upto(cells, i, j + 1));
    }
}

/// Committing pairs never touches a cell's identity, position or adjacency,
/// nor the arena's length — only alive flags.
proof fn lemma_apply_pairs_frame(cells: Seq<Cell>, pairs: Seq<(usize, bool)>)
    ensures
        apply_pairs(cells, pairs).len() == cells.len(),
        forall|i: int|
            0 <= i < cells.len() ==> {
                let c = #[trigger] apply_pairs(cells, pairs)[i];
                &&& c.id == cells[i].id
                &&& c.x == cells[i].x
                &&& c.y == cells[i].y
                &&& c.neighbors@ == cells[i].neighbors@
            },
    decreases pairs.len(),
{
    if pairs.len() > 0 {
        lemma_apply_pairs_frame(cells, pairs.drop_last());
    }
}

/// An interior coordinate: all 8 Moore candidates are in bounds.
pub open spec fn is_interior(x: int, y: int, width: int, height: int) -> bool {
    0 < x < width - 1 && 0 < y < height - 1
}

/// A corner coordinate of a grid with at least two columns and two rows.
pub open spec fn is_corner(x: int, y: int, width: int, height: int) -> bool {
    width >= 2 && height >= 2 && (x == 0 || x == width - 1) && (y == 0 || y == height - 1)
}

/// A non-corner edge coordinate of a grid with at least two columns and
/// two rows.
pub open spec fn is_noncorner_edge(x: int, y: int, width: int, height: int) -> bool {
    width >= 2 && height >= 2 && (((x == 0 || x == width - 1) && 0 < y < height - 1) || ((y == 0
        || y == height - 1) && 0 < x < width - 1))
}

/// Adjacency is symmetric on a built grid: when cell `i` links to cell
/// `j`, cell `j` links back to cell `i`. Both cells registered the other
/// independently when the graph was built.
pub proof fn lemma_adjacency_symmetric(b: Board, i: int, j: int)
    requires
        b.wf(),
        0 <= i < b.cells@.len(),
        cell_links_to(b.cells@, i, j),
    ensures
        0 <= j < b.cells@.len(),
        cell_links_to(b.cells@, j, i),
{
    let cells = b.cells@;
    let w = b.width as int;
    let h = b.height as int;
    assert(cell_slot_ok(cells, w, h, i));
    assert(cell_links_ok(cells, w, h, i));
    let xi = cells[i].x as int;
    let yi = cells[i].y as int;
    let m = choose|m: int|
        0 <= m < cells[i].neighbors@.len() && (#[trigger] cells[i].neighbors@[m]).id as int
            == j;
    lemma_upto_is_built(xi, yi, w, h);
    lemma_upto_entry_form(xi, yi, w, h, 8, m);
    let t = choose|t: int|
        {
            let d = #[trigger] moore_offset(t);
            &&& 0 <= t < 8
            &&& in_grid(w, h, xi + d.0, yi + d.1)
            &&& built_links_upto(xi, yi, w, h, 8)[m].id as int == pos_id(
                h,
                xi + d.0,
                yi + d.1,
            )
        };
    let d = moore_offset(t);
    let xn = xi + d.0;
    let yn = yi + d.1;
    assert(j == pos_id(h, xn, yn));
    lemma_pos_id_bound(xn, yn, w, h);
    assert(0 <= j < cells.len());
    assert(cell_slot_ok(cells, w, h, j));
    let xj = cells[j].x as int;
    let yj = cells[j].y as int;
    lemma_pos_id_injective(h, xj, yj, xn, yn);
    lemma_moore_offset_negation(t);
    let t2 = choose|t2: int|
        0 <= t2 < 8 && #[trigger] moore_offset(t2) == (-d.0, -d.1);
    assert(xj + moore_offset(t2).0 == xi && yj + moore_offset(t2).1 == yi);
    assert(in_grid(w, h, xi, yi));
    lemma_upto_has_offset_entry(xj, yj, w, h, 8, t2);
    assert(pos_id(h, xi, yi) == i);
    assert(cell_links_ok(cells, w, h, j));
    lemma_upto_is_built(xj, yj, w, h);
    let m2 = choose|m2: int|
        0 <= m2 < built_links_upto(xj, yj, w, h, 8).len() && (#[trigger] built_links_upto(
            xj,
            yj,
            w,
            h,
            8,
        )[m2]).id as int == i;
    assert((cells[j].neighbors@[m2]).id as int == i);
    assert(links_to_upto(cells, j, i, cells[j].neighbors@.len() as int));
}

/// The relevant-set restriction is sound, not approximate: a cell that is
/// neither alive nor a neighbor of an alive cell keeps its flag under the
/// life rule, because every one of its neighbors is dead and a dead cell
/// with zero alive neighbors can never satisfy the birth rule.
pub proof fn lemma_irrelevant_cell_keeps_its_flag(b: Board, i: int)
    requires
        b.wf(),
        0 <= i < b.cells@.len(),
        !is_relevant(b.cells@, i),
    ensures
        next_alive(b.cells@[i].alive, alive_neighbor_count(b.cells@, b.cells@[i].neighbors@))
            == b.cells@[i].alive,
{
    let cells = b.cells@;
    assert(!cells[i].alive);
    assert forall|m: int|
        0 <= m < cells[i].neighbors@.len() implies !link_is_alive(
        cells,
        #[trigger] cells[i].neighbors@[m],
    ) by {
        let t = cells[i].neighbors@[m].id as int;
        if t < cells.len() && cells[t].alive {
            assert(cell_links_to(cells, i, t));
            lemma_adjacency_symmetric(b, i, t);
            assert(is_relevant(cells, i));
        }
    }
    crate::cell::lemma_alive_count_zero(
        cells,
        cells[i].neighbors@,
        cells[i].neighbors@.len() as int,
    );
}

/// The built adjacency of an interior cell has exactly 8 entries, of a
/// corner cell exactly 3, and of a non-corner edge cell exactly 5.
pub proof fn lemma_built_link_counts(x: int, y: int, width: int, height: int)
    requires
        0 <= x < width,
        0 <= y < height,
    ensures
        is_interior(x, y, width, height) ==> built_links(x, y, width, height).len() == 8,
        is_corner(x, y, width, height) ==> built_links(x, y, width, height).len() == 3,
        is_noncorner_edge(x, y, width, height) ==> built_links(x, y, width, height).len() == 5,
{
}

/// For every built grid: an interior cell has exactly 8 neighbor entries,
/// a corner cell exactly 3, and a non-corner edge cell exactly 5.
pub proof fn lemma_neighbor_entry_counts(b: Board, i: int)
    requires
        b.wf(),
        0 <= i < b.cells@.len(),
    ensures
        is_interior(b.cells@[i].x as int, b.cells@[i].y as int, b.width as int, b.height as int)
            ==> b.cells@[i].neighbors@.len() == 8,
        is_corner(b.cells@[i].x as int, b.cells@[i].y as int, b.width as int, b.height as int)
            ==> b.cells@[i].neighbors@.len() == 3,
        is_noncorner_edge(
            b.cells@[i].x as int,
            b.cells@[i].y as int,
            b.width as int,
            b.height as int,
        ) ==> b.cells@[i].neighbors@.len() == 5,
{
    assert(cell_slot_ok(b.cells@, b.width as int, b.height as int, i));
    assert(cell_links_ok(b.cells@, b.width as int, b.height as int, i));
    lemma_built_link_counts(
        b.cells@[i].x as int,
        b.cells@[i].y as int,
        b.width as int,
        b.height as int,
    );
}

/// Killing the board twice yields exactly the state the first kill left:
/// the same all-dead cells, the same dimensions, and generation 0 both
/// times.
pub proof fn lemma_kill_board_idempotent(b0: Board, b1: Board, b2: Board)
    requires
        kills(b0, b1),
        kills(b1, b2),
    ensures
        b2.generation == b1.generation,
        b2.width == b1.width,
        b2.height == b1.height,
        b2.cells@ == b1.cells@,
        forall|i: int| 0 <= i < b1.cells@.len() ==> !(#[trigger] b1.cells@[i]).alive,
{
    assert(b2.cells@ =~= b1.cells@);
}

/// No cell of an all-dead prefix is relevant.
proof fn lemma_no_relevant_upto(cells: Seq<Cell>, m: int)
    requires
        forall|i: int| 0 <= i < cells.len() ==> !(#[trigger] cells[i]).alive,
        0 <= m <= cells.len(),
    ensures
        relevant_ids_upto(cells, m).len() == 0,
    decreases m,
{
    if m > 0 {
        lemma_no_relevant_upto(cells, m - 1);
        if is_relevant(cells, m - 1) {
            if !cells[m - 1].alive {
                let j2 = choose|j: int|
                    0 <= j < cells.len() && cells[j].alive && cell_links_to(cells, j, m - 1);
                assert(!cells[j2].alive);
            }
            assert(false);
        }
    }
}

/// On an all-dead board no cell is relevant, so the compute phase of a
/// step returns an empty list.
pub proof fn lemma_all_dead_board_has_no_relevant_cells(cells: Seq<Cell>)
    requires
        forall|i: int| 0 <= i < cells.len() ==> !(#[trigger] cells[i]).alive,
    ensures
        relevant_ids(cells).len() == 0,
{
    lemma_no_relevant_upto(cells, cells.len() as int);
}

/// The commit phase never alters a cell whose id is absent from its input
/// pairs: such a cell is left bit-for-bit unchanged.
pub proof fn lemma_commit_leaves_absent_cells_unchanged(
    cells: Seq<Cell>,
    pairs: Seq<(usize, bool)>,
    i: int,
)
    requires
        0 <= i < cells.len(),
        forall|k: int| 0 <= k < pairs.len() ==> (#[trigger] pairs[k]).0 as int != i,
    ensures
        apply_pairs(cells, pairs)[i] == cells[i],
    decreases pairs.len(),
{
    if pairs.len() > 0 {
        assert forall|k: int|
            0 <= k < pairs.drop_last().len() implies (#[trigger] pairs.drop_last()[k]).0 as int
            != i by {
            assert(pairs.drop_last()[k] == pairs[k]);
        }
        lemma_commit_leaves_absent_cells_unchanged(cells, pairs.drop_last(), i);
        lemma_apply_pairs_frame(cells, pairs.drop_last());
        assert(pairs.last() == pairs[pairs.len() - 1]);
    }
}

/// Every id among the first `m` slots' relevant ids names a relevant cell
/// below `m`.
proof fn lemma_relevant_upto_entries(cells: Seq<Cell>, m: int, k: int)
    requires
        m - 1 <= usize::MAX,
        0 <= k < relevant_ids_upto(cells, m).len(),
    ensures
        0 <= (relevant_ids_upto(cells, m)[k] as int) < m,
        is_relevant(cells, relevant_ids_upto(cells, m)[k] as int),
    decreases m,
{
    if m > 0 {
        let prefix = relevant_ids_upto(cells, m - 1);
        if k < prefix.len() {
            lemma_relevant_upto_entries(cells, m - 1, k);
            assert(relevant_ids_upto(cells, m)[k] == prefix[k]);
        } else {
            assert(is_relevant(cells, m - 1));
            assert(relevant_ids_upto(cells, m)[k] == ((m - 1) as usize));
        }
    }
}

/// The relevant ids are listed in strictly increasing order.
proof fn lemma_relevant_upto_increasing(cells: Seq<Cell>, m: int, k1: int, k2: int)
    requires
        m - 1 <= usize::MAX,
        0 <= k1 < k2 < relevant_ids_upto(cells, m).len(),
    ensures
        (relevant_ids_upto(cells, m)[k1] as int) < (relevant_ids_upto(cells, m)[k2] as int),
    decreases m,
{
    if m > 0 {
        let prefix = relevant_ids_upto(cells, m - 1);
        if k2 < prefix.len() {
            lemma_relevant_upto_increasing(cells, m - 1, k1, k2);
            assert(relevant_ids_upto(cells, m)[k1] == prefix[k1]);
            assert(relevant_ids_upto(cells, m)[k2] == prefix[k2]);
        } else {
            lemma_relevant_upto_entries(cells, m - 1, k1);
            assert(relevant_ids_upto(cells, m)[k1] == prefix[k1]);
            assert(relevant_ids_upto(cells, m)[k2] == ((m - 1) as usize));
        }
    }
}

/// Every relevant cell below `m` appears among the first `m` slots'
/// relevant ids.
proof fn lemma_relevant_upto_complete(cells: Seq<Cell>, m: int, i: int)
    requires
        m - 1 <= usize::MAX,
        0 <= i < m,
        is_relevant(cells, i),
    ensures
        exists|k: int|
            0 <= k < relevant_ids_upto(cells, m).len() && (#[trigger] relevant_ids_upto(
                cells,
                m,
            )[k]) as int == i,
    decreases m,
{
    let prefix = relevant_ids_upto(cells, m - 1);
    if i == m - 1 {
        assert(relevant_ids_upto(cells, m)[prefix.len() as int] == ((m - 1) as usize));
    } else {
        lemma_relevant_upto_complete(cells, m - 1, i);
        let k = choose|k: int|
            0 <= k < prefix.len() && (#[trigger] prefix[k]) as int == i;
        assert(relevant_ids_upto(cells, m)[k] == prefix[k]);
    }
}

/// Committing pairs with pairwise distinct ids writes the flag of pair `k`
/// to the cell that pair addresses.
proof fn lemma_apply_pairs_distinct(cells: Seq<Cell>, pairs: Seq<(usize, bool)>, k: int, i: int)
    requires
        forall|k1: int, k2: int|
            0 <= k1 < k2 < pairs.len() ==> (#[trigger] pairs[k1]).0 != (#[trigger] pairs[
                k2
            ]).0,
        0 <= k < pairs.len(),
        pairs[k].0 as int == i,
        0 <= i < cells.len(),
    ensures
        apply_pairs(cells, pairs)[i] == (Cell { alive: pairs[k].1, ..cells[i] }),
    decreases pairs.len(),
{
    let prev = pairs.drop_last();
    assert forall|k1: int, k2: int|
        0 <= k1 < k2 < prev.len() implies (#[trigger] prev[k1]).0 != (#[trigger] prev[
        k2
    ]).0 by {
        assert(prev[k1] == pairs[k1]);
        assert(prev[k2] == pairs[k2]);
    }
    if k == pairs.len() - 1 {
        assert forall|k3: int|
            0 <= k3 < prev.len() implies (#[trigger] prev[k3]).0 as int != i by {
            assert(prev[k3] == pairs[k3]);
            assert(pairs[k3].0 != pairs[k].0);
        }
        lemma_commit_leaves_absent_cells_unchanged(cells, prev, i);
        lemma_apply_pairs_frame(cells, prev);
        assert(pairs.last() == pairs[k]);
    } else {
        assert(prev[k] == pairs[k]);
        lemma_apply_pairs_distinct(cells, prev, k, i);
        lemma_apply_pairs_frame(cells, prev);
        assert(pairs.last() == pairs[pairs.len() - 1]);
        assert(pairs[pairs.len() - 1].0 != pairs[k].0);
    }
}

/// One full step — the commit phase applied to exactly what the compute
/// phase returned — advances every cell of the board by the life rule.
/// Restricting evaluation to the relevant set loses nothing: the cells the
/// compute phase skipped keep the very flag the rule would assign them.
pub proof fn lemma_step_advances_whole_board(b: Board, pairs: Seq<(usize, bool)>)
    requires
        b.wf(),
        pairs.len() == relevant_ids(b.cells@).len(),
        forall|k: int|
            0 <= k < pairs.len() ==> {
                let id = relevant_ids(b.cells@)[k];
                &&& (#[trigger] pairs[k]).0 == id
                &&& pairs[k].1 == next_alive(
                    b.cells@[id as int].alive,
                    alive_neighbor_count(b.cells@, b.cells@[id as int].neighbors@),
                )
            },
    ensures
        forall|i: int|
            0 <= i < b.cells@.len() ==> (#[trigger] apply_pairs(b.cells@, pairs)[i]).alive
                == next_alive(
                b.cells@[i].alive,
                alive_neighbor_count(b.cells@, b.cells@[i].neighbors@),
            ),
{
    let cells = b.cells@;
    let n = cells.len() as int;
    assert(n <= usize::MAX);
    assert forall|k1: int, k2: int|
        0 <= k1 < k2 < pairs.len() implies (#[trigger] pairs[k1]).0 != (#[trigger] pairs[
        k2
    ]).0 by {
        lemma_relevant_upto_increasing(cells, n, k1, k2);
    }
    assert forall|i: int|
        0 <= i < n implies (#[trigger] apply_pairs(cells, pairs)[i]).alive == next_alive(
        cells[i].alive,
        alive_neighbor_count(cells, cells[i].neighbors@),
    ) by {
        if is_relevant(cells, i) {
            lemma_relevant_upto_complete(cells, n, i);
            let k = choose|k: int|
                0 <= k < relevant_ids_upto(cells, n).len() && (#[trigger] relevant_ids_upto(
                    cells,
                    n,
                )[k]) as int == i;
            lemma_apply_pairs_distinct(cells, pairs, k, i);
        } else {
            assert forall|k: int|
                0 <= k < pairs.len() implies (#[trigger] pairs[k]).0 as int != i by {
                lemma_relevant_upto_entries(cells, n, k);
            }
            lemma_commit_leaves_absent_cells_unchanged(cells, pairs, i);
            lemma_irrelevant_cell_keeps_its_flag(b, i);
        }
    }
}

/// An in-bounds position maps to an arena id below `width * height`.
pub proof fn lemma_pos_id_bound(x: int, y: int, width: int, height: int)
    by (nonlinear_arith)
    requires
        0 <= x < width,
        0 <= y < height,
    ensures
        0 <= pos_id(height, x, y) < width * height,
{
}

/// Positional ids are unique: two coordinates with the same id are the
/// same coordinate.
pub proof fn lemma_pos_id_injective(height: int, x1: int, y1: int, x2: int, y2: int)
    by (nonlinear_arith)
    requires
        0 <= y1 < height,
        0 <= y2 < height,
        pos_id(height, x1, y1) == pos_id(height, x2, y2),
    ensures
        x1 == x2,
        y1 == y2,
{
}

/// Whether some entry of `links` resolves through id `id`.
pub open spec fn links_has_id(links: Seq<NeighborLink>, id: int) -> bool {
    exists|m: int| 0 <= m < links.len() && (#[trigger] links[m]).id as int == id
}

/// Negating a Moore offset gives a Moore offset again.
proof fn lemma_moore_offset_negation(t: int)
    requires
        0 <= t < 8,
    ensures
        exists|t2: int|
            0 <= t2 < 8 && #[trigger] moore_offset(t2) == (
                -moore_offset(t).0,
                -moore_offset(t).1,
            ),
{
    if t == 0 {
        assert(moore_offset(7) == (1int, 1int));
    } else if t == 1 {
        assert(moore_offset(6) == (0int, 1int));
    } else if t == 2 {
        assert(moore_offset(5) == (-1int, 1int));
    } else if t == 3 {
        assert(moore_offset(4) == (1int, 0int));
    } else if t == 4 {
        assert(moore_offset(3) == (-1int, 0int));
    } else if t == 5 {
        assert(moore_offset(2) == (1int, -1int));
    } else if t == 6 {
        assert(moore_offset(1) == (0int, -1int));
    } else {
        assert(moore_offset(0) == (-1int, -1int));
    }
}

/// The entries contributed by the first `k` offsets include, for every
/// in-bounds candidate among those offsets, the id of the cell there.
proof fn lemma_upto_has_offset_entry(x: int, y: int, width: int, height: int, k: int, t: int)
    requires
        width <= usize::MAX,
        height <= usize::MAX,
        width * height <= usize::MAX,
        0 <= t < k <= 8,
        in_grid(width, height, x + moore_offset(t).0, y + moore_offset(t).1),
    ensures
        links_has_id(
            built_links_upto(x, y, width, height, k),
            pos_id(height, x + moore_offset(t).0, y + moore_offset(t).1),
        ),
    decreases k,
{
    let d = moore_offset(t);
    let target = pos_id(height, x + d.0, y + d.1);
    let prefix = built_links_upto(x, y, width, height, k - 1);
    let dlast = moore_offset(k - 1);
    let last = maybe_link(x, y, dlast.0, dlast.1, width, height);
    if t == k - 1 {
        lemma_pos_id_bound(x + d.0, y + d.1, width, height);
        lemma_maybe_link_fields(x, y, dlast.0, dlast.1, width, height);
        assert(built_links_upto(x, y, width, height, k)[prefix.len() as int] == last[0]);
        assert(last[0].id as int == target);
    } else {
        lemma_upto_has_offset_entry(x, y, width, height, k - 1, t);
        let m = choose|m: int|
            0 <= m < prefix.len() && (#[trigger] prefix[m]).id as int == target;
        assert(built_links_upto(x, y, width, height, k)[m] == prefix[m]);
    }
}

/// Every entry among the first `k` offsets' contributions records an
/// in-bounds Moore-offset coordinate of `(x, y)` and the id of the cell
/// there.
proof fn lemma_upto_entry_form(x: int, y: int, width: int, height: int, k: int, m: int)
    requires
        width <= usize::MAX,
        height <= usize::MAX,
        width * height <= usize::MAX,
        0 <= k <= 8,
        0 <= m < built_links_upto(x, y, width, height, k).len(),
    ensures
        exists|t: int|
            {
                let d = #[trigger] moore_offset(t);
                &&& 0 <= t < k
                &&& in_grid(width, height, x + d.0, y + d.1)
                &&& built_links_upto(x, y, width, height, k)[m].id as int == pos_id(
                    height,
                    x + d.0,
                    y + d.1,
                )
            },
    decreases k,
{
    let prefix = built_links_upto(x, y, width, height, k - 1);
    let dlast = moore_offset(k - 1);
    if m < prefix.len() {
        lemma_upto_entry_form(x, y, width, height, k - 1, m);
        assert(built_links_upto(x, y, width, height, k)[m] == prefix[m]);
        let t = choose|t: int|
            {
                let d = #[trigger] moore_offset(t);
                &&& 0 <= t < k - 1
                &&& in_grid(width, height, x + d.0, y + d.1)
                &&& prefix[m].id as int == pos_id(height, x + d.0, y + d.1)
            };
        assert(0 <= t < k && in_grid(width, height, x + moore_offset(t).0, y + moore_offset(
            t,
        ).1) && built_links_upto(x, y, width, height, k)[m].id as int == pos_id(
            height,
            x + moore_offset(t).0,
            y + moore_offset(t).1,
        ));
    } else {
        let last = maybe_link(x, y, dlast.0, dlast.1, width, height);
        lemma_maybe_link_fields(x, y, dlast.0, dlast.1, width, height);
        assert(built_links_upto(x, y, width, height, k)[m] == last[m - prefix.len()]);
        lemma_pos_id_bound(x + dlast.0, y + dlast.1, width, height);
        assert(0 <= k - 1 < k && in_grid(width, height, x + moore_offset(k - 1).0, y
            + moore_offset(k - 1).1) && built_links_upto(x, y, width, height, k)[m].id as int
            == pos_id(height, x + moore_offset(k - 1).0, y + moore_offset(k - 1).1));
    }
}

/// Every entry of `maybe_link` carries the offset coordinate and the arena
/// id that coordinate maps to.
proof fn lemma_maybe_link_fields(x: int, y: int, dx: int, dy: int, width: int, height: int)
    requires
        width <= usize::MAX,
        height <= usize::MAX,
        width * height <= usize::MAX,
    ensures
        forall|m: int|
            0 <= m < maybe_link(x, y, dx, dy, width, height).len() ==> {
                let l = #[trigger] maybe_link(x, y, dx, dy, width, height)[m];
                &&& l.x as int == x + dx
                &&& l.y as int == y + dy
                &&& l.id as int == pos_id(height, x + dx, y + dy)
            },
{
    if in_grid(width, height, x + dx, y + dy) {
        lemma_pos_id_bound(x + dx, y + dy, width, height);
    }
}

/// The Moore offsets are pairwise distinct.
proof fn lemma_moore_offsets_distinct()
    ensures
        forall|j: int, k: int| 0 <= j < k < 8 ==> moore_offset(j) != moore_offset(k),
{
}

/// A coordinate reached by an offset not among the first `k` Moore offsets
/// does not occur among the entries those offsets contributed.
proof fn lemma_upto_no_coord(x: int, y: int, width: int, height: int, k: int, dx: int, dy: int)
    requires
        width <= usize::MAX,
        height <= usize::MAX,
        width * height <= usize::MAX,
        0 <= k <= 8,
        forall|j: int| 0 <= j < k ==> moore_offset(j) != (dx, dy),
    ensures
        !links_has_coord(built_links_upto(x, y, width, height, k), x + dx, y + dy),
    decreases k,
{
    if k > 0 {
        lemma_upto_no_coord(x, y, width, height, k - 1, dx, dy);
        let dprev = moore_offset(k - 1);
        lemma_maybe_link_fields(x, y, dprev.0, dprev.1, width, height);
        let prefix = built_links_upto(x, y, width, height, k - 1);
        let last = maybe_link(x, y, dprev.0, dprev.1, width, height);
        assert forall|m: int|
            0 <= m < built_links_upto(x, y, width, height, k).len() implies !((#[trigger]
        built_links_upto(x, y, width, height, k)[m]).x as int == x + dx && built_links_upto(
            x,
            y,
            width,
            height,
            k,
        )[m].y as int == y + dy) by {
            if m < prefix.len() {
                assert(built_links_upto(x, y, width, height, k)[m] == prefix[m]);
                assert(!(prefix[m].x as int == x + dx && prefix[m].y as int == y + dy));
            } else {
                assert(built_links_upto(x, y, width, height, k)[m] == last[m - prefix.len()]);
            }
        }
    }
}

/// Visiting all 8 Moore offsets in order yields exactly the full adjacency.
proof fn lemma_upto_is_built(x: int, y: int, width: int, height: int)
    ensures
        built_links_upto(x, y, width, height, 8) == built_links(x, y, width, height),
{
    reveal_with_fuel(built_links_upto, 9);
    assert(built_links_upto(x, y, width, height, 8) =~= built_links(x, y, width, height));
}

/// The Moore offsets as executable data, in the order the builder uses.
fn moore_offsets() -> (r: Vec<(isize, isize)>)
    ensures
        r@.len() == 8,
        forall|k: int|
            0 <= k < 8 ==> ((#[trigger] r@[k]).0 as int, r@[k].1 as int) == moore_offset(k),
{
    let mut r: Vec<(isize, isize)> = Vec::new();
    r.push((-1, -1));
    r.push((0, -1));
    r.push((1, -1));
    r.push((-1, 0));
    r.push((1, 0));
    r.push((-1, 1));
    r.push((0, 1));
    r.push((1, 1));
    r
}

/// Try to register the neighbor reached from `c`'s position by `(dx, dy)`:
/// the adjacency gains that one entry when the candidate coordinate is in
/// bounds, and nothing otherwise.
fn add_link_at_offset(c: &mut Cell, dx: isize, dy: isize, width: usize, height: usize)
    requires
        (old(c).x as int) < width as int,
        (old(c).y as int) < height as int,
        (width as int) * (height as int) <= usize::MAX,
        !links_has_coord(
            old(c).neighbors@,
            old(c).x as int + dx as int,
            old(c).y as int + dy as int,
        ),
    ensures
        final(c).id == old(c).id,
        final(c).alive == old(c).alive,
        final(c).x == old(c).x,
        final(c).y == old(c).y,
        final(c).neighbors@ == old(c).neighbors@ + maybe_link(
            old(c).x as int,
            old(c).y as int,
            dx as int,
            dy as int,
            width as int,
            height as int,
        ),
{
    let ghost gx = c.x as int + dx as int;
    let ghost gy = c.y as int + dy as int;
    let nxo = Cell::offset_position(c.x, dx);
    let nyo = Cell::offset_position(c.y, dy);
    if nxo.is_some() && nyo.is_some() {
        let nx = nxo.unwrap();
        let ny = nyo.unwrap();
        if nx < width && ny < height {
            proof {
                lemma_pos_id_bound(nx as int, ny as int, width as int, height as int);
            }
            let id = nx * height + ny;
            c.add_neighbor(nx, ny, id);
            proof {
                assert(c.neighbors@ =~= old(c).neighbors@ + maybe_link(
                    old(c).x as int,
                    old(c).y as int,
                    dx as int,
                    dy as int,
                    width as int,
                    height as int,
                ));
            }
        } else {
            proof {
                assert(c.neighbors@ =~= old(c).neighbors@ + maybe_link(
                    old(c).x as int,
                    old(c).y as int,
                    dx as int,
                    dy as int,
                    width as int,
                    height as int,
                ));
            }
        }
    } else {
        proof {
            assert(c.neighbors@ =~= old(c).neighbors@ + maybe_link(
                old(c).x as int,
                old(c).y as int,
                dx as int,
                dy as int,
                width as int,
                height as int,
            ));
        }
    }
}

} // verus!
