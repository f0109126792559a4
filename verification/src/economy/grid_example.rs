//! An example economy: places on a square grid, connected by roads to their
//! neighbours once all of them are registered.
use vstd::prelude::*;
use crate::kay::ID;

verus! {

/// The number of places along each side of the grid.
pub const GRID_SIZE: usize = 3;

/// `rand::random_range` over `0..n`: an index drawn at random below `n`.
/// Only that the index lies below `n` is claimed; which one it is rests on
/// the thread's random number generator.
#[verifier::external_body]
fn random_index(n: usize) -> (i: usize)
    requires
        n > 0,
    ensures
        i < n,
{
    rand::random_range(0..n)
}

/// The grid of places, filled in as places register.
pub struct GridExample {
    pub grid_size: usize,
    pub grid_ids: Vec<Vec<Option<ID>>>,
    pub grid_created_count: usize,
}

/// Asks a newly created place to register at column `0`, row `1`.
#[derive(Clone, Copy, Debug, PartialEq, Eq, Structural)]
pub struct PleaseRegister(pub usize, pub usize);

/// Place `ID` registers at column `1`, row `2`.
#[derive(Clone, Copy, Debug)]
pub struct RegisterInGrid(pub ID, pub usize, pub usize);

/// The cells of the grid, as a sequence of rows.
pub open spec fn cells(g: &GridExample) -> Seq<Seq<Option<ID>>> {
    g.grid_ids@.map_values(|row: Vec<Option<ID>>| row@)
}

/// A road between neighbouring places: the place that gets the road, and
/// the place the road leads to. For the cell `c` (rows first, among the
/// cells that have a right and a lower neighbour), `j` picks the road to the
/// right, down, from the right and from below.
pub open spec fn road_pair(grid: Seq<Seq<Option<ID>>>, c: int, j: int) -> (ID, ID) {
    let y = c / ((GRID_SIZE - 1) as int);
    let x = c % ((GRID_SIZE - 1) as int);
    let id = grid[y][x]->0;
    let right = grid[y][x + 1]->0;
    let below = grid[y + 1][x]->0;
    if j == 0 {
        (id, right)
    } else if j == 1 {
        (id, below)
    } else if j == 2 {
        (right, id)
    } else {
        (below, id)
    }
}

/// All roads of a completed grid, in the order in which they are laid.
pub open spec fn grid_roads(grid: Seq<Seq<Option<ID>>>) -> Seq<(ID, ID)> {
    Seq::new((4 * (GRID_SIZE - 1) * (GRID_SIZE - 1)) as nat, |i: int| road_pair(grid, i / 4, i % 4))
}

impl GridExample {
    /// The grid is square, of side `GRID_SIZE`.
    pub open spec fn wf(&self) -> bool {
        &&& self.grid_size == GRID_SIZE
        &&& self.grid_ids@.len() == GRID_SIZE
        &&& forall|y: int| 0 <= y < GRID_SIZE ==> (#[trigger] self.grid_ids@[y])@.len() == GRID_SIZE
    }

    /// An empty grid.
    pub fn new() -> (g: GridExample)
        ensures
            g.wf(),
            g.grid_created_count == 0,
            forall|y: int, x: int| 0 <= y < GRID_SIZE && 0 <= x < GRID_SIZE ==> cells(&g)[y][x] is None,
    {
        let mut grid_ids: Vec<Vec<Option<ID>>> = Vec::new();
        let mut y: usize = 0;
        while y < GRID_SIZE
            invariant
                y <= GRID_SIZE,
                grid_ids@.len() == y,
                forall|r: int| 0 <= r < y ==> (#[trigger] grid_ids@[r])@.len() == GRID_SIZE,
                forall|r: int, x: int| 0 <= r < y && 0 <= x < GRID_SIZE ==> grid_ids@[r]@[x] is None,
            decreases GRID_SIZE - y,
        {
            let mut row: Vec<Option<ID>> = Vec::new();
            let mut x: usize = 0;
            while x < GRID_SIZE
                invariant
                    x <= GRID_SIZE,
                    row@.len() == x,
                    forall|c: int| 0 <= c < x ==> row@[c] is None,
                decreases GRID_SIZE - x,
            {
                row.push(None);
                x = x + 1;
            }
            grid_ids.push(row);
            y = y + 1;
        }
        GridExample { grid_size: GRID_SIZE, grid_ids, grid_created_count: 0 }
    }

    /// Handles `RegisterInGrid`: the place is recorded in its cell and
    /// counted. When the count reaches the number of cells, the roads between
    /// all neighbouring places are returned, in laying order, with the place
    /// to start the first pulse at (the top left one). The cell must lie in
    /// the grid, and when the count completes, every cell must be filled.
    pub fn register(&mut self, msg: &RegisterInGrid) -> (done: Option<(Vec<(ID, ID)>, ID)>)
        requires
            old(self).wf(),
            msg.1 < GRID_SIZE,
            msg.2 < GRID_SIZE,
            old(self).grid_created_count < usize::MAX,
            old(self).grid_created_count + 1 == GRID_SIZE * GRID_SIZE ==> forall|y: int, x: int|
                0 <= y < GRID_SIZE && 0 <= x < GRID_SIZE && !(y == msg.2 && x == msg.1) ==> cells(
                    &*old(self),
                )[y][x] is Some,
        ensures
            final(self).wf(),
            final(self).grid_created_count == old(self).grid_created_count + 1,
            cells(&*final(self)) == cells(&*old(self)).update(
                msg.2 as int,
                cells(&*old(self))[msg.2 as int].update(msg.1 as int, Some(msg.0)),
            ),
            final(self).grid_created_count == GRID_SIZE * GRID_SIZE ==> (done matches Some(d) && d.0@ == grid_roads(
                cells(&*final(self)),
            ) && d.1 == cells(&*final(self))[0][0]->0),
            final(self).grid_created_count != GRID_SIZE * GRID_SIZE ==> done is None,
    {
        let RegisterInGrid(id, x, y) = *msg;
        let ghost before = cells(&*self);
        let mut row: Vec<Option<ID>> = Vec::new();
        let mut c: usize = 0;
        while c < GRID_SIZE
            invariant
                self.wf(),
                y < GRID_SIZE,
                c <= GRID_SIZE,
                row@ == self.grid_ids@[y as int]@.subrange(0, c as int),
            decreases GRID_SIZE - c,
        {
            row.push(self.grid_ids[y][c]);
            proof {
                assert(self.grid_ids@[y as int]@.subrange(0, c + 1) =~= self.grid_ids@[y as int]@.subrange(
                    0,
                    c as int,
                ).push(self.grid_ids@[y as int]@[c as int]));
            }
            c = c + 1;
        }
        proof {
            assert(self.grid_ids@[y as int]@.subrange(0, c as int) =~= self.grid_ids@[y as int]@);
        }
        row.set(x, Some(id));
        self.grid_ids.set(y, row);
        self.grid_created_count = self.grid_created_count + 1;
        proof {
            assert(cells(&*self) =~= before.update(y as int, before[y as int].update(x as int, Some(id))));
        }
        if self.grid_created_count == GRID_SIZE * GRID_SIZE {
            let ghost grid = cells(&*self);
            proof {
                assert forall|r: int, q: int| 0 <= r < GRID_SIZE && 0 <= q < GRID_SIZE implies #[trigger] grid[r][q] is Some by {
                    if r == y && q == x {
                    } else {
                        assert(grid[r][q] == before[r][q]);
                    }
                }
            }
            let mut roads: Vec<(ID, ID)> = Vec::new();
            let mut gy: usize = 0;
            while gy < GRID_SIZE - 1
                invariant
                    self.wf(),
                    grid == cells(&*self),
                    forall|r: int, q: int| 0 <= r < GRID_SIZE && 0 <= q < GRID_SIZE ==> #[trigger] grid[r][q] is Some,
                    gy <= GRID_SIZE - 1,
                    roads@ == grid_roads(grid).subrange(0, 4 * (GRID_SIZE - 1) * gy),
                decreases GRID_SIZE - 1 - gy,
            {
                let mut gx: usize = 0;
                while gx < GRID_SIZE - 1
                    invariant
                        self.wf(),
                        grid == cells(&*self),
                        forall|r: int, q: int|
                            0 <= r < GRID_SIZE && 0 <= q < GRID_SIZE ==> #[trigger] grid[r][q] is Some,
                        gy < GRID_SIZE - 1,
                        gx <= GRID_SIZE - 1,
                        roads@ == grid_roads(grid).subrange(0, 4 * ((GRID_SIZE - 1) * gy + gx)),
                    decreases GRID_SIZE - 1 - gx,
                {
                    proof {
                        assert(grid[gy as int] == self.grid_ids@[gy as int]@);
                        assert(grid[gy + 1] == self.grid_ids@[gy + 1]@);
                        assert(grid[gy as int][gx as int] is Some);
                        assert(grid[gy as int][gx + 1] is Some);
                        assert(grid[gy + 1][gx as int] is Some);
                    }
                    let here = self.grid_ids[gy][gx].unwrap();
                    let right = self.grid_ids[gy][gx + 1].unwrap();
                    let below = self.grid_ids[gy + 1][gx].unwrap();
                    roads.push((here, right));
                    roads.push((here, below));
                    roads.push((right, here));
                    roads.push((below, here));
                    proof {
                        let c = (GRID_SIZE - 1) * gy + gx;
                        let s = 4 * c;
                        assert(grid_roads(grid).subrange(0, s + 4) =~= grid_roads(grid).subrange(0, s).push(
                            road_pair(grid, c as int, 0),
                        ).push(road_pair(grid, c as int, 1)).push(road_pair(grid, c as int, 2)).push(
                            road_pair(grid, c as int, 3),
                        ));
                    }
                    gx = gx + 1;
                }
                gy = gy + 1;
            }
            proof {
                assert(grid_roads(grid).subrange(0, 4 * (GRID_SIZE - 1) * gy) =~= grid_roads(grid));
            }
            let start = self.grid_ids[0][0].unwrap();
            Some((roads, start))
        } else {
            None
        }
    }
}

/// The example grid, empty, with the requests that create its places: for
/// each cell, rows first, the index of a randomly picked place template
/// (out of `n_templates`) and the request to register at that cell.
pub fn setup(n_templates: usize) -> (out: (GridExample, Vec<(usize, PleaseRegister)>))
    requires
        n_templates > 0,
    ensures
        out.0.wf(),
        out.0.grid_created_count == 0,
        forall|y: int, x: int| 0 <= y < GRID_SIZE && 0 <= x < GRID_SIZE ==> cells(&out.0)[y][x] is None,
        out.1@.len() == GRID_SIZE * GRID_SIZE,
        forall|k: int|
            0 <= k < out.1@.len() ==> (#[trigger] out.1@[k]).0 < n_templates && out.1@[k].1 == PleaseRegister(
                (k % (GRID_SIZE as int)) as usize,
                (k / (GRID_SIZE as int)) as usize,
            ),
{
    let grid = GridExample::new();
    let mut requests: Vec<(usize, PleaseRegister)> = Vec::new();
    let mut y: usize = 0;
    while y < GRID_SIZE
        invariant
            y <= GRID_SIZE,
            n_templates > 0,
            requests@.len() == GRID_SIZE * y,
            forall|k: int|
                0 <= k < requests@.len() ==> (#[trigger] requests@[k]).0 < n_templates && requests@[k].1
                    == PleaseRegister((k % (GRID_SIZE as int)) as usize, (k / (GRID_SIZE as int)) as usize),
        decreases GRID_SIZE - y,
    {
        let mut x: usize = 0;
        while x < GRID_SIZE
            invariant
                y < GRID_SIZE,
                x <= GRID_SIZE,
                n_templates > 0,
                requests@.len() == GRID_SIZE * y + x,
                forall|k: int|
                    0 <= k < requests@.len() ==> (#[trigger] requests@[k]).0 < n_templates && requests@[k].1
                        == PleaseRegister((k % (GRID_SIZE as int)) as usize, (k / (GRID_SIZE as int)) as usize),
            decreases GRID_SIZE - x,
        {
            let template = random_index(n_templates);
            requests.push((template, PleaseRegister(x, y)));
            x = x + 1;
        }
        y = y + 1;
    }
    (grid, requests)
}

/// Roads go both ways: for every road of the grid, the place it leads to
/// also gets a road back to the place it starts at.
pub proof fn lemma_roads_both_ways(grid: Seq<Seq<Option<ID>>>, i: int) -> (j: int)
    requires
        0 <= i < grid_roads(grid).len(),
    ensures
        0 <= j < grid_roads(grid).len(),
        grid_roads(grid)[j] == (grid_roads(grid)[i].1, grid_roads(grid)[i].0),
{
    let j = if i % 4 < 2 { i + 2 } else { i - 2 };
    assert(j / 4 == i / 4 && j % 4 == (if i % 4 < 2 { i % 4 + 2 } else { i % 4 - 2 })) by (nonlinear_arith)
        requires
            j == (if i % 4 < 2 { i + 2 } else { i - 2 }),
            0 <= i,
    ;
    assert(grid_roads(grid).len() == 16);
    assert(0 <= j < 16) by (nonlinear_arith)
        requires
            j == (if i % 4 < 2 { i + 2 } else { i - 2 }),
            0 <= i < 16,
    ;
    j
}

} // verus!
