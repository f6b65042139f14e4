use vstd::prelude::*;

verus! {

broadcast use vstd::std_specs::vec::group_vec_axioms;

/// Error type of the grid engine.
#[derive(Clone, Copy, PartialEq, Eq, Structural, Debug)]
pub enum GridError {
    /// Construction was asked for a grid with a zero dimension.
    InvalidDimensions,
    /// A direct public read named a coordinate outside the grid.
    OutOfBounds,
}

/// Mathematical model of a grid: its dimensions and the row-major
/// sequence of cell states (`true` is alive).
pub ghost struct GridModel {
    pub width: nat,
    pub height: nat,
    pub cells: Seq<bool>,
}

/// 1 for an alive cell, 0 for a dead one.
pub open spec fn alive_as_int(b: bool) -> int {
    if b {
        1
    } else {
        0
    }
}

impl GridModel {
    /// Structural invariant: positive dimensions and exactly
    /// `width * height` cells stored row-major.
    pub open spec fn wf(self) -> bool {
        &&& self.width > 0
        &&& self.height > 0
        &&& self.cells.len() == self.width * self.height
    }

    pub open spec fn in_bounds(self, x: int, y: int) -> bool {
        0 <= x < self.width && 0 <= y < self.height
    }

    /// Cell state at in-bounds coordinates.
    pub open spec fn cell(self, x: int, y: int) -> bool {
        self.cells[y * self.width + x]
    }

    /// Clamped read: a coordinate outside the grid counts as dead.
    pub open spec fn alive(self, x: int, y: int) -> bool {
        self.in_bounds(x, y) && self.cell(x, y)
    }

    /// Number of alive cells among the 8 neighbors of `(x, y)`, the cell
    /// itself excluded, under the clamped boundary policy.
    pub open spec fn neighbor_count(self, x: int, y: int) -> int {
        alive_as_int(self.alive(x - 1, y - 1)) + alive_as_int(self.alive(x, y - 1)) + alive_as_int(
            self.alive(x + 1, y - 1),
        ) + alive_as_int(self.alive(x - 1, y)) + alive_as_int(self.alive(x + 1, y)) + alive_as_int(
            self.alive(x - 1, y + 1),
        ) + alive_as_int(self.alive(x, y + 1)) + alive_as_int(self.alive(x + 1, y + 1))
    }

    /// Conway's rule for one cell, read from this generation.
    pub open spec fn next_state(self, x: int, y: int) -> bool {
        if self.alive(x, y) {
            self.neighbor_count(x, y) == 2 || self.neighbor_count(x, y) == 3
        } else {
            self.neighbor_count(x, y) == 3
        }
    }

    /// `post` is the generation that follows `self`: same dimensions, and
    /// every cell computed by the rule from `self` alone.
    pub open spec fn stepped(self, post: GridModel) -> bool {
        &&& post.width == self.width
        &&& post.height == self.height
        &&& post.cells.len() == self.cells.len()
        &&& forall|x: int, y: int|
            self.in_bounds(x, y) ==> post.cell(x, y) == self.next_state(x, y)
    }

    pub open spec fn all_dead(self) -> bool {
        forall|x: int, y: int| !self.alive(x, y)
    }

    pub open spec fn all_alive(self) -> bool {
        forall|x: int, y: int| self.in_bounds(x, y) ==> #[trigger] self.alive(x, y)
    }

    /// Exactly one cell is alive, the one at `(cx, cy)`.
    pub open spec fn only_alive_at(self, cx: int, cy: int) -> bool {
        &&& self.alive(cx, cy)
        &&& forall|x: int, y: int| #[trigger] self.alive(x, y) ==> x == cx && y == cy
    }
}

/// A fully dead grid remains fully dead: the rule lets no cell be born
/// without alive neighbors, so any number of steps keeps every cell dead.
pub proof fn lemma_dead_grid_stays_dead(pre: GridModel, post: GridModel)
    requires
        pre.wf(),
        pre.all_dead(),
        pre.stepped(post),
    ensures
        post.all_dead(),
{
    assert forall|x: int, y: int| !post.alive(x, y) by {
        if post.in_bounds(x, y) {
            assert(pre.neighbor_count(x, y) == 0);
            assert(post.cell(x, y) == pre.next_state(x, y));
        }
    }
}

/// A single alive cell in an otherwise dead grid of size at least 3 by 3
/// has no alive neighbors, so it dies, and no other cell has the three
/// neighbors a birth needs: one step leaves the grid fully dead.
pub proof fn lemma_lone_cell_dies(pre: GridModel, post: GridModel, cx: int, cy: int)
    requires
        pre.wf(),
        pre.width >= 3,
        pre.height >= 3,
        pre.only_alive_at(cx, cy),
        pre.stepped(post),
    ensures
        post.all_dead(),
{
    assert forall|x: int, y: int| !post.alive(x, y) by {
        if post.in_bounds(x, y) {
            assert(pre.neighbor_count(x, y) <= 1);
            assert(post.cell(x, y) == pre.next_state(x, y));
        }
    }
}

/// In a fully alive square grid of side at least 2, the corner cell
/// `(0, 0)` has exactly 3 alive neighbors: only its three in-bounds
/// neighbors count, and every clamped off-grid read yields dead.
pub proof fn lemma_corner_neighbors_all_alive(g: GridModel)
    requires
        g.wf(),
        g.width == g.height,
        g.width >= 2,
        g.all_alive(),
    ensures
        g.neighbor_count(0, 0) == 3,
{
    assert(g.alive(1, 0));
    assert(g.alive(0, 1));
    assert(g.alive(1, 1));
}

/// A row-major index computed from in-bounds coordinates lies inside the
/// cell storage.
pub proof fn lemma_row_major_index(w: int, h: int, x: int, y: int) by (nonlinear_arith)
    requires
        0 <= x < w,
        0 <= y < h,
    ensures
        0 <= y * w + x < w * h,
        y * w <= y * w + x,
{
}

/// Each dimension of a non-empty grid is at most the cell count.
pub proof fn lemma_dims_le_area(w: int, h: int) by (nonlinear_arith)
    requires
        w >= 1,
        h >= 1,
    ensures
        w <= w * h,
        h <= w * h,
{
}

/// The rectangular field of boolean cells that the automaton advances.
#[derive(Clone)]
pub struct Field {
    width: usize,
    height: usize,
    cells: Vec<bool>,
}

impl View for Field {
    type V = GridModel;

    closed spec fn view(&self) -> GridModel {
        GridModel { width: self.width as nat, height: self.height as nat, cells: self.cells@ }
    }
}

impl Field {
    /// A grid with every cell alive. Rejects a zero dimension.
    pub fn new(width: usize, height: usize) -> (r: Result<Field, GridError>)
        requires
            width * height <= usize::MAX,
        ensures
            r is Ok <==> (width > 0 && height > 0),
            match r {
                Ok(f) => {
                    &&& f@.wf()
                    &&& f@.width == width
                    &&& f@.height == height
                    &&& forall|x: int, y: int| f@.in_bounds(x, y) ==> #[trigger] f@.cell(x, y)
                },
                Err(e) => e == GridError::InvalidDimensions,
            },
    {
        if width == 0 || height == 0 {
            return Err(GridError::InvalidDimensions);
        }
        let n = width * height;
        let mut cells: Vec<bool> = Vec::new();
        let mut i: usize = 0;
        while i < n
            invariant
                i <= n,
                cells@.len() == i,
                forall|k: int| 0 <= k < i ==> #[trigger] cells@[k],
            decreases n - i,
        {
            cells.push(true);
            i = i + 1;
        }
        let f = Field { width, height, cells };
        proof {
            assert forall|x: int, y: int| f@.in_bounds(x, y) implies #[trigger] f@.cell(x, y) by {
                lemma_row_major_index(width as int, height as int, x, y);
            }
        }
        Ok(f)
    }

    /// A grid whose cells are drawn independently from a uniform random
    /// boolean source. Rejects a zero dimension; nothing is promised of
    /// the cell values themselves.
    pub fn new_random(width: usize, height: usize) -> (r: Result<Field, GridError>)
        requires
            width * height <= usize::MAX,
        ensures
            r is Ok <==> (width > 0 && height > 0),
            match r {
                Ok(f) => {
                    &&& f@.wf()
                    &&& f@.width == width
                    &&& f@.height == height
                },
                Err(e) => e == GridError::InvalidDimensions,
            },
    {
        if width == 0 || height == 0 {
            return Err(GridError::InvalidDimensions);
        }
        let n = width * height;
        let mut cells: Vec<bool> = Vec::new();
        let mut i: usize = 0;
        while i < n
            invariant
                i <= n,
                cells@.len() == i,
            decreases n - i,
        {
            cells.push(random_bool());
            i = i + 1;
        }
        Ok(Field { width, height, cells })
    }

    /// Grid width in cells.
    pub fn width(&self) -> (w: usize)
        ensures
            w == self@.width,
    {
        self.width
    }

    /// Grid height in cells.
    pub fn height(&self) -> (h: usize)
        ensures
            h == self@.height,
    {
        self.height
    }

    /// The state of a cell as a number: an alive cell yields 1, a dead
    /// cell yields 0, and a coordinate outside the grid also yields 0.
    pub fn clamped_read(&self, x: usize, y: usize) -> (r: u8)
        requires
            self@.wf(),
        ensures
            r == alive_as_int(self@.alive(x as int, y as int)),
    {
        if x < self.width && y < self.height {
            proof {
                lemma_row_major_index(self.width as int, self.height as int, x as int, y as int);
                assert(self.cells.len() == self@.cells.len());
            }
            let idx = y * self.width + x;
            if self.cells[idx] {
                1
            } else {
                0
            }
        } else {
            0
        }
    }

    /// Alive-neighbor sum for an in-bounds cell; shared by the public
    /// query and by the transition rule.
    fn neighbor_sum(&self, x: usize, y: usize) -> (n: u8)
        requires
            self@.wf(),
            self@.in_bounds(x as int, y as int),
        ensures
            n == self@.neighbor_count(x as int, y as int),
    {
        proof {
            lemma_dims_le_area(self@.width as int, self@.height as int);
        }
        let mut n: u8 = 0;
        if y > 0 {
            if x > 0 {
                n = n + self.clamped_read(x - 1, y - 1);
            }
            n = n + self.clamped_read(x, y - 1);
            n = n + self.clamped_read(x + 1, y - 1);
        }
        if x > 0 {
            n = n + self.clamped_read(x - 1, y);
        }
        n = n + self.clamped_read(x + 1, y);
        if x > 0 {
            n = n + self.clamped_read(x - 1, y + 1);
        }
        n = n + self.clamped_read(x, y + 1);
        n = n + self.clamped_read(x + 1, y + 1);
        n
    }

    /// Direct public read of one cell; a coordinate outside the grid is
    /// an error, not a clamped read.
    pub fn is_alive(&self, x: usize, y: usize) -> (r: Result<bool, GridError>)
        requires
            self@.wf(),
        ensures
            match r {
                Ok(b) => self@.in_bounds(x as int, y as int) && b == self@.cell(x as int, y as int),
                Err(e) => !self@.in_bounds(x as int, y as int) && e == GridError::OutOfBounds,
            },
    {
        if x < self.width && y < self.height {
            proof {
                lemma_row_major_index(self.width as int, self.height as int, x as int, y as int);
                assert(self.cells.len() == self@.cells.len());
            }
            let idx = y * self.width + x;
            Ok(self.cells[idx])
        } else {
            Err(GridError::OutOfBounds)
        }
    }

    /// Number of alive cells among the 8 neighbors of `(x, y)`; out-of-grid
    /// neighbors count as dead, but the queried coordinate itself must be
    /// inside the grid.
    pub fn count_alive_neighbors(&self, x: usize, y: usize) -> (r: Result<u8, GridError>)
        requires
            self@.wf(),
        ensures
            match r {
                Ok(n) => self@.in_bounds(x as int, y as int) && n == self@.neighbor_count(
                    x as int,
                    y as int,
                ),
                Err(e) => !self@.in_bounds(x as int, y as int) && e == GridError::OutOfBounds,
            },
    {
        if x < self.width && y < self.height {
            Ok(self.neighbor_sum(x, y))
        } else {
            Err(GridError::OutOfBounds)
        }
    }

    /// Whether the cell at in-bounds `(x, y)` is alive in the next
    /// generation, read entirely from the current one.
    pub fn will_be_alive(&self, x: usize, y: usize) -> (r: bool)
        requires
            self@.wf(),
            self@.in_bounds(x as int, y as int),
        ensures
            r == self@.next_state(x as int, y as int),
    {
        let n = self.neighbor_sum(x, y);
        proof {
            lemma_row_major_index(self.width as int, self.height as int, x as int, y as int);
            assert(self.cells.len() == self@.cells.len());
        }
        let idx = y * self.width + x;
        if self.cells[idx] {
            n == 2 || n == 3
        } else {
            n == 3
        }
    }

    /// Set one cell; every other cell keeps its state. A coordinate
    /// outside the grid is an error and leaves the grid unchanged.
    pub fn set_alive(&mut self, x: usize, y: usize, value: bool) -> (r: Result<(), GridError>)
        requires
            old(self)@.wf(),
        ensures
            final(self)@.wf(),
            final(self)@.width == old(self)@.width,
            final(self)@.height == old(self)@.height,
            match r {
                Ok(()) => {
                    &&& old(self)@.in_bounds(x as int, y as int)
                    &&& final(self)@.cell(x as int, y as int) == value
                    &&& forall|a: int, b: int|
                        old(self)@.in_bounds(a, b) && !(a == x as int && b == y as int)
                            ==> final(self)@.cell(a, b) == old(self)@.cell(a, b)
                },
                Err(e) => {
                    &&& !old(self)@.in_bounds(x as int, y as int)
                    &&& e == GridError::OutOfBounds
                    &&& final(self)@ == old(self)@
                },
            },
    {
        if x < self.width && y < self.height {
            proof {
                lemma_row_major_index(self.width as int, self.height as int, x as int, y as int);
                assert(self.cells.len() == self@.cells.len());
            }
            let idx = y * self.width + x;
            self.cells.set(idx, value);
            proof {
                assert forall|a: int, b: int|
                    old(self)@.in_bounds(a, b) && !(a == x as int && b == y as int)
                    implies final(self)@.cell(a, b) == old(self)@.cell(a, b) by {
                    lemma_row_major_index(self.width as int, self.height as int, a, b);
                    lemma_row_major_distinct(self.width as int, x as int, y as int, a, b);
                }
            }
            Ok(())
        } else {
            Err(GridError::OutOfBounds)
        }
    }

    /// The next generation's cells, in row-major order, computed wholly
    /// from the current one.
    fn next_cells(&self) -> (v: Vec<bool>)
        requires
            self@.wf(),
        ensures
            v@.len() == self@.cells.len(),
            forall|x: int, y: int|
                self@.in_bounds(x, y) ==> v@[y * self@.width + x] == #[trigger] self@.next_state(
                    x,
                    y,
                ),
    {
        let width = self.width;
        let height = self.height;
        let mut v: Vec<bool> = Vec::new();
        let mut y: usize = 0;
        while y < height
            invariant
                self@.wf(),
                width == self@.width,
                height == self@.height,
                y <= height,
                v@.len() == y * width,
                forall|a: int, b: int|
                    0 <= a < width && 0 <= b < y ==> v@[b * width + a] == #[trigger] self@.next_state(
                        a,
                        b,
                    ),
            decreases height - y,
        {
            let mut x: usize = 0;
            while x < width
                invariant
                    self@.wf(),
                    width == self@.width,
                    height == self@.height,
                    y < height,
                    x <= width,
                    v@.len() == y * width + x,
                    forall|a: int, b: int|
                        0 <= a < width && 0 <= b < y ==> v@[b * width + a]
                            == #[trigger] self@.next_state(a, b),
                    forall|a: int| 0 <= a < x ==> v@[y * width + a] == #[trigger] self@.next_state(
                        a,
                        y as int,
                    ),
                decreases width - x,
            {
                let alive_next = self.will_be_alive(x, y);
                v.push(alive_next);
                proof {
                    assert forall|a: int, b: int| 0 <= a < width && 0 <= b < y implies v@[b * width
                        + a] == #[trigger] self@.next_state(a, b) by {
                        lemma_row_major_index(width as int, y as int, a, b);
                    }
                    assert forall|a: int| 0 <= a < x + 1 implies v@[y * width + a]
                        == #[trigger] self@.next_state(a, y as int) by {
                    }
                }
                x = x + 1;
            }
            proof {
                assert((y + 1) * (width as int) == y * width + width) by (nonlinear_arith);
            }
            y = y + 1;
        }
        proof {
            assert((height as int) * (width as int) == (width as int) * (height as int))
                by (nonlinear_arith);
            assert forall|x: int, yy: int| self@.in_bounds(x, yy) implies v@[yy * self@.width + x]
                == #[trigger] self@.next_state(x, yy) by {
                lemma_row_major_index(width as int, height as int, x, yy);
            }
        }
        v
    }

    /// Advance the whole grid one generation atomically: every cell of the
    /// new state is the rule applied to the state from before this call.
    pub fn update(&mut self)
        requires
            old(self)@.wf(),
        ensures
            final(self)@.wf(),
            old(self)@.stepped(final(self)@),
    {
        let next = self.next_cells();
        self.cells = next;
    }
}

/// Row-major indices of two distinct in-bounds coordinate pairs differ.
pub proof fn lemma_row_major_distinct(w: int, x1: int, y1: int, x2: int, y2: int) by (nonlinear_arith)
    requires
        0 <= x1 < w,
        0 <= x2 < w,
        0 <= y1,
        0 <= y2,
        !(x1 == x2 && y1 == y2),
    ensures
        y1 * w + x1 != y2 * w + x2,
{
}

/// Relies on rand::random::<bool>: one draw from a uniform random boolean
/// source. Nothing can be promised of the value.
#[verifier::external_body]
fn random_bool() -> bool {
    rand::random()
}

} // verus!

