use vstd::prelude::*;

verus! {

/// The kind of one grid cell.
#[derive(Debug, Clone, Copy, PartialEq, Eq, Structural)]
pub enum Cell {
    Wall,
    Path,
    /// A dedicated spawn location.
    SpawnPoint,
    /// Walkable, but offers protection.
    Cover,
}

/// A level: its size, its grid of cells (row-major, `grid[y][x]`) and metadata.
#[derive(Debug)]
pub struct Maze {
    pub width: usize,
    pub height: usize,
    pub grid: Vec<Vec<Cell>>,
    pub level_id: u32,
    pub name: String,
    pub description: String,
    pub max_players: u8,
}

/// A cell kind on which a player may stand.
pub open spec fn walkable_kind(c: Cell) -> bool {
    c != Cell::Wall
}

/// A class of cells that a scan of the grid collects.
#[derive(Debug, Clone, Copy, PartialEq, Eq, Structural)]
pub enum CellClass {
    /// Spawn points only.
    Spawn,
    /// Every walkable cell.
    Walkable,
    /// Walkable cells that are not spawn points.
    OpenFloor,
}

pub open spec fn in_class(c: Cell, k: CellClass) -> bool {
    match k {
        CellClass::Spawn => c == Cell::SpawnPoint,
        CellClass::Walkable => walkable_kind(c),
        CellClass::OpenFloor => walkable_kind(c) && c != Cell::SpawnPoint,
    }
}

fn cell_in_class(c: Cell, k: CellClass) -> (r: bool)
    ensures
        r == in_class(c, k),
{
    match k {
        CellClass::Spawn => c == Cell::SpawnPoint,
        CellClass::Walkable => c != Cell::Wall,
        CellClass::OpenFloor => c != Cell::Wall && c != Cell::SpawnPoint,
    }
}

/// The cells of class `k` among the first `n` cells of row `y`, left to right.
pub open spec fn cells_in_row(m: &Maze, y: int, n: int, k: CellClass) -> Seq<(usize, usize)>
    decreases n,
{
    if n <= 0 {
        seq![]
    } else {
        let prev = cells_in_row(m, y, n - 1, k);
        if in_class(m.cell(n - 1, y), k) {
            prev.push(((n - 1) as usize, y as usize))
        } else {
            prev
        }
    }
}

/// The cells of class `k` in the first `rows` rows, in row-major order.
pub open spec fn cells_upto(m: &Maze, rows: int, k: CellClass) -> Seq<(usize, usize)>
    decreases rows,
{
    if rows <= 0 {
        seq![]
    } else {
        cells_upto(m, rows - 1, k) + cells_in_row(m, rows - 1, m.width as int, k)
    }
}

/// Every cell of class `k`, as `(x, y)`, in row-major order.
pub open spec fn cells_of(m: &Maze, k: CellClass) -> Seq<(usize, usize)> {
    cells_upto(m, m.height as int, k)
}

/// The first `n` elements of `s`, or all of `s` when it is shorter.
pub open spec fn take_upto<A>(s: Seq<A>, n: int) -> Seq<A> {
    if n <= s.len() {
        s.take(n)
    } else {
        s
    }
}

pub proof fn lemma_row_prefix(m: &Maze, y: int, a: int, b: int, k: CellClass)
    requires
        0 <= a <= b,
    ensures
        cells_in_row(m, y, a, k).is_prefix_of(cells_in_row(m, y, b, k)),
        cells_in_row(m, y, b, k).len() <= b,
    decreases b,
{
    if a < b {
        lemma_row_prefix(m, y, a, b - 1, k);
    } else if b > 0 {
        lemma_row_prefix(m, y, b - 1, b - 1, k);
    }
}

pub proof fn lemma_upto_prefix(m: &Maze, a: int, b: int, k: CellClass)
    requires
        0 <= a <= b,
    ensures
        cells_upto(m, a, k).is_prefix_of(cells_upto(m, b, k)),
        cells_upto(m, b, k).len() <= b * m.width,
    decreases b,
{
    if b > 0 {
        lemma_upto_prefix(m, if a < b { a } else { b - 1 }, b - 1, k);
        lemma_row_prefix(m, b - 1, 0, m.width as int, k);
        assert((b - 1) * m.width + m.width == b * m.width) by (nonlinear_arith);
    }
}

/// The cells scanned before position `(x, y)` of a row-major walk form a
/// prefix of all the cells of the class.
proof fn lemma_partial_prefix(m: &Maze, y: int, x: int, k: CellClass)
    requires
        0 <= y < m.height,
        0 <= x <= m.width,
    ensures
        (cells_upto(m, y, k) + cells_in_row(m, y, x, k)).is_prefix_of(cells_of(m, k)),
{
    lemma_row_prefix(m, y, x, m.width as int, k);
    lemma_upto_prefix(m, y + 1, m.height as int, k);
    let a = cells_upto(m, y, k);
    let r1 = cells_in_row(m, y, x, k);
    let r2 = cells_in_row(m, y, m.width as int, k);
    assert((a + r1) =~= (a + r2).subrange(0, (a + r1).len() as int));
}

impl Maze {
    /// The grid has `height` rows of `width` cells each.
    pub open spec fn wf(&self) -> bool {
        &&& self.grid@.len() == self.height
        &&& forall|y: int| 0 <= y < self.height ==> (#[trigger] self.grid@[y])@.len() == self.width
    }

    pub open spec fn in_bounds(&self, x: int, y: int) -> bool {
        0 <= x < self.width && 0 <= y < self.height
    }

    /// The kind of the cell at column `x`, row `y`.
    pub open spec fn cell(&self, x: int, y: int) -> Cell {
        self.grid@[y]@[x]
    }

    pub open spec fn walkable_at(&self, x: int, y: int) -> bool {
        self.in_bounds(x, y) && walkable_kind(self.cell(x, y))
    }

    /// Size and metadata agree; the grids may differ.
    pub open spec fn same_meta(&self, other: &Maze) -> bool {
        &&& self.width == other.width
        &&& self.height == other.height
        &&& self.level_id == other.level_id
        &&& self.name@ == other.name@
        &&& self.description@ == other.description@
        &&& self.max_players == other.max_players
    }

    /// `self` is `prev` with the in-bounds cell `(x, y)` set to `c`, or `prev`
    /// unchanged when `(x, y)` lies outside the grid.
    pub open spec fn is_set_from(&self, prev: &Maze, x: int, y: int, c: Cell) -> bool {
        &&& self.wf()
        &&& self.same_meta(prev)
        &&& forall|i: int, j: int|
            #![trigger self.cell(i, j)]
            self.in_bounds(i, j) ==> self.cell(i, j) == if i == x && j == y {
                c
            } else {
                prev.cell(i, j)
            }
    }

    /// A level of the given size where every cell is a wall.
    pub fn new(
        width: usize,
        height: usize,
        level_id: u32,
        name: String,
        description: String,
        max_players: u8,
    ) -> (m: Maze)
        ensures
            m.wf(),
            m.width == width,
            m.height == height,
            m.level_id == level_id,
            m.name@ == name@,
            m.description@ == description@,
            m.max_players == max_players,
            forall|x: int, y: int| m.in_bounds(x, y) ==> #[trigger] m.cell(x, y) == Cell::Wall,
    {
        let mut grid: Vec<Vec<Cell>> = Vec::with_capacity(height);
        let mut y: usize = 0;
        while y < height
            invariant
                y <= height,
                grid@.len() == y,
                forall|j: int|
                    0 <= j < y ==> (#[trigger] grid@[j])@.len() == width && forall|i: int|
                        0 <= i < width ==> grid@[j]@[i] == Cell::Wall,
            decreases height - y,
        {
            let mut row: Vec<Cell> = Vec::with_capacity(width);
            let mut x: usize = 0;
            while x < width
                invariant
                    x <= width,
                    row@.len() == x,
                    forall|i: int| 0 <= i < x ==> row@[i] == Cell::Wall,
                decreases width - x,
            {
                row.push(Cell::Wall);
                x += 1;
            }
            grid.push(row);
            y += 1;
        }
        Maze { width, height, grid, level_id, name, description, max_players }
    }

    fn set_cell(&mut self, x: usize, y: usize, c: Cell)
        requires
            old(self).wf(),
        ensures
            final(self).is_set_from(old(self), x as int, y as int, c),
    {
        if x < self.width && y < self.height {
            self.grid[y][x] = c;
        }
    }

    /// Turns the cell into a plain walkable path (no effect outside the grid).
    pub fn set_path(&mut self, x: usize, y: usize)
        requires
            old(self).wf(),
        ensures
            final(self).is_set_from(old(self), x as int, y as int, Cell::Path),
    {
        self.set_cell(x, y, Cell::Path);
    }

    /// Marks the cell as a spawn point (no effect outside the grid).
    pub fn set_spawn_point(&mut self, x: usize, y: usize)
        requires
            old(self).wf(),
        ensures
            final(self).is_set_from(old(self), x as int, y as int, Cell::SpawnPoint),
    {
        self.set_cell(x, y, Cell::SpawnPoint);
    }

    /// Marks the cell as cover (no effect outside the grid).
    pub fn set_cover(&mut self, x: usize, y: usize)
        requires
            old(self).wf(),
        ensures
            final(self).is_set_from(old(self), x as int, y as int, Cell::Cover),
    {
        self.set_cell(x, y, Cell::Cover);
    }

    /// The cell kind, for an in-bounds cell.
    pub fn get(&self, x: usize, y: usize) -> (c: Cell)
        requires
            self.wf(),
            self.in_bounds(x as int, y as int),
        ensures
            c == self.cell(x as int, y as int),
    {
        self.grid[y][x]
    }

    /// Whether a player may stand on the cell; false outside the grid.
    pub fn is_walkable(&self, x: usize, y: usize) -> (r: bool)
        requires
            self.wf(),
        ensures
            r == self.walkable_at(x as int, y as int),
    {
        if x >= self.width || y >= self.height {
            return false;
        }
        self.grid[y][x] != Cell::Wall
    }

    /// Whether the cell is a spawn point; false outside the grid.
    pub fn is_spawn_point(&self, x: usize, y: usize) -> (r: bool)
        requires
            self.wf(),
        ensures
            r == (self.in_bounds(x as int, y as int) && self.cell(x as int, y as int)
                == Cell::SpawnPoint),
    {
        if x >= self.width || y >= self.height {
            return false;
        }
        self.grid[y][x] == Cell::SpawnPoint
    }

    /// Whether the cell is cover; false outside the grid.
    pub fn is_cover(&self, x: usize, y: usize) -> (r: bool)
        requires
            self.wf(),
        ensures
            r == (self.in_bounds(x as int, y as int) && self.cell(x as int, y as int)
                == Cell::Cover),
    {
        if x >= self.width || y >= self.height {
            return false;
        }
        self.grid[y][x] == Cell::Cover
    }
}

proof fn lemma_row_members(m: &Maze, y: int, n: int, k: CellClass)
    requires
        m.wf(),
        0 <= y < m.height,
        0 <= n <= m.width,
    ensures
        forall|i: int|
            0 <= i < cells_in_row(m, y, n, k).len() ==> {
                let c = #[trigger] cells_in_row(m, y, n, k)[i];
                m.in_bounds(c.0 as int, c.1 as int) && in_class(m.cell(c.0 as int, c.1 as int), k)
            },
    decreases n,
{
    if n > 0 {
        lemma_row_members(m, y, n - 1, k);
    }
}

proof fn lemma_upto_members(m: &Maze, rows: int, k: CellClass)
    requires
        m.wf(),
        0 <= rows <= m.height,
    ensures
        forall|i: int|
            0 <= i < cells_upto(m, rows, k).len() ==> {
                let c = #[trigger] cells_upto(m, rows, k)[i];
                m.in_bounds(c.0 as int, c.1 as int) && in_class(m.cell(c.0 as int, c.1 as int), k)
            },
    decreases rows,
{
    if rows > 0 {
        lemma_upto_members(m, rows - 1, k);
        lemma_row_members(m, rows - 1, m.width as int, k);
        let a = cells_upto(m, rows - 1, k);
        let b = cells_in_row(m, rows - 1, m.width as int, k);
        assert forall|i: int| 0 <= i < (a + b).len() implies #[trigger] (a + b)[i] == if i < a.len() {
            a[i]
        } else {
            b[i - a.len()]
        } by {}
    }
}

/// A grid with a cell of class `k` lists at least one such cell.
pub proof fn lemma_class_nonempty(m: &Maze, x: int, y: int, k: CellClass)
    requires
        m.wf(),
        m.in_bounds(x, y),
        in_class(m.cell(x, y), k),
    ensures
        cells_of(m, k).len() > 0,
{
    assert(cells_in_row(m, y, x + 1, k).len() > 0);
    lemma_row_prefix(m, y, x + 1, m.width as int, k);
    lemma_upto_prefix(m, y + 1, m.height as int, k);
    assert(cells_upto(m, y + 1, k).len() >= cells_in_row(m, y, m.width as int, k).len());
}

/// Every listed cell of class `k` lies in the grid and is of that class.
pub proof fn lemma_cells_of_members(m: &Maze, k: CellClass)
    requires
        m.wf(),
    ensures
        forall|i: int|
            0 <= i < cells_of(m, k).len() ==> {
                let c = #[trigger] cells_of(m, k)[i];
                m.in_bounds(c.0 as int, c.1 as int) && in_class(m.cell(c.0 as int, c.1 as int), k)
            },
{
    lemma_upto_members(m, m.height as int, k);
}

impl Maze {
    /// Appends to `pts`, in row-major order, the cells of class `k` until
    /// `pts` holds `count` entries or the grid is exhausted.
    fn collect_cells(&self, k: CellClass, pts: &mut Vec<(usize, usize)>, count: usize)
        requires
            self.wf(),
            old(pts)@.len() <= count,
        ensures
            final(pts)@ == old(pts)@ + take_upto(cells_of(self, k), count - old(pts)@.len()),
    {
        let ghost start = pts@;
        let ghost want = count - start.len();
        let ghost mut got: Seq<(usize, usize)> = seq![];
        let mut y: usize = 0;
        while y < self.height && pts.len() < count
            invariant
                self.wf(),
                y <= self.height,
                want == count - start.len(),
                pts@ == start + got,
                got.is_prefix_of(cells_of(self, k)),
                got.len() <= want,
                got.len() < want ==> got == cells_upto(self, y as int, k),
            decreases self.height - y,
        {
            let mut x: usize = 0;
            while x < self.width && pts.len() < count
                invariant
                    self.wf(),
                    y < self.height,
                    x <= self.width,
                    want == count - start.len(),
                    pts@ == start + got,
                    got.len() <= want,
                    got == cells_upto(self, y as int, k) + cells_in_row(self, y as int, x as int, k),
                decreases self.width - x,
            {
                let c = self.grid[y][x];
                if cell_in_class(c, k) {
                    pts.push((x, y));
                    proof {
                        got = got.push((x, y));
                    }
                }
                proof {
                    let a = cells_upto(self, y as int, k);
                    let r = cells_in_row(self, y as int, x as int, k);
                    assert((a + r).push((x, y)) =~= a + r.push((x, y)));
                }
                x += 1;
            }
            proof {
                lemma_partial_prefix(self, y as int, x as int, k);
            }
            y += 1;
        }
        proof {
            let full = cells_of(self, k);
            if got.len() == want {
                assert(got =~= full.take(want));
            } else {
                assert(cells_of(self, k) == cells_upto(self, y as int, k));
            }
        }
    }

    /// Up to `count` distinct spawn locations: the spawn points in row-major
    /// order, then, when there are fewer than `count` of them, the other
    /// walkable cells in row-major order.
    pub fn spawn_points(&self, count: usize) -> (pts: Vec<(usize, usize)>)
        requires
            self.wf(),
        ensures
            pts@ == take_upto(
                cells_of(self, CellClass::Spawn) + cells_of(self, CellClass::OpenFloor),
                count as int,
            ),
    {
        let mut pts: Vec<(usize, usize)> = Vec::new();
        self.collect_cells(CellClass::Spawn, &mut pts, count);
        let ghost first = pts@;
        if pts.len() < count {
            self.collect_cells(CellClass::OpenFloor, &mut pts, count);
        }
        proof {
            let sp = cells_of(self, CellClass::Spawn);
            let fl = cells_of(self, CellClass::OpenFloor);
            assert(first =~= take_upto(sp, count as int));
            if sp.len() >= count {
                assert(pts@ =~= (sp + fl).take(count as int));
            } else {
                assert(pts@ =~= take_upto(sp + fl, count as int));
            }
        }
        pts
    }

    /// Whether the level has at least `required_count` walkable cells, and at
    /// least one.
    pub fn has_enough_spawns(&self, required_count: usize) -> (r: bool)
        requires
            self.wf(),
        ensures
            r == (cells_of(self, CellClass::Walkable).len() >= required_count
                && cells_of(self, CellClass::Walkable).len() > 0),
    {
        let ghost k = CellClass::Walkable;
        let mut walkable_count: usize = 0;
        let mut y: usize = 0;
        while y < self.height
            invariant
                self.wf(),
                k == CellClass::Walkable,
                y <= self.height,
                walkable_count == cells_upto(self, y as int, k).len(),
                walkable_count == 0 || walkable_count < required_count,
            decreases self.height - y,
        {
            let mut x: usize = 0;
            while x < self.width
                invariant
                    self.wf(),
                    k == CellClass::Walkable,
                    y < self.height,
                    x <= self.width,
                    walkable_count == (cells_upto(self, y as int, k) + cells_in_row(
                        self,
                        y as int,
                        x as int,
                        k,
                    )).len(),
                    walkable_count == 0 || walkable_count < required_count,
                decreases self.width - x,
            {
                if self.is_walkable(x, y) {
                    walkable_count += 1;
                    if walkable_count >= required_count {
                        proof {
                            lemma_partial_prefix(self, y as int, x as int + 1, k);
                        }
                        return true;
                    }
                }
                x += 1;
            }
            y += 1;
        }
        false
    }

    /// The number of walkable cells.
    pub fn total_walkable_cells(&self) -> (n: usize)
        requires
            self.wf(),
            self.width * self.height <= usize::MAX,
        ensures
            n == cells_of(self, CellClass::Walkable).len(),
    {
        let ghost k = CellClass::Walkable;
        let mut count: usize = 0;
        let mut y: usize = 0;
        while y < self.height
            invariant
                self.wf(),
                k == CellClass::Walkable,
                self.width * self.height <= usize::MAX,
                y <= self.height,
                count == cells_upto(self, y as int, k).len(),
            decreases self.height - y,
        {
            let mut x: usize = 0;
            while x < self.width
                invariant
                    self.wf(),
                    k == CellClass::Walkable,
                    self.width * self.height <= usize::MAX,
                    y < self.height,
                    x <= self.width,
                    count == (cells_upto(self, y as int, k) + cells_in_row(
                        self,
                        y as int,
                        x as int,
                        k,
                    )).len(),
                decreases self.width - x,
            {
                proof {
                    lemma_partial_prefix(self, y as int, x as int + 1, k);
                    lemma_upto_prefix(self, self.height as int, self.height as int, k);
                    assert(self.height * self.width == self.width * self.height) by (nonlinear_arith);
                }
                if self.is_walkable(x, y) {
                    count += 1;
                }
                x += 1;
            }
            y += 1;
        }
        count
    }
}

} // verus!
